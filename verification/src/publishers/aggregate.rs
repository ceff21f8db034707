//! Several publishers at work for one name.
use vstd::prelude::*;

use crate::protocol::wire::{lemma_views_push, views};
use crate::report::{entries_view, format_report, report_text, ErrorModel, ErrorReport};

verus! {

/// Every publisher failed.
#[derive(Debug, PartialEq, Eq)]
pub struct PublishersError {
    pub errors: Vec<(String, ErrorReport)>,
}

impl View for PublishersError {
    type V = Seq<(Seq<char>, ErrorModel)>;

    open spec fn view(&self) -> Seq<(Seq<char>, ErrorModel)> {
        entries_view(self.errors@)
    }
}

impl PublishersError {
    pub fn message(&self) -> (r: String)
        ensures
            r@ == report_text(
                self@,
                "no DNS publishers available"@,
                "all DNS publishers failed"@,
            ),
    {
        format_report(&self.errors, "no DNS publishers available", "all DNS publishers failed")
    }
}

/// The publishers that succeeded, and those that did not.
#[derive(Debug, PartialEq, Eq)]
pub struct PublishReport {
    pub succeeded: Vec<String>,
    pub errors: Vec<(String, ErrorReport)>,
}

impl PublishReport {
    /// Whether every publisher succeeded.
    pub fn is_complete(&self) -> (r: bool)
        ensures
            r == (self.errors@.len() == 0),
    {
        self.errors.is_empty()
    }
}

/// What a publisher answered.
pub type PublishReply = (String, Result<(), ErrorReport>);

/// The publishers that succeeded, in order.
pub open spec fn successes(replies: Seq<PublishReply>) -> Seq<Seq<char>>
    decreases replies.len(),
{
    if replies.len() == 0 {
        Seq::empty()
    } else {
        let front = successes(replies.drop_last());
        match replies.last().1 {
            Ok(_) => front.push(replies.last().0@),
            Err(_) => front,
        }
    }
}

/// The publishers that failed and why, in order.
pub open spec fn failures(replies: Seq<PublishReply>) -> Seq<(Seq<char>, ErrorModel)>
    decreases replies.len(),
{
    if replies.len() == 0 {
        Seq::empty()
    } else {
        let front = failures(replies.drop_last());
        match replies.last().1 {
            Ok(_) => front,
            Err(error) => front.push((replies.last().0@, error@)),
        }
    }
}

/// What the publishers achieved together. One success is enough.
pub fn merge_publications(replies: Vec<PublishReply>) -> (r: Result<PublishReport, PublishersError>)
    ensures
        match r {
            Ok(report) => successes(replies@).len() > 0 && views(report.succeeded@) == successes(
                replies@,
            ) && entries_view(report.errors@) == failures(replies@),
            Err(error) => successes(replies@).len() == 0 && error@ == failures(replies@),
        },
{
    let ghost all = replies@;
    let mut succeeded: Vec<String> = Vec::new();
    let mut errors: Vec<(String, ErrorReport)> = Vec::new();
    assert(views(succeeded@) =~= successes(all.take(0)));
    assert(entries_view(errors@) =~= failures(all.take(0)));
    for reply in iter: replies
        invariant
            iter.seq() == all,
            views(succeeded@) == successes(all.take(iter.index())),
            entries_view(errors@) == failures(all.take(iter.index())),
    {
        let ghost n = iter.index();
        proof {
            assert(all.take(n + 1).drop_last() =~= all.take(n));
            assert(all.take(n + 1).last() == reply);
        }
        match reply.1 {
            Ok(_) => {
                proof {
                    lemma_views_push(succeeded@, reply.0);
                }
                succeeded.push(reply.0);
            },
            Err(error) => {
                let ghost before = errors@;
                errors.push((reply.0, error));
                assert(entries_view(errors@) =~= entries_view(before).push((reply.0@, error@)));
            },
        }
    }
    assert(all.take(all.len() as int) =~= all);
    assert(views(succeeded@).len() == succeeded@.len());
    if succeeded.is_empty() {
        Err(PublishersError { errors })
    } else {
        Ok(PublishReport { succeeded, errors })
    }
}

/// Publishers succeed together exactly where one of them does, and every reply is
/// accounted for.
pub proof fn law_publishers_succeed_where_one_does(replies: Seq<PublishReply>)
    ensures
        successes(replies).len() > 0 <==> (exists|i: int|
            0 <= i < replies.len() && (#[trigger] replies[i]).1 is Ok),
        successes(replies).len() + failures(replies).len() == replies.len(),
    decreases replies.len(),
{
    if replies.len() > 0 {
        let front = replies.drop_last();
        law_publishers_succeed_where_one_does(front);
        if replies.last().1 is Ok {
            assert(replies[replies.len() - 1].1 is Ok);
        }
        if successes(front).len() > 0 {
            let i = choose|i: int| 0 <= i < front.len() && (#[trigger] front[i]).1 is Ok;
            assert(replies[i].1 is Ok);
        }
        if exists|i: int| 0 <= i < replies.len() && (#[trigger] replies[i]).1 is Ok {
            let i = choose|i: int| 0 <= i < replies.len() && (#[trigger] replies[i]).1 is Ok;
            if i < front.len() {
                assert(front[i].1 is Ok);
            }
        }
    }
}

/// The publishers that succeeded and those that failed are reported in their order, each with
/// its label, and those that failed with the reason.
pub proof fn law_publishers_are_reported_in_order(
    replies: Seq<PublishReply>,
    more: Seq<PublishReply>,
    reply: PublishReply,
)
    ensures
        successes(replies + more) == successes(replies) + successes(more),
        failures(replies + more) == failures(replies) + failures(more),
        reply.1 is Ok ==> successes(seq![reply]) == seq![reply.0@],
        reply.1 is Ok ==> failures(seq![reply]).len() == 0,
        reply.1 is Err ==> successes(seq![reply]).len() == 0,
        reply.1 matches Err(error) ==> failures(seq![reply]) == seq![(reply.0@, error@)],
    decreases more.len(),
{
    if more.len() > 0 {
        law_publishers_are_reported_in_order(replies, more.drop_last(), reply);
        assert((replies + more).drop_last() =~= replies + more.drop_last());
        assert((replies + more).last() == more.last());
    } else {
        assert(replies + more =~= replies);
    }
    assert(successes(replies + more) =~= successes(replies) + successes(more));
    assert(failures(replies + more) =~= failures(replies) + failures(more));
    reveal_with_fuel(successes, 2);
    reveal_with_fuel(failures, 2);
    assert(seq![reply].drop_last() =~= Seq::<PublishReply>::empty());
    assert(seq![reply].last() == reply);
    match reply.1 {
        Ok(_) => {
            assert(successes(seq![reply]) =~= seq![reply.0@]);
        },
        Err(error) => {
            assert(failures(seq![reply]) =~= seq![(reply.0@, error@)]);
        },
    }
}

} // verus!
