//! Several resolvers asked for one name.
use vstd::prelude::*;

use crate::net::{EndpointAddr, Source};
use crate::protocol::wire::views;
use crate::report::{
    entries_view, format_report, report_text, ErrorModel, ErrorReport,
};
use crate::resolvers::endpoint_candidates::{
    CandidateGroupModel, EndpointCandidateGroup, EndpointCandidates,
};

verus! {

/// A resolver among others.
#[derive(Debug, PartialEq, Eq)]
pub struct ResolverEntry {
    /// How the resolver is shown.
    pub label: String,
    pub supports_endpoint_candidates: bool,
}

/// Resolvers that are asked for one name.
#[derive(Debug, PartialEq, Eq)]
pub struct Resolvers {
    pub resolvers: Vec<ResolverEntry>,
}

/// Labels with commas between them.
pub open spec fn listed(labels: Seq<Seq<char>>) -> Seq<char>
    decreases labels.len(),
{
    if labels.len() == 0 {
        Seq::empty()
    } else if labels.len() == 1 {
        labels[0]
    } else {
        listed(labels.drop_last()) + ", "@ + labels.last()
    }
}

impl Default for Resolvers {
    fn default() -> (r: Self)
        ensures
            r.resolvers@.len() == 0,
    {
        Resolvers { resolvers: Vec::new() }
    }
}

impl Resolvers {
    pub fn new() -> (r: Self)
        ensures
            r.resolvers@.len() == 0,
    {
        Self::default()
    }

    /// The labels of the resolvers.
    pub open spec fn labels(self) -> Seq<Seq<char>> {
        self.resolvers@.map_values(|entry: ResolverEntry| entry.label@)
    }

    pub fn push(&mut self, label: String)
        ensures
            final(self).resolvers@ == old(self).resolvers@.push(
                ResolverEntry { label, supports_endpoint_candidates: false },
            ),
    {
        self.resolvers.push(ResolverEntry { label, supports_endpoint_candidates: false });
    }

    pub fn push_candidate_resolver(&mut self, label: String)
        ensures
            final(self).resolvers@ == old(self).resolvers@.push(
                ResolverEntry { label, supports_endpoint_candidates: true },
            ),
    {
        self.resolvers.push(ResolverEntry { label, supports_endpoint_candidates: true });
    }

    pub fn with(self, label: String) -> (r: Self)
        ensures
            r.resolvers@ == self.resolvers@.push(
                ResolverEntry { label, supports_endpoint_candidates: false },
            ),
    {
        let mut resolvers = self;
        resolvers.push(label);
        resolvers
    }

    pub fn with_candidate_resolver(self, label: String) -> (r: Self)
        ensures
            r.resolvers@ == self.resolvers@.push(
                ResolverEntry { label, supports_endpoint_candidates: true },
            ),
    {
        let mut resolvers = self;
        resolvers.push_candidate_resolver(label);
        resolvers
    }

    /// How the resolvers are shown.
    pub fn text(&self) -> (r: String)
        ensures
            r@ == "Resolvers("@ + (if self.resolvers@.len() == 0 {
                "empty"@
            } else {
                listed(self.labels())
            }) + ")"@,
    {
        let mut out = "Resolvers(".to_owned();
        if self.resolvers.is_empty() {
            out.append("empty");
        } else {
            let ghost start = out@;
            let ghost labels = self.labels();
            let mut i: usize = 0;
            assert(out@ =~= start + listed(labels.take(0)));
            while i < self.resolvers.len()
                invariant
                    i <= self.resolvers@.len(),
                    labels == self.labels(),
                    out@ == start + listed(labels.take(i as int)),
                decreases self.resolvers@.len() - i,
            {
                proof {
                    assert(labels.take(i + 1).drop_last() =~= labels.take(i as int));
                    assert(labels.take(i + 1).last() == self.resolvers@[i as int].label@);
                }
                if i > 0 {
                    out.append(", ");
                }
                out.append(self.resolvers[i].label.as_str());
                assert(out@ =~= start + listed(labels.take(i + 1)));
                i = i + 1;
            }
            assert(labels.take(i as int) =~= labels);
        }
        out.append(")");
        out
    }
}

/// Every resolver failed.
#[derive(Debug, PartialEq, Eq)]
pub struct ResolversError {
    pub errors: Vec<(String, ErrorReport)>,
}

impl View for ResolversError {
    type V = Seq<(Seq<char>, ErrorModel)>;

    open spec fn view(&self) -> Seq<(Seq<char>, ErrorModel)> {
        entries_view(self.errors@)
    }
}

impl ResolversError {
    pub fn message(&self) -> (r: String)
        ensures
            r@ == report_text(
                self@,
                "no DNS resolvers available"@,
                "all DNS resolvers failed"@,
            ),
    {
        format_report(&self.errors, "no DNS resolvers available", "all DNS resolvers failed")
    }
}

/// What a resolver answered when it was asked for candidates.
#[derive(Debug, PartialEq, Eq)]
pub enum CandidateReply {
    /// The resolver cannot be asked for candidates.
    Unsupported,
    Found(Vec<EndpointCandidateGroup>),
    Failed(ErrorReport),
}

/// The groups that the resolvers found, in their order.
pub open spec fn found_groups(replies: Seq<(String, CandidateReply)>) -> Seq<CandidateGroupModel>
    decreases replies.len(),
{
    if replies.len() == 0 {
        Seq::empty()
    } else {
        let front = found_groups(replies.drop_last());
        match replies.last().1 {
            CandidateReply::Found(groups) => front + views(groups@),
            _ => front,
        }
    }
}

/// The resolvers that found nothing and why, in their order.
pub open spec fn candidate_errors(replies: Seq<(String, CandidateReply)>) -> Seq<
    (Seq<char>, ErrorModel),
>
    decreases replies.len(),
{
    if replies.len() == 0 {
        Seq::empty()
    } else {
        let front = candidate_errors(replies.drop_last());
        match replies.last().1 {
            CandidateReply::Unsupported => front.push(
                (
                    replies.last().0@,
                    ErrorModel {
                        message: "resolver does not support endpoint candidate lookup"@,
                        sources: Seq::empty(),
                    },
                ),
            ),
            CandidateReply::Found(_) => front,
            CandidateReply::Failed(error) => front.push((replies.last().0@, error@)),
        }
    }
}

/// What the resolvers found together. It is an error where none found a group and one
/// failed.
pub fn merge_endpoint_candidates(replies: Vec<(String, CandidateReply)>) -> (r: Result<
    EndpointCandidates,
    ResolversError,
>)
    ensures
        match r {
            Ok(candidates) => views(candidates.groups@) == found_groups(replies@) && (found_groups(
                replies@,
            ).len() > 0 || candidate_errors(replies@).len() == 0),
            Err(error) => error@ == candidate_errors(replies@) && found_groups(replies@).len() == 0
                && candidate_errors(replies@).len() > 0,
        },
{
    let ghost all = replies@;
    let mut groups: Vec<EndpointCandidateGroup> = Vec::new();
    let mut errors: Vec<(String, ErrorReport)> = Vec::new();
    assert(views(groups@) =~= found_groups(all.take(0)));
    assert(entries_view(errors@) =~= candidate_errors(all.take(0)));
    for reply in iter: replies
        invariant
            iter.seq() == all,
            views(groups@) == found_groups(all.take(iter.index())),
            entries_view(errors@) == candidate_errors(all.take(iter.index())),
    {
        let ghost n = iter.index();
        proof {
            assert(all.take(n + 1).drop_last() =~= all.take(n));
            assert(all.take(n + 1).last() == reply);
        }
        let ghost before = errors@;
        match reply.1 {
            CandidateReply::Unsupported => {
                let error = ErrorReport::plain(
                    "resolver does not support endpoint candidate lookup",
                );
                errors.push((reply.0, error));
                assert(entries_view(errors@) =~= entries_view(before).push((reply.0@, error@)));
            },
            CandidateReply::Found(found) => {
                let ghost known = groups@;
                let mut found = found;
                groups.append(&mut found);
                assert(views(groups@) =~= views(known) + found_groups(all.take(n + 1)).skip(
                    views(known).len() as int,
                ));
            },
            CandidateReply::Failed(error) => {
                errors.push((reply.0, error));
                assert(entries_view(errors@) =~= entries_view(before).push((reply.0@, error@)));
            },
        }
    }
    assert(all.take(all.len() as int) =~= all);
    assert(entries_view(errors@).len() == errors@.len());
    assert(views(groups@).len() == groups@.len());
    if groups.is_empty() && !errors.is_empty() {
        return Err(ResolversError { errors });
    }
    Ok(EndpointCandidates { groups })
}

/// What a resolver found, or why it found nothing.
pub type LookupReply = (String, Result<Vec<(Source, EndpointAddr)>, ErrorReport>);

/// The endpoints that the resolvers found, in the order in which they answered.
pub open spec fn found_endpoints(replies: Seq<LookupReply>) -> Seq<(Source, EndpointAddr)>
    decreases replies.len(),
{
    if replies.len() == 0 {
        Seq::empty()
    } else {
        let front = found_endpoints(replies.drop_last());
        match replies.last().1 {
            Ok(endpoints) => front + endpoints@,
            Err(_) => front,
        }
    }
}

/// The resolvers that failed and why, in the order in which they answered.
pub open spec fn lookup_errors(replies: Seq<LookupReply>) -> Seq<(Seq<char>, ErrorModel)>
    decreases replies.len(),
{
    if replies.len() == 0 {
        Seq::empty()
    } else {
        let front = lookup_errors(replies.drop_last());
        match replies.last().1 {
            Ok(_) => front,
            Err(error) => front.push((replies.last().0@, error@)),
        }
    }
}

/// The endpoints that the resolvers found, in the order in which they answered. It is an
/// error where none succeeded.
pub fn merge_lookups(replies: Vec<LookupReply>) -> (r: Result<
    Vec<(Source, EndpointAddr)>,
    ResolversError,
>)
    ensures
        match r {
            Ok(endpoints) => endpoints@ == found_endpoints(replies@) && (exists|i: int|
                0 <= i < replies@.len() && (#[trigger] replies@[i]).1 is Ok),
            Err(error) => error@ == lookup_errors(replies@) && (forall|i: int|
                0 <= i < replies@.len() ==> (#[trigger] replies@[i]).1 is Err),
        },
{
    let ghost all = replies@;
    let mut endpoints: Vec<(Source, EndpointAddr)> = Vec::new();
    let mut errors: Vec<(String, ErrorReport)> = Vec::new();
    let mut succeeded = false;
    assert(endpoints@ =~= found_endpoints(all.take(0)));
    assert(entries_view(errors@) =~= lookup_errors(all.take(0)));
    for reply in iter: replies
        invariant
            iter.seq() == all,
            endpoints@ == found_endpoints(all.take(iter.index())),
            entries_view(errors@) == lookup_errors(all.take(iter.index())),
            succeeded ==> exists|i: int| 0 <= i < iter.index() && (#[trigger] all[i]).1 is Ok,
            !succeeded ==> forall|i: int| 0 <= i < iter.index() ==> (#[trigger] all[i]).1 is Err,
    {
        let ghost n = iter.index();
        proof {
            assert(all.take(n + 1).drop_last() =~= all.take(n));
            assert(all.take(n + 1).last() == reply);
            assert(all[n] == reply);
        }
        match reply.1 {
            Ok(found) => {
                let mut found = found;
                endpoints.append(&mut found);
                succeeded = true;
            },
            Err(error) => {
                let ghost before = errors@;
                errors.push((reply.0, error));
                assert(entries_view(errors@) =~= entries_view(before).push((reply.0@, error@)));
            },
        }
    }
    assert(all.take(all.len() as int) =~= all);
    if succeeded {
        Ok(endpoints)
    } else {
        Err(ResolversError { errors })
    }
}

/// Labels are listed in their order, with a comma and a space between two of them.
pub proof fn law_labels_are_listed_with_commas(labels: Seq<Seq<char>>, label: Seq<char>)
    ensures
        listed(seq![label]) == label,
        labels.len() > 0 ==> listed(labels.push(label)) == listed(labels) + seq![',', ' '] + label,
        listed(Seq::<Seq<char>>::empty()).len() == 0,
{
    reveal_strlit(", ");
    assert(", "@ =~= seq![',', ' ']);
    assert(labels.push(label).drop_last() =~= labels);
    assert(labels.push(label).last() == label);
}

/// The groups that resolvers found follow each other in the order of the resolvers, and no
/// other reply adds any.
pub proof fn law_found_groups_follow_each_other(
    replies: Seq<(String, CandidateReply)>,
    more: Seq<(String, CandidateReply)>,
    reply: (String, CandidateReply),
)
    ensures
        found_groups(replies + more) == found_groups(replies) + found_groups(more),
        reply.1 matches CandidateReply::Found(groups) ==> found_groups(seq![reply]) == views(
            groups@,
        ),
        !(reply.1 is Found) ==> found_groups(seq![reply]).len() == 0,
    decreases more.len(),
{
    if more.len() > 0 {
        law_found_groups_follow_each_other(replies, more.drop_last(), reply);
        assert((replies + more).drop_last() =~= replies + more.drop_last());
        assert((replies + more).last() == more.last());
    } else {
        assert(replies + more =~= replies);
    }
    assert(found_groups(replies + more) =~= found_groups(replies) + found_groups(more));
    reveal_with_fuel(found_groups, 2);
    assert(seq![reply].drop_last() =~= Seq::<(String, CandidateReply)>::empty());
    if let CandidateReply::Found(groups) = reply.1 {
        assert(found_groups(seq![reply]) =~= views(groups@));
    }
}

/// Resolvers that failed, or that do not support the lookup, are reported in their order with
/// the reason, and the others are not.
pub proof fn law_failed_candidate_lookups_are_reported(
    replies: Seq<(String, CandidateReply)>,
    more: Seq<(String, CandidateReply)>,
    reply: (String, CandidateReply),
)
    ensures
        candidate_errors(replies + more) == candidate_errors(replies) + candidate_errors(more),
        reply.1 is Found ==> candidate_errors(seq![reply]).len() == 0,
        !(reply.1 is Found) ==> {
            &&& candidate_errors(seq![reply]).len() == 1
            &&& candidate_errors(seq![reply])[0].0 == reply.0@
        },
        reply.1 matches CandidateReply::Failed(error) ==> candidate_errors(seq![reply])[0].1
            == error@,
        reply.1 is Unsupported ==> {
            let error = candidate_errors(seq![reply])[0].1;
            &&& error.message == "resolver does not support endpoint candidate lookup"@
            &&& error.sources.len() == 0
        },
    decreases more.len(),
{
    if more.len() > 0 {
        law_failed_candidate_lookups_are_reported(replies, more.drop_last(), reply);
        assert((replies + more).drop_last() =~= replies + more.drop_last());
        assert((replies + more).last() == more.last());
    } else {
        assert(replies + more =~= replies);
    }
    assert(candidate_errors(replies + more) =~= candidate_errors(replies) + candidate_errors(
        more,
    ));
    reveal_with_fuel(candidate_errors, 2);
    assert(seq![reply].drop_last() =~= Seq::<(String, CandidateReply)>::empty());
}

/// The endpoints that resolvers found follow each other in the order of the resolvers, and
/// one that failed adds none.
pub proof fn law_found_endpoints_follow_each_other(
    replies: Seq<LookupReply>,
    more: Seq<LookupReply>,
    reply: LookupReply,
)
    ensures
        found_endpoints(replies + more) == found_endpoints(replies) + found_endpoints(more),
        reply.1 matches Ok(endpoints) ==> found_endpoints(seq![reply]) == endpoints@,
        reply.1 is Err ==> found_endpoints(seq![reply]).len() == 0,
    decreases more.len(),
{
    if more.len() > 0 {
        law_found_endpoints_follow_each_other(replies, more.drop_last(), reply);
        assert((replies + more).drop_last() =~= replies + more.drop_last());
        assert((replies + more).last() == more.last());
    } else {
        assert(replies + more =~= replies);
    }
    assert(found_endpoints(replies + more) =~= found_endpoints(replies) + found_endpoints(more));
    reveal_with_fuel(found_endpoints, 2);
    assert(seq![reply].drop_last() =~= Seq::<LookupReply>::empty());
    if let Ok(endpoints) = reply.1 {
        assert(found_endpoints(seq![reply]) =~= endpoints@);
    }
}

/// Resolvers that failed are reported in their order with the reason, and the others are not.
pub proof fn law_failed_lookups_are_reported(
    replies: Seq<LookupReply>,
    more: Seq<LookupReply>,
    reply: LookupReply,
)
    ensures
        lookup_errors(replies + more) == lookup_errors(replies) + lookup_errors(more),
        reply.1 is Ok ==> lookup_errors(seq![reply]).len() == 0,
        reply.1 matches Err(error) ==> lookup_errors(seq![reply]) == seq![(reply.0@, error@)],
    decreases more.len(),
{
    if more.len() > 0 {
        law_failed_lookups_are_reported(replies, more.drop_last(), reply);
        assert((replies + more).drop_last() =~= replies + more.drop_last());
        assert((replies + more).last() == more.last());
    } else {
        assert(replies + more =~= replies);
    }
    assert(lookup_errors(replies + more) =~= lookup_errors(replies) + lookup_errors(more));
    reveal_with_fuel(lookup_errors, 2);
    assert(seq![reply].drop_last() =~= Seq::<LookupReply>::empty());
    if let Err(error) = reply.1 {
        assert(lookup_errors(seq![reply]) =~= seq![(reply.0@, error@)]);
    }
}

} // verus!
