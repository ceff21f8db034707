//! Errors as their readers see them.
use vstd::prelude::*;

use crate::protocol::wire::views;
use crate::text::{decimal, push_decimal};

verus! {

/// An error and the chain of what caused it.
#[derive(Debug, PartialEq, Eq)]
pub struct ErrorReport {
    pub message: String,
    pub sources: Vec<String>,
}

/// The contents of an [`ErrorReport`].
pub struct ErrorModel {
    pub message: Seq<char>,
    pub sources: Seq<Seq<char>>,
}

impl View for ErrorReport {
    type V = ErrorModel;

    open spec fn view(&self) -> ErrorModel {
        ErrorModel { message: self.message@, sources: views(self.sources@) }
    }
}

impl ErrorReport {
    /// An error that nothing caused.
    pub fn plain(message: &str) -> (r: Self)
        ensures
            r@.message == message@,
            r@.sources == Seq::<Seq<char>>::empty(),
    {
        let sources: Vec<String> = Vec::new();
        assert(views(sources@) =~= Seq::<Seq<char>>::empty());
        ErrorReport { message: message.to_owned(), sources }
    }
}

/// An error and what caused it, outermost first.
pub open spec fn chain_of(error: ErrorModel) -> Seq<Seq<char>> {
    seq![error.message] + error.sources
}

impl ErrorReport {
    /// An error that another one caused.
    pub fn caused_by(message: &str, source: &ErrorReport) -> (r: Self)
        ensures
            r@ == (ErrorModel { message: message@, sources: chain_of(source@) }),
    {
        let mut sources: Vec<String> = Vec::new();
        sources.push(source.message.clone());
        let mut i: usize = 0;
        while i < source.sources.len()
            invariant
                i <= source.sources@.len(),
                sources@.len() == i + 1,
                sources@[0]@ == source.message@,
                forall|j: int|
                    0 <= j < i ==> (#[trigger] sources@[j + 1])@ == source.sources@[j]@,
            decreases source.sources@.len() - i,
        {
            sources.push(source.sources[i].clone());
            i = i + 1;
        }
        proof {
            let wanted = chain_of(source@);
            assert forall|j: int| 0 <= j < wanted.len() implies views(sources@)[j] == wanted[j] by {
                if j > 0 {
                    assert(sources@[(j - 1) + 1]@ == source.sources@[j - 1]@);
                }
            }
            assert(views(sources@) =~= wanted);
        }
        ErrorReport { message: message.to_owned(), sources }
    }
}

/// Named errors.
pub open spec fn entries_view(entries: Seq<(String, ErrorReport)>) -> Seq<(Seq<char>, ErrorModel)> {
    entries.map_values(|e: (String, ErrorReport)| (e.0@, e.1@))
}

/// The causes of an error, each on a line of its own and numbered from one.
pub open spec fn sources_text(sources: Seq<Seq<char>>) -> Seq<char>
    decreases sources.len(),
{
    if sources.len() == 0 {
        Seq::empty()
    } else {
        sources_text(sources.drop_last()) + "\n    "@ + decimal(sources.len()) + ". "@
            + sources.last()
    }
}

/// Named errors, each on a line of its own with its causes below.
pub open spec fn entries_text(entries: Seq<(Seq<char>, ErrorModel)>) -> Seq<char>
    decreases entries.len(),
{
    if entries.len() == 0 {
        Seq::empty()
    } else {
        entries_text(entries.drop_last()) + "\n  - "@ + entries.last().0 + ": "@
            + entries.last().1.message + sources_text(entries.last().1.sources)
    }
}

/// A report of what failed: a line of its own for nothing, or a head and the errors.
pub open spec fn report_text(
    entries: Seq<(Seq<char>, ErrorModel)>,
    nothing: Seq<char>,
    head: Seq<char>,
) -> Seq<char> {
    if entries.len() == 0 {
        nothing
    } else {
        head + entries_text(entries)
    }
}

/// Writes the causes of an error, each on a line of its own and numbered from one.
pub fn format_error_sources(out: &mut String, sources: &Vec<String>)
    ensures
        final(out)@ == old(out)@ + sources_text(views(sources@)),
{
    let ghost start = out@;
    let ghost all = views(sources@);
    let mut i: usize = 0;
    assert(out@ =~= start + sources_text(all.take(0)));
    while i < sources.len()
        invariant
            i <= sources@.len(),
            all == views(sources@),
            out@ == start + sources_text(all.take(i as int)),
        decreases sources@.len() - i,
    {
        proof {
            assert(all.take(i + 1).drop_last() =~= all.take(i as int));
            assert(all.take(i + 1).last() == sources@[i as int]@);
        }
        out.append("\n    ");
        push_decimal(out, i as u64 + 1);
        out.append(". ");
        out.append(sources[i].as_str());
        assert(out@ =~= start + sources_text(all.take(i + 1)));
        i = i + 1;
    }
    assert(all.take(i as int) =~= all);
}

/// A report of what failed: a line of its own for nothing, or a head and the errors.
pub fn format_report(entries: &Vec<(String, ErrorReport)>, nothing: &str, head: &str) -> (r: String)
    ensures
        r@ == report_text(entries_view(entries@), nothing@, head@),
{
    if entries.is_empty() {
        return nothing.to_owned();
    }
    let ghost all = entries_view(entries@);
    let mut out = head.to_owned();
    let mut i: usize = 0;
    assert(out@ =~= head@ + entries_text(all.take(0)));
    while i < entries.len()
        invariant
            i <= entries@.len(),
            all == entries_view(entries@),
            out@ == head@ + entries_text(all.take(i as int)),
        decreases entries@.len() - i,
    {
        proof {
            assert(all.take(i + 1).drop_last() =~= all.take(i as int));
            assert(all.take(i + 1).last() == (entries@[i as int].0@, entries@[i as int].1@));
        }
        out.append("\n  - ");
        out.append(entries[i].0.as_str());
        out.append(": ");
        out.append(entries[i].1.message.as_str());
        format_error_sources(&mut out, &entries[i].1.sources);
        assert(out@ =~= head@ + entries_text(all.take(i + 1)));
        i = i + 1;
    }
    assert(all.take(i as int) =~= all);
    out
}

/// The causes of an error are the error itself and, behind it, its own causes.
pub proof fn law_causes_start_with_the_error(error: ErrorModel, i: int)
    ensures
        chain_of(error).len() == 1 + error.sources.len(),
        chain_of(error)[0] == error.message,
        0 <= i < error.sources.len() ==> chain_of(error)[i + 1] == error.sources[i],
{
}

/// Every cause stands on a line of its own, numbered from one on.
pub proof fn law_causes_are_numbered(sources: Seq<Seq<char>>, source: Seq<char>)
    ensures
        sources_text(Seq::<Seq<char>>::empty()).len() == 0,
        sources_text(sources.push(source)) == sources_text(sources) + seq![
            '\n',
            ' ',
            ' ',
            ' ',
            ' ',
        ] + decimal(sources.len() + 1) + seq!['.', ' '] + source,
{
    reveal_strlit("\n    ");
    reveal_strlit(". ");
    assert("\n    "@ =~= seq!['\n', ' ', ' ', ' ', ' ']);
    assert(". "@ =~= seq!['.', ' ']);
    assert(sources.push(source).drop_last() =~= sources);
    assert(sources.push(source).last() == source);
}

/// Every entry of a report stands on a line of its own, with its label, its message and its
/// causes. A report without entries says that there is nothing.
pub proof fn law_reports_list_their_entries(
    entries: Seq<(Seq<char>, ErrorModel)>,
    label: Seq<char>,
    error: ErrorModel,
    nothing: Seq<char>,
    head: Seq<char>,
)
    ensures
        report_text(Seq::<(Seq<char>, ErrorModel)>::empty(), nothing, head) == nothing,
        report_text(seq![(label, error)], nothing, head) == head + seq![
            '\n',
            ' ',
            ' ',
            '-',
            ' ',
        ] + label + seq![':', ' '] + error.message + sources_text(error.sources),
        entries.len() > 0 ==> report_text(entries.push((label, error)), nothing, head)
            == report_text(entries, nothing, head) + seq!['\n', ' ', ' ', '-', ' '] + label + seq![
            ':',
            ' ',
        ] + error.message + sources_text(error.sources),
{
    reveal_strlit("\n  - ");
    reveal_strlit(": ");
    assert("\n  - "@ =~= seq!['\n', ' ', ' ', '-', ' ']);
    assert(": "@ =~= seq![':', ' ']);
    reveal_with_fuel(entries_text, 2);
    let one = seq![(label, error)];
    assert(one.drop_last() =~= Seq::<(Seq<char>, ErrorModel)>::empty());
    assert(one.last() == (label, error));
    assert(report_text(one, nothing, head) =~= head + seq!['\n', ' ', ' ', '-', ' '] + label
        + seq![':', ' '] + error.message + sources_text(error.sources));
    let more = entries.push((label, error));
    assert(more.drop_last() =~= entries);
    assert(more.last() == (label, error));
    if entries.len() > 0 {
        assert(report_text(more, nothing, head) =~= report_text(entries, nothing, head) + seq![
            '\n',
            ' ',
            ' ',
            '-',
            ' ',
        ] + label + seq![':', ' '] + error.message + sources_text(error.sources));
    }
}

/// Every entry is told with its label and its error, in order.
pub proof fn law_entries_are_told_as_they_are(entries: Seq<(String, ErrorReport)>, i: int)
    ensures
        entries_view(entries).len() == entries.len(),
        0 <= i < entries.len() ==> {
            &&& entries_view(entries)[i].0 == entries[i].0@
            &&& entries_view(entries)[i].1.message == entries[i].1.message@
            &&& entries_view(entries)[i].1.sources == views(entries[i].1.sources@)
        },
{
}

} // verus!
