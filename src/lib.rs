//! Locates the byte ranges of raw HTML inside a markdown document.
//!
//! The work runs in three steps: the document is scanned into lexical
//! events, the events that carry HTML or a line break are kept, and their
//! byte ranges are merged into disjoint, non-touching spans.
use vstd::prelude::*;

pub mod scan;
pub mod spans;

pub use scan::{html_spans, EventKind, ScanEvent};
pub use spans::join_adjacent_spans;

use scan::{events_of, kept_spans, scan_events};
use spans::{covers, merged, separated, starts_ascending, strictly_ascending};

verus! {

/// Why a document was refused.
#[derive(Clone, Copy, Debug, PartialEq, Eq, Structural)]
pub enum FindError {
    /// The document holds a carriage return. Byte offsets are only reported
    /// for documents whose lines end in a bare line feed.
    InvalidInput,
}

impl FindError {
    /// A fixed description of the error for the caller.
    pub fn message(&self) -> (r: &'static str)
        ensures
            r@ == "carriage returns are unsupported, please strip them from your input."@,
    {
        "carriage returns are unsupported, please strip them from your input."
    }
}

/// The merged HTML spans of a sequence of lexical events.
pub open spec fn positions_of_events(events: Seq<ScanEvent>) -> Seq<(usize, usize)> {
    merged(kept_spans(events))
}

/// The HTML spans of a document free of carriage returns.
pub open spec fn html_positions(text: Seq<char>) -> Seq<(usize, usize)> {
    positions_of_events(events_of(text))
}

/// Whether the text holds a carriage return.
pub fn contains_carriage_return(text: &str) -> (r: bool)
    ensures
        r == text@.contains('\r'),
{
    let mut found = false;
    let ghost mut seen: Seq<char> = seq![];
    for c in it: text.chars()
        invariant
            it.seq() == text@,
            seen == text@.take(it.index() as int),
            found == seen.contains('\r'),
    {
        proof {
            let k = it.index() as int;
            assert(text@.take(k + 1) == seen.push(c));
            if found {
                let j = choose|j: int| 0 <= j < seen.len() && seen[j] == '\r';
                assert(seen.push(c)[j] == '\r');
            }
            if c == '\r' {
                assert(seen.push(c)[k] == '\r');
            }
            if seen.push(c).contains('\r') && c != '\r' {
                let j = choose|j: int| 0 <= j < seen.push(c).len() && seen.push(c)[j] == '\r';
                assert(seen[j] == '\r');
            }
            seen = seen.push(c);
        }
        found = found || c == '\r';
    }
    proof {
        assert(seen == text@);
    }
    found
}

/// Merges the ranges of the events that carry HTML or a line break into
/// disjoint, non-touching spans.
pub fn html_positions_of_events(events: &Vec<ScanEvent>) -> (r: Vec<(usize, usize)>)
    ensures
        r@ == positions_of_events(events@),
        separated(r@),
        (forall|i: int| 0 <= i < events@.len() ==> #[trigger] events@[i].start <= events@[i].end)
            ==> strictly_ascending(r@),
{
    let kept = html_spans(events);
    proof {
        if forall|i: int| 0 <= i < events@.len() ==> #[trigger] events@[i].start <= events@[i].end {
            scan::lemma_kept_spans_wf(events@);
        }
    }
    join_adjacent_spans(kept)
}

/// Finds the byte ranges of raw HTML in a markdown document: block HTML,
/// inline HTML and the line breaks between them, merged into disjoint,
/// non-touching spans in ascending order. A document holding a carriage
/// return is refused before any scanning.
pub fn find_html_positions(markdown: &str) -> (r: Result<Vec<(usize, usize)>, FindError>)
    ensures
        r is Err <==> markdown@.contains('\r'),
        r is Err ==> r == Err::<Vec<(usize, usize)>, FindError>(FindError::InvalidInput),
        r matches Ok(v) ==> v@ == html_positions(markdown@) && separated(v@)
            && strictly_ascending(v@),
{
    if contains_carriage_return(markdown) {
        return Err(FindError::InvalidInput);
    }
    let events = scan_events(markdown);
    Ok(html_positions_of_events(&events))
}

/// The HTML spans of a document cover exactly the bytes covered by the
/// ranges of its HTML and line-break events, whenever those ranges come in
/// ascending order of start, as a scan of a document hands them out.
pub proof fn lemma_html_positions_coverage(text: Seq<char>)
    requires
        starts_ascending(kept_spans(events_of(text))),
    ensures
        forall|b: int|
            covers(html_positions(text), b) <==> covers(kept_spans(events_of(text)), b),
{
    spans::lemma_merge_preserves_coverage(kept_spans(events_of(text)));
}

} // verus!
