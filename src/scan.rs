//! Lexical events of a markdown document, as pulldown-cmark reports them,
//! and the filter that keeps the ones carrying HTML or a line break.
use pulldown_cmark::{Event, Options, Parser};
use vstd::prelude::*;

verus! {

/// The kind of a lexical event, reduced to what the HTML finder tells apart.
#[derive(Clone, Copy, Debug, PartialEq, Eq, Structural)]
pub enum EventKind {
    /// A line of a block of raw HTML.
    HtmlBlock,
    /// Raw HTML inside a paragraph or other inline content.
    InlineHtml,
    /// A soft line break.
    SoftBreak,
    /// A hard line break.
    HardBreak,
    /// Any other event: text, code, headings, emphasis, links and so on.
    Other,
}

impl EventKind {
    /// HTML content or a line break, the kinds whose ranges are kept.
    pub open spec fn spec_is_kept(self) -> bool {
        !(self is Other)
    }

    /// Whether events of this kind are kept.
    pub fn is_kept(&self) -> (r: bool)
        ensures
            r == self.spec_is_kept(),
    {
        !matches!(self, EventKind::Other)
    }
}

/// A lexical event with its half-open byte range `[start, end)` in the
/// source text.
#[derive(Clone, Copy, Debug, PartialEq, Eq, Structural)]
pub struct ScanEvent {
    pub kind: EventKind,
    pub start: usize,
    pub end: usize,
}

/// The events that pulldown-cmark reports for a document, in the order it
/// reports them.
pub uninterp spec fn events_of(text: Seq<char>) -> Seq<ScanEvent>;

/// Relies on `pulldown_cmark::Parser::new_ext` with no extension enabled,
/// walked through `into_offset_iter`: each event with its source range,
/// whose start never lies past its end.
#[verifier::external_body]
pub(crate) fn scan_events(markdown: &str) -> (r: Vec<ScanEvent>)
    ensures
        r@ == events_of(markdown@),
        forall|i: int| 0 <= i < r@.len() ==> #[trigger] r@[i].start <= r@[i].end,
{
    let mut out = Vec::new();
    for (event, range) in Parser::new_ext(markdown, Options::empty()).into_offset_iter() {
        let kind = match event {
            Event::Html(..) => EventKind::HtmlBlock,
            Event::InlineHtml(..) => EventKind::InlineHtml,
            Event::SoftBreak => EventKind::SoftBreak,
            Event::HardBreak => EventKind::HardBreak,
            _ => EventKind::Other,
        };
        out.push(ScanEvent { kind, start: range.start, end: range.end });
    }
    out
}

/// The byte ranges of the kept events, in event order.
pub open spec fn kept_spans(events: Seq<ScanEvent>) -> Seq<(usize, usize)>
    decreases events.len(),
{
    if events.len() == 0 {
        seq![]
    } else {
        let prev = kept_spans(events.drop_last());
        let e = events.last();
        if e.kind.spec_is_kept() {
            prev.push((e.start, e.end))
        } else {
            prev
        }
    }
}

/// The ranges of well-formed events are well formed.
pub proof fn lemma_kept_spans_wf(events: Seq<ScanEvent>)
    requires
        forall|i: int| 0 <= i < events.len() ==> #[trigger] events[i].start <= events[i].end,
    ensures
        crate::spans::all_wf(kept_spans(events)),
    decreases events.len(),
{
    if events.len() > 0 {
        lemma_kept_spans_wf(events.drop_last());
    }
}

/// Keeps the byte ranges of the events that carry HTML or a line break.
pub fn html_spans(events: &Vec<ScanEvent>) -> (r: Vec<(usize, usize)>)
    ensures
        r@ == kept_spans(events@),
{
    let mut out: Vec<(usize, usize)> = Vec::new();
    let n = events.len();
    let mut i: usize = 0;
    while i < n
        invariant
            n == events.len(),
            i <= n,
            out@ == kept_spans(events@.take(i as int)),
        decreases n - i,
    {
        let e = events[i];
        proof {
            assert(events@.take(i + 1).drop_last() == events@.take(i as int));
        }
        if e.kind.is_kept() {
            out.push((e.start, e.end));
        }
        i = i + 1;
    }
    proof {
        assert(events@.take(n as int) == events@);
    }
    out
}

} // verus!
