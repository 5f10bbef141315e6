//! Markdown as a sequence of events, read with `pulldown_cmark`.

use pulldown_cmark::Event::{Code, End, HardBreak, SoftBreak, Start, Text};
use pulldown_cmark::{Parser, Tag, TagEnd};
use vstd::prelude::*;

verus! {

/// `pulldown_cmark::Event`, as a value that is only handed on.
#[verifier::external_type_specification]
#[verifier::external_body]
pub struct ExEvent<'a>(pulldown_cmark::Event<'a>);

/// The parts of a Markdown document that plans and skills are read from.
pub enum MdEvent {
    /// A heading starts, of this level.
    HeadingStart(usize),
    HeadingEnd,
    ListStart,
    ListEnd,
    ItemStart,
    ItemEnd,
    StrongStart,
    StrongEnd,
    Text(String),
    Code(String),
    /// A line break inside a paragraph.
    Break,
    Other,
}

/// The events that `pulldown_cmark` finds in a text, each with the bytes of
/// the text that it covers.
pub uninterp spec fn markdown_spans(text: Seq<char>) -> Seq<(MdEvent, usize, usize)>;

/// `pulldown_cmark::Parser::new` and its offset iterator: the same text gives
/// the same events and ranges.
#[verifier::external_body]
pub(crate) fn read_markdown(text: &str) -> (r: Vec<(MdEvent, usize, usize)>)
    ensures
        r@ == markdown_spans(text@),
{
    Parser::new(text).into_offset_iter().map(|(e, at)| (event_of(e), at.start, at.end)).collect()
}

/// The kind of a `pulldown_cmark::Event`, with its text.
#[verifier::external_body]
fn event_of(e: pulldown_cmark::Event<'_>) -> MdEvent {
    match e {
        Start(Tag::Heading { level, .. }) => MdEvent::HeadingStart(level as usize),
        End(TagEnd::Heading(_)) => MdEvent::HeadingEnd,
        Start(Tag::List(_)) => MdEvent::ListStart,
        End(TagEnd::List(_)) => MdEvent::ListEnd,
        Start(Tag::Item) => MdEvent::ItemStart,
        End(TagEnd::Item) => MdEvent::ItemEnd,
        Start(Tag::Strong) => MdEvent::StrongStart,
        End(TagEnd::Strong) => MdEvent::StrongEnd,
        Text(t) => MdEvent::Text(t.into_string()),
        Code(t) => MdEvent::Code(t.into_string()),
        SoftBreak | HardBreak => MdEvent::Break,
        _ => MdEvent::Other,
    }
}

/// The events of a list of spans.
pub open spec fn events_of(v: Seq<(MdEvent, usize, usize)>) -> Seq<MdEvent> {
    v.map_values(|p: (MdEvent, usize, usize)| p.0)
}

/// The text of an event that has one.
pub open spec fn inline(e: MdEvent) -> Seq<char> {
    match e {
        MdEvent::Text(t) => t@,
        MdEvent::Code(t) => t@,
        _ => Seq::empty(),
    }
}

/// The texts of the events from `i` up to `j`, one after the other.
pub open spec fn inline_text(e: Seq<MdEvent>, i: int, j: int) -> Seq<char>
    decreases j - i,
{
    if j <= i {
        Seq::empty()
    } else {
        inline_text(e, i, j - 1) + inline(e[j - 1])
    }
}

/// The index of the first heading end at or after `i`, or the length.
pub open spec fn heading_end(e: Seq<MdEvent>, i: int) -> int
    decreases e.len() - i,
{
    if i < 0 || i >= e.len() {
        e.len() as int
    } else if e[i] is HeadingEnd {
        i
    } else {
        heading_end(e, i + 1)
    }
}

/// Reads a heading whose start comes just before `from`: its text, and the
/// index of its end.
pub fn read_heading(e: &Vec<(MdEvent, usize, usize)>, from: usize) -> (r: (String, usize))
    requires
        from <= e@.len(),
    ensures
        from <= r.1 <= e@.len(),
        r.1 == heading_end(events_of(e@), from as int),
        r.0@ == inline_text(events_of(e@), from as int, r.1 as int),
{
    let ghost ev = events_of(e@);
    let mut text = String::new();
    let mut j: usize = from;
    assert(text@ =~= Seq::<char>::empty());
    while j < e.len()
        invariant
            from <= j <= e@.len(),
            ev == events_of(e@),
            heading_end(ev, from as int) == heading_end(ev, j as int),
            text@ == inline_text(ev, from as int, j as int),
        decreases e.len() - j,
    {
        assert(ev[j as int] == e@[j as int].0);
        match &e[j].0 {
            MdEvent::HeadingEnd => {
                return (text, j);
            },
            MdEvent::Text(t) => {
                text.append(t.as_str());
            },
            MdEvent::Code(t) => {
                text.append(t.as_str());
            },
            _ => {
                assert(text@ + Seq::<char>::empty() =~= text@);
            },
        }
        j = j + 1;
    }
    (text, j)
}

/// The text of a heading is what is written in it, as text or as code, in order.
pub proof fn law_inline_text(e: Seq<MdEvent>, i: int, j: int)
    requires
        0 <= i <= j < e.len(),
    ensures
        inline_text(e, i, i) == Seq::<char>::empty(),
        e[j] matches MdEvent::Text(t) ==> inline_text(e, i, j + 1) == inline_text(e, i, j) + t@,
        e[j] matches MdEvent::Code(t) ==> inline_text(e, i, j + 1) == inline_text(e, i, j) + t@,
        !(e[j] is Text) && !(e[j] is Code) ==> inline_text(e, i, j + 1) == inline_text(e, i, j),
{
}

/// A heading ends at the first end of a heading behind its start.
pub proof fn law_heading_end(e: Seq<MdEvent>, i: int, k: int)
    requires
        0 <= i <= k <= e.len(),
        forall|j: int| i <= j < k ==> !((#[trigger] e[j]) is HeadingEnd),
        k < e.len() ==> e[k] is HeadingEnd,
    ensures
        heading_end(e, i) == k,
    decreases k - i,
{
    if i < k {
        assert(!(e[i] is HeadingEnd));
        law_heading_end(e, i + 1, k);
    }
}

} // verus!
