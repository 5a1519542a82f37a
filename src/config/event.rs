//! The lossless event stream that a configuration file is made of.
use crate::bytes::{BACKSLASH, CLOSE_BRACKET, DOT, EQUALS, OPEN_BRACKET, QUOTE};
use vstd::prelude::*;

verus! {

/// A comment: its tag byte (`;` or `#`) and the rest of the line.
#[derive(Debug, PartialEq, Eq)]
pub struct ParsedComment {
    pub comment_tag: u8,
    pub comment: Vec<u8>,
}

/// A section header such as `[core]`, `[remote "origin"]` or `[core.sub]`.
///
/// `separator` is `.` for the dotted form and the whitespace before the
/// opening quote for the quoted form; `subsection_name` holds the text between
/// the quotes as written.
#[derive(Debug, PartialEq, Eq)]
pub struct ParsedSectionHeader {
    pub name: Vec<u8>,
    pub separator: Option<Vec<u8>>,
    pub subsection_name: Option<Vec<u8>>,
}

/// One syntactic element of a configuration file.
#[derive(Debug, PartialEq, Eq)]
pub enum Event {
    Comment(ParsedComment),
    SectionHeader(ParsedSectionHeader),
    Key(Vec<u8>),
    /// A complete value on one line.
    Value(Vec<u8>),
    Newline(Vec<u8>),
    /// A value part that is continued on the next line; the backslash that
    /// continues it is not held.
    ValueNotDone(Vec<u8>),
    /// The last part of a continued value.
    ValueDone(Vec<u8>),
    Whitespace(Vec<u8>),
    KeyValueSeparator,
}

/// The mathematical form of a section header.
pub struct HeaderV {
    pub name: Seq<u8>,
    pub separator: Option<Seq<u8>>,
    pub subsection_name: Option<Seq<u8>>,
}

/// The mathematical form of an event.
pub enum EventV {
    Comment(u8, Seq<u8>),
    SectionHeader(HeaderV),
    Key(Seq<u8>),
    Value(Seq<u8>),
    Newline(Seq<u8>),
    ValueNotDone(Seq<u8>),
    ValueDone(Seq<u8>),
    Whitespace(Seq<u8>),
    KeyValueSeparator,
}

pub open spec fn opt_view(o: Option<Vec<u8>>) -> Option<Seq<u8>> {
    match o {
        Some(v) => Some(v@),
        None => None,
    }
}

impl View for ParsedSectionHeader {
    type V = HeaderV;

    open spec fn view(&self) -> HeaderV {
        HeaderV {
            name: self.name@,
            separator: opt_view(self.separator),
            subsection_name: opt_view(self.subsection_name),
        }
    }
}

impl View for Event {
    type V = EventV;

    open spec fn view(&self) -> EventV {
        match self {
            Event::Comment(c) => EventV::Comment(c.comment_tag, c.comment@),
            Event::SectionHeader(h) => EventV::SectionHeader(h@),
            Event::Key(k) => EventV::Key(k@),
            Event::Value(v) => EventV::Value(v@),
            Event::Newline(v) => EventV::Newline(v@),
            Event::ValueNotDone(v) => EventV::ValueNotDone(v@),
            Event::ValueDone(v) => EventV::ValueDone(v@),
            Event::Whitespace(v) => EventV::Whitespace(v@),
            Event::KeyValueSeparator => EventV::KeyValueSeparator,
        }
    }
}

/// The views of a sequence of events.
pub open spec fn events_view(s: Seq<Event>) -> Seq<EventV> {
    s.map_values(|e: Event| e@)
}

/// The text of a section header as it stands in a file.
pub open spec fn header_text(h: HeaderV) -> Seq<u8> {
    let sub = match h.separator {
        Some(sep) => {
            let name = match h.subsection_name {
                Some(n) => n,
                None => Seq::empty(),
            };
            if sep == seq![DOT] {
                sep + name
            } else {
                sep + seq![QUOTE] + name + seq![QUOTE]
            }
        },
        None => Seq::empty(),
    };
    seq![OPEN_BRACKET] + h.name + sub + seq![CLOSE_BRACKET]
}

/// The text that an event stands for.
pub open spec fn event_text(e: EventV) -> Seq<u8> {
    match e {
        EventV::Comment(tag, c) => seq![tag] + c,
        EventV::SectionHeader(h) => header_text(h),
        EventV::Key(k) => k,
        EventV::Value(v) => v,
        EventV::Newline(v) => v,
        EventV::ValueNotDone(v) => v + seq![BACKSLASH],
        EventV::ValueDone(v) => v,
        EventV::Whitespace(v) => v,
        EventV::KeyValueSeparator => seq![EQUALS],
    }
}

/// The text of a sequence of events, one after the other.
pub open spec fn events_text(s: Seq<EventV>) -> Seq<u8>
    decreases s.len(),
{
    if s.len() == 0 {
        Seq::empty()
    } else {
        events_text(s.drop_last()) + event_text(s.last())
    }
}

/// Comments, newlines and whitespace: events that may stand outside a section.
pub open spec fn is_trivia(e: EventV) -> bool {
    e is Comment || e is Newline || e is Whitespace
}

pub proof fn lemma_events_text_push(s: Seq<EventV>, e: EventV)
    ensures
        events_text(s.push(e)) == events_text(s) + event_text(e),
{
    assert(s.push(e).drop_last() =~= s);
}

pub proof fn lemma_events_text_append(s: Seq<EventV>, t: Seq<EventV>)
    ensures
        events_text(s + t) == events_text(s) + events_text(t),
    decreases t.len(),
{
    if t.len() == 0 {
        assert(s + t =~= s);
        assert(events_text(s) + events_text(t) =~= events_text(s));
    } else {
        lemma_events_text_append(s, t.drop_last());
        assert((s + t).drop_last() =~= s + t.drop_last());
        assert(events_text(s) + events_text(t) =~= events_text(s) + events_text(t.drop_last())
            + event_text(t.last()));
    }
}

impl ParsedSectionHeader {
    /// Appends the header's text to `out`.
    pub fn write_to(&self, out: &mut Vec<u8>)
        ensures
            final(out)@ == old(out)@ + header_text(self@),
    {
        let ghost start = out@;
        out.push(OPEN_BRACKET);
        crate::bytes::extend_bytes(out, self.name.as_slice());
        match &self.separator {
            Some(sep) => {
                crate::bytes::extend_bytes(out, sep.as_slice());
                let dotted = sep.len() == 1 && sep[0] == DOT;
                if !dotted {
                    out.push(QUOTE);
                }
                match &self.subsection_name {
                    Some(n) => crate::bytes::extend_bytes(out, n.as_slice()),
                    None => {},
                }
                if !dotted {
                    out.push(QUOTE);
                }
                assert(dotted == (sep@ == seq![DOT])) by {
                    if sep@.len() == 1 && sep@[0] == DOT {
                        assert(sep@ =~= seq![DOT]);
                    }
                }
            },
            None => {},
        }
        out.push(CLOSE_BRACKET);
        assert(out@ =~= start + header_text(self@));
    }
}

impl Event {
    /// Appends the event's text to `out`.
    pub fn write_to(&self, out: &mut Vec<u8>)
        ensures
            final(out)@ == old(out)@ + event_text(self@),
    {
        let ghost start = out@;
        match self {
            Event::Comment(c) => {
                out.push(c.comment_tag);
                crate::bytes::extend_bytes(out, c.comment.as_slice());
            },
            Event::SectionHeader(h) => h.write_to(out),
            Event::Key(v) => crate::bytes::extend_bytes(out, v.as_slice()),
            Event::Value(v) => crate::bytes::extend_bytes(out, v.as_slice()),
            Event::Newline(v) => crate::bytes::extend_bytes(out, v.as_slice()),
            Event::ValueNotDone(v) => {
                crate::bytes::extend_bytes(out, v.as_slice());
                out.push(BACKSLASH);
            },
            Event::ValueDone(v) => crate::bytes::extend_bytes(out, v.as_slice()),
            Event::Whitespace(v) => crate::bytes::extend_bytes(out, v.as_slice()),
            Event::KeyValueSeparator => out.push(EQUALS),
        }
        assert(out@ =~= start + event_text(self@));
    }
}

/// Appends the text of all `events` to `out`.
pub fn write_events(events: &Vec<Event>, out: &mut Vec<u8>)
    ensures
        final(out)@ == old(out)@ + events_text(events_view(events@)),
{
    let mut i: usize = 0;
    while i < events.len()
        invariant
            i <= events@.len(),
            out@ == old(out)@ + events_text(events_view(events@.subrange(0, i as int))),
        decreases events@.len() - i,
    {
        events[i].write_to(out);
        proof {
            let pre = events_view(events@.subrange(0, i as int));
            assert(events_view(events@.subrange(0, i as int + 1)) =~= pre.push(events@[i as int]@));
            lemma_events_text_push(pre, events@[i as int]@);
        }
        i = i + 1;
    }
    assert(events@.subrange(0, i as int) =~= events@);
}

} // verus!
