//! A lossless parser from the bytes of a configuration file to its events.
use crate::bytes::{
    copy_range, BACKSLASH, CARRIAGE_RETURN, CLOSE_BRACKET, DASH, DOT, EQUALS, HASH, NEWLINE,
    OPEN_BRACKET, QUOTE, SEMICOLON, SPACE, TAB,
};
use crate::config::event::{
    events_text, events_view, is_trivia, lemma_events_text_push, Event, EventV, ParsedComment,
    ParsedSectionHeader, header_text, event_text,
};
use vstd::prelude::*;

verus! {

/// Why a file could not be parsed; each variant holds the byte position.
#[derive(PartialEq, Eq, Clone, Copy, Debug)]
pub enum ParseError {
    /// No token can start with the byte at this position.
    UnexpectedByte(usize),
    /// The section header that opens at this position is not closed properly.
    MalformedSectionHeader(usize),
    /// A key at this position stands before the first section header.
    KeyOutsideSection(usize),
}

/// The classes of bytes that the tokens of a file are made of.
#[derive(PartialEq, Eq, Clone, Copy)]
pub enum ByteClass {
    Blank,
    LineBreak,
    KeyByte,
    SectionNameByte,
    NotNewline,
}

pub open spec fn is_alpha(c: u8) -> bool {
    (65 <= c <= 90) || (97 <= c <= 122)
}

pub open spec fn is_digit(c: u8) -> bool {
    48 <= c <= 57
}

pub open spec fn in_class(c: u8, class: ByteClass) -> bool {
    match class {
        ByteClass::Blank => c == SPACE || c == TAB,
        ByteClass::LineBreak => c == NEWLINE || c == CARRIAGE_RETURN,
        ByteClass::KeyByte => is_alpha(c) || is_digit(c) || c == DASH,
        ByteClass::SectionNameByte => is_alpha(c) || is_digit(c) || c == DASH || c == DOT,
        ByteClass::NotNewline => c != NEWLINE,
    }
}

/// Whether some token of a file may start with `c`.
pub open spec fn starts_token(c: u8) -> bool {
    in_class(c, ByteClass::Blank) || in_class(c, ByteClass::LineBreak) || c == SEMICOLON
        || c == HASH || c == OPEN_BRACKET || is_alpha(c)
}

/// A stream that a configuration can be built from: every event other than a
/// comment, newline or whitespace comes at or after some section header.
pub open spec fn sections_precede_content(s: Seq<EventV>) -> bool {
    forall|k: int|
        0 <= k < s.len() && !is_trivia(#[trigger] s[k]) ==> exists|j: int|
            0 <= j <= k && s[j] is SectionHeader
}

fn is_in_class(c: u8, class: ByteClass) -> (r: bool)
    ensures
        r == in_class(c, class),
{
    match class {
        ByteClass::Blank => c == SPACE || c == TAB,
        ByteClass::LineBreak => c == NEWLINE || c == CARRIAGE_RETURN,
        ByteClass::KeyByte => (65 <= c && c <= 90) || (97 <= c && c <= 122) || (48 <= c && c
            <= 57) || c == DASH,
        ByteClass::SectionNameByte => (65 <= c && c <= 90) || (97 <= c && c <= 122) || (48 <= c
            && c <= 57) || c == DASH || c == DOT,
        ByteClass::NotNewline => c != NEWLINE,
    }
}

/// The end of the longest run of bytes of `class` that starts at `i`.
fn scan(b: &[u8], i: usize, class: ByteClass) -> (j: usize)
    requires
        i <= b@.len(),
    ensures
        i <= j <= b@.len(),
        forall|k: int| i <= k < j ==> in_class(#[trigger] b@[k], class),
        j == b@.len() || !in_class(b@[j as int], class),
{
    let mut j: usize = i;
    while j < b.len() && is_in_class(b[j], class)
        invariant
            i <= j <= b@.len(),
            forall|k: int| i <= k < j ==> in_class(#[trigger] b@[k], class),
        decreases b@.len() - j,
    {
        j = j + 1;
    }
    j
}

/// The first position in `[start, end)` that holds `byte`, or `end`.
fn find_byte(b: &[u8], start: usize, end: usize, byte: u8) -> (r: usize)
    requires
        start <= end <= b@.len(),
    ensures
        start <= r <= end,
        forall|k: int| start <= k < r ==> b@[k] != byte,
        r < end ==> b@[r as int] == byte,
{
    let mut r: usize = start;
    while r < end && b[r] != byte
        invariant
            start <= r <= end <= b@.len(),
            forall|k: int| start <= k < r ==> b@[k] != byte,
        decreases end - r,
    {
        r = r + 1;
    }
    r
}

/// Parses the section header that opens at `i`, returning it with the
/// position after its closing bracket.
pub fn parse_section_header(b: &[u8], i: usize) -> (r: Option<(ParsedSectionHeader, usize)>)
    requires
        i < b@.len(),
        b@[i as int] == OPEN_BRACKET,
    ensures
        r matches Some((h, j)) ==> i < j <= b@.len() && header_text(h@) == b@.subrange(
            i as int,
            j as int,
        ),
{
    let n = b.len();
    let k = i + 1;
    let e = scan(b, k, ByteClass::SectionNameByte);
    if e == k || e >= b.len() {
        return None;
    }
    if b[e] == CLOSE_BRACKET {
        let d = find_byte(b, k, e, DOT);
        if d < e {
            let h = ParsedSectionHeader {
                name: copy_range(b, k, d),
                separator: Some(vec![DOT]),
                subsection_name: Some(copy_range(b, d + 1, e)),
            };
            proof {
                assert(h.separator->Some_0@ =~= seq![DOT]);
                assert(header_text(h@) =~= b@.subrange(i as int, e as int + 1));
            }
            Some((h, e + 1))
        } else {
            let h = ParsedSectionHeader { name: copy_range(b, k, e), separator: None, subsection_name: None };
            proof {
                assert(header_text(h@) =~= b@.subrange(i as int, e as int + 1));
            }
            Some((h, e + 1))
        }
    } else if is_in_class(b[e], ByteClass::Blank) {
        let w = scan(b, e, ByteClass::Blank);
        if w >= b.len() || b[w] != QUOTE {
            return None;
        }
        let mut q: usize = w + 1;
        while q < b.len() && b[q] != QUOTE && b[q] != NEWLINE
            invariant
                w + 1 <= q <= b@.len(),
            decreases b@.len() - q,
        {
            if b[q] == BACKSLASH && q + 1 < b.len() && b[q + 1] != NEWLINE {
                q = q + 2;
            } else {
                q = q + 1;
            }
        }
        if q >= b.len() || b[q] != QUOTE || q + 1 >= b.len() || b[q + 1] != CLOSE_BRACKET {
            return None;
        }
        let h = ParsedSectionHeader {
            name: copy_range(b, k, e),
            separator: Some(copy_range(b, e, w)),
            subsection_name: Some(copy_range(b, w + 1, q)),
        };
        proof {
            let sep = b@.subrange(e as int, w as int);
            assert(sep.len() > 0 && sep[0] != DOT);
            assert(sep != seq![DOT]);
            assert(header_text(h@) =~= b@.subrange(i as int, q as int + 2));
        }
        Some((h, q + 2))
    } else {
        None
    }
}

/// Whether the events added after `old_len` keep the first `old_len` events.
pub open spec fn extends(new: Seq<Event>, old: Seq<Event>) -> bool {
    old.len() <= new.len() && new.subrange(0, old.len() as int) == old
}

/// Whether none of the events after the first `old.len()` is a section header.
pub open spec fn adds_no_header(new: Seq<Event>, old: Seq<Event>) -> bool {
    forall|k: int| old.len() <= k < new.len() ==> !(#[trigger] new[k]@ is SectionHeader)
}

/// Parses a value that starts at `i`, with its continuation lines, and
/// returns the position after it; trailing blanks are left to the caller.
pub fn parse_value(b: &[u8], i: usize, events: &mut Vec<Event>) -> (j: usize)
    requires
        i <= b@.len(),
    ensures
        i <= j <= b@.len(),
        extends(final(events)@, old(events)@),
        events_text(events_view(final(events)@)) == events_text(events_view(old(events)@))
            + b@.subrange(i as int, j as int),
        adds_no_header(final(events)@, old(events)@),
{
    let mut s: usize = i;
    let mut k: usize = i;
    let mut in_quote = false;
    let mut continued = false;
    assert(events@.subrange(0, events@.len() as int) =~= events@);
    while k < b.len() && b[k] != NEWLINE && (in_quote || (b[k] != SEMICOLON && b[k] != HASH))
        invariant
            i <= s <= k <= b@.len(),
            extends(events@, old(events)@),
            adds_no_header(events@, old(events)@),
            events_text(events_view(events@)) == events_text(events_view(old(events)@))
                + b@.subrange(i as int, s as int),
        decreases b@.len() - k,
    {
        if b[k] == QUOTE {
            in_quote = !in_quote;
            k = k + 1;
        } else if b[k] == BACKSLASH && k + 1 < b.len() {
            if b[k + 1] == NEWLINE {
                let ghost before = events@;
                let part = Event::ValueNotDone(copy_range(b, s, k));
                let nl = Event::Newline(copy_range(b, k + 1, k + 2));
                events.push(part);
                events.push(nl);
                proof {
                    lemma_events_text_push(events_view(before), part@);
                    assert(events_view(before.push(part)) =~= events_view(before).push(part@));
                    lemma_events_text_push(events_view(before.push(part)), nl@);
                    assert(events_view(events@) =~= events_view(before.push(part)).push(nl@));
                    assert(b@.subrange(i as int, k as int + 2) =~= b@.subrange(i as int, s as int)
                        + event_text(part@) + event_text(nl@));
                    assert(events@.subrange(0, old(events)@.len() as int) =~= before.subrange(
                        0,
                        old(events)@.len() as int,
                    ));
                }
                continued = true;
                s = k + 2;
                k = k + 2;
            } else {
                k = k + 2;
            }
        } else {
            k = k + 1;
        }
    }
    let mut t: usize = k;
    while t > s && (b[t - 1] == SPACE || b[t - 1] == TAB)
        invariant
            s <= t <= k <= b@.len(),
        decreases t,
    {
        t = t - 1;
    }
    let ghost before = events@;
    let last = if continued {
        Event::ValueDone(copy_range(b, s, t))
    } else {
        Event::Value(copy_range(b, s, t))
    };
    events.push(last);
    proof {
        lemma_events_text_push(events_view(before), last@);
        assert(events_view(events@) =~= events_view(before).push(last@));
        assert(b@.subrange(i as int, t as int) =~= b@.subrange(i as int, s as int) + event_text(
            last@,
        ));
        assert(events@.subrange(0, old(events)@.len() as int) =~= before.subrange(
            0,
            old(events)@.len() as int,
        ));
    }
    t
}

/// Pushes `e` and states what that does to the text and the prefix.
fn push_event(events: &mut Vec<Event>, e: Event)
    ensures
        final(events)@ == old(events)@.push(e),
        extends(final(events)@, old(events)@),
        events_view(final(events)@) == events_view(old(events)@).push(e@),
        events_text(events_view(final(events)@)) == events_text(events_view(old(events)@))
            + event_text(e@),
{
    let ghost before = events@;
    let ghost ev = e@;
    events.push(e);
    proof {
        assert(events_view(events@) =~= events_view(before).push(ev));
        lemma_events_text_push(events_view(before), ev);
        assert(events@.subrange(0, before.len() as int) =~= before);
    }
}

/// Chains two extensions of an event vector.
pub proof fn lemma_extends_chain(a: Seq<Event>, b: Seq<Event>, c: Seq<Event>)
    requires
        extends(b, a),
        extends(c, b),
        adds_no_header(b, a),
        adds_no_header(c, b),
    ensures
        extends(c, a),
        adds_no_header(c, a),
{
    assert(c.subrange(0, a.len() as int) =~= b.subrange(0, a.len() as int));
    assert forall|k: int| a.len() <= k < c.len() implies !(#[trigger] c[k]@ is SectionHeader) by {
        if k < b.len() {
            assert(c[k] == c.subrange(0, b.len() as int)[k]);
        }
    }
}

/// Pushes an event that is not a section header.
fn push_content(events: &mut Vec<Event>, e: Event)
    requires
        !(e@ is SectionHeader),
    ensures
        final(events)@ == old(events)@.push(e),
        extends(final(events)@, old(events)@),
        adds_no_header(final(events)@, old(events)@),
        events_text(events_view(final(events)@)) == events_text(events_view(old(events)@))
            + event_text(e@),
{
    push_event(events, e);
}

/// Parses a key that starts at `i` with what follows it on its line up to its
/// value's end: blanks, the separator and the value, or an empty value where
/// the key stands alone.
#[verifier::rlimit(50)]
pub fn parse_key_value(b: &[u8], i: usize, events: &mut Vec<Event>) -> (j: usize)
    requires
        i < b@.len(),
        is_alpha(b@[i as int]),
    ensures
        i < j <= b@.len(),
        extends(final(events)@, old(events)@),
        events_text(events_view(final(events)@)) == events_text(events_view(old(events)@))
            + b@.subrange(i as int, j as int),
        adds_no_header(final(events)@, old(events)@),
{
    let ghost start = events@;
    let n = b.len();
    let k = scan(b, i + 1, ByteClass::KeyByte);
    push_content(events, Event::Key(copy_range(b, i, k)));
    let w = scan(b, k, ByteClass::Blank);
    if w > k {
        let ghost prev = events@;
        push_content(events, Event::Whitespace(copy_range(b, k, w)));
        proof { lemma_extends_chain(start, prev, events@); }
    }
    assert(events_text(events_view(events@)) =~= events_text(events_view(start)) + b@.subrange(
        i as int,
        w as int,
    ));
    if w < b.len() && b[w] == EQUALS {
        let ghost prev = events@;
        push_content(events, Event::KeyValueSeparator);
        proof { lemma_extends_chain(start, prev, events@); }
        let v = scan(b, w + 1, ByteClass::Blank);
        if v > w + 1 {
            let ghost prev = events@;
            push_content(events, Event::Whitespace(copy_range(b, w + 1, v)));
            proof { lemma_extends_chain(start, prev, events@); }
        }
        assert(events_text(events_view(events@)) =~= events_text(events_view(start))
            + b@.subrange(i as int, v as int));
        let ghost prev = events@;
        let j = parse_value(b, v, events);
        proof { lemma_extends_chain(start, prev, events@); }
        assert(events_text(events_view(events@)) =~= events_text(events_view(start))
            + b@.subrange(i as int, j as int));
        j
    } else {
        let ghost prev = events@;
        push_content(events, Event::Value(Vec::new()));
        proof { lemma_extends_chain(start, prev, events@); }
        assert(events_text(events_view(events@)) =~= events_text(events_view(start))
            + b@.subrange(i as int, w as int));
        w
    }
}

/// What an error of the parser says of the input.
pub open spec fn parse_error_holds(input: Seq<u8>, e: ParseError) -> bool {
    match e {
        ParseError::UnexpectedByte(p) => p < input.len() && !starts_token(input[p as int]),
        ParseError::MalformedSectionHeader(p) => p < input.len() && input[p as int] == OPEN_BRACKET,
        ParseError::KeyOutsideSection(p) => p < input.len() && is_alpha(input[p as int]),
    }
}

/// Parses the bytes of a configuration file into its events.
///
/// Nothing is lost: the events, written out one after the other, give back
/// the input. Content (keys, values) stands only after a section header.
#[verifier::rlimit(50)]
pub fn parse_from_bytes(input: &[u8]) -> (r: Result<Vec<Event>, ParseError>)
    ensures
        r matches Ok(events) ==> events_text(events_view(events@)) == input@
            && sections_precede_content(events_view(events@)),
        r matches Err(e) ==> parse_error_holds(input@, e),
{
    let n = input.len();
    let mut events: Vec<Event> = Vec::new();
    let mut i: usize = 0;
    let mut in_section = false;
    let ghost mut first_header: int = 0;
    while i < n
        invariant
            n == input@.len(),
            i <= n,
            events_text(events_view(events@)) == input@.subrange(0, i as int),
            !in_section ==> forall|k: int| 0 <= k < events@.len() ==> is_trivia(#[trigger] events@[k]@),
            in_section ==> 0 <= first_header < events@.len() && events@[first_header]@ is SectionHeader,
            in_section ==> forall|k: int| 0 <= k < first_header ==> is_trivia(#[trigger] events@[k]@),
        decreases n - i,
    {
        let c = input[i];
        let ghost prev = events@;
        let ghost was_in_section = in_section;
        let j: usize;
        if is_in_class(c, ByteClass::Blank) {
            j = scan(input, i, ByteClass::Blank);
            push_event(&mut events, Event::Whitespace(copy_range(input, i, j)));
        } else if is_in_class(c, ByteClass::LineBreak) {
            j = scan(input, i, ByteClass::LineBreak);
            push_event(&mut events, Event::Newline(copy_range(input, i, j)));
        } else if c == SEMICOLON || c == HASH {
            j = scan(input, i + 1, ByteClass::NotNewline);
            let comment = ParsedComment { comment_tag: c, comment: copy_range(input, i + 1, j) };
            push_event(&mut events, Event::Comment(comment));
        } else if c == OPEN_BRACKET {
            match parse_section_header(input, i) {
                Some((header, end)) => {
                    j = end;
                    push_event(&mut events, Event::SectionHeader(header));
                    if !in_section {
                        proof { first_header = prev.len() as int; }
                        in_section = true;
                    }
                },
                None => {
                    return Err(ParseError::MalformedSectionHeader(i));
                },
            }
        } else if (65 <= c && c <= 90) || (97 <= c && c <= 122) {
            if !in_section {
                return Err(ParseError::KeyOutsideSection(i));
            }
            j = parse_key_value(input, i, &mut events);
        } else {
            return Err(ParseError::UnexpectedByte(i));
        }
        proof {
            assert(events_text(events_view(events@)) =~= input@.subrange(0, j as int));
            if was_in_section {
                assert(events@[first_header] == prev[first_header]) by {
                    assert(events@.subrange(0, prev.len() as int)[first_header] == events@[first_header]);
                };
                assert forall|k: int| 0 <= k < first_header implies is_trivia(#[trigger] events@[k]@) by {
                    assert(events@.subrange(0, prev.len() as int)[k] == events@[k]);
                };
            }
        }
        i = j;
    }
    proof {
        let ev = events_view(events@);
        assert(input@.subrange(0, n as int) =~= input@);
        assert forall|k: int| 0 <= k < ev.len() && !is_trivia(#[trigger] ev[k]) implies exists|h: int|
            0 <= h <= k && ev[h] is SectionHeader by {
            assert(in_section);
            assert(ev[first_header] is SectionHeader);
            if k < first_header {
                assert(is_trivia(events@[k]@));
            }
        }
    }
    Ok(events)
}

} // verus!
