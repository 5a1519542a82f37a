//! A configuration file held as sections of events, with lookups and
//! updates by section, subsection and key.
use crate::config::event::{
    event_text, events_text, events_view, header_text, is_trivia, lemma_events_text_append,
    opt_view, write_events, Event, EventV, HeaderV, ParsedComment,
    ParsedSectionHeader,
};
use crate::config::parse::{
    parse_error_holds, parse_from_bytes, sections_precede_content, ParseError,
};
use crate::config::values::{
    find_value_ranges, range_value, ranges_view, section_values, value_in_range, value_ranges,
};
use vstd::prelude::*;
use vstd::string::StringSliceAdditionalSpecFns;

verus! {

/// Why a lookup in a configuration found nothing.
#[derive(PartialEq, Eq, Clone, Copy, Debug)]
pub enum GitConfigError<'a> {
    /// The requested section does not exist.
    SectionDoesNotExist(&'a str),
    /// The requested subsection does not exist.
    SubSectionDoesNotExist(Option<&'a str>),
    /// The key does not exist in the requested section.
    KeyDoesNotExist(&'a str),
    FailedConversion,
}

/// One section: its header and the events that follow it up to the next one.
pub struct Section {
    pub header: ParsedSectionHeader,
    pub events: Vec<Event>,
}

pub struct SectionV {
    pub header: HeaderV,
    pub events: Seq<EventV>,
}

impl View for Section {
    type V = SectionV;

    open spec fn view(&self) -> SectionV {
        SectionV { header: self.header@, events: events_view(self.events@) }
    }
}

/// The mathematical form of a configuration: what comes before the first
/// section, then the sections in the order of the file.
pub struct GitConfigV {
    pub front_matter: Seq<EventV>,
    pub sections: Seq<SectionV>,
}

/// High level reader and writer of a configuration file.
///
/// Sections with the same name may occur several times; a key may occur
/// several times too (a multivar). Single-value lookups follow "last one
/// wins"; the `multi` lookups see every value in file order.
pub struct GitConfig {
    front_matter_events: Vec<Event>,
    sections: Vec<Section>,
}

/// The events of a section as they stand in the file: its header, then its
/// body.
pub open spec fn section_stream(s: SectionV) -> Seq<EventV> {
    seq![EventV::SectionHeader(s.header)] + s.events
}

/// The events of a sequence of sections, one after the other.
pub open spec fn sections_stream(secs: Seq<SectionV>) -> Seq<EventV>
    decreases secs.len(),
{
    if secs.len() == 0 {
        Seq::empty()
    } else {
        sections_stream(secs.drop_last()) + section_stream(secs.last())
    }
}

/// Whether no event of `s` is a section header.
pub open spec fn no_headers(s: Seq<EventV>) -> bool {
    forall|k: int| 0 <= k < s.len() ==> !(#[trigger] s[k] is SectionHeader)
}

impl GitConfigV {
    /// All events of the configuration, in file order.
    pub open spec fn stream(self) -> Seq<EventV> {
        self.front_matter + sections_stream(self.sections)
    }

    /// Front matter holds only comments, newlines and whitespace, and no
    /// section body holds a header.
    pub open spec fn well_formed(self) -> bool {
        &&& forall|k: int|
            0 <= k < self.front_matter.len() ==> is_trivia(#[trigger] self.front_matter[k])
        &&& forall|i: int| 0 <= i < self.sections.len() ==> no_headers(#[trigger] self.sections[i].events)
    }
}

impl View for GitConfig {
    type V = GitConfigV;

    closed spec fn view(&self) -> GitConfigV {
        GitConfigV {
            front_matter: events_view(self.front_matter_events@),
            sections: self.sections@.map_values(|s: Section| s@),
        }
    }
}

pub proof fn lemma_sections_stream_push(secs: Seq<SectionV>, s: SectionV)
    ensures
        sections_stream(secs.push(s)) == sections_stream(secs) + section_stream(s),
{
    assert(secs.push(s).drop_last() =~= secs);
}

impl Event {
    /// A copy of the event.
    pub fn duplicate(&self) -> (r: Event)
        ensures
            r@ == self@,
    {
        match self {
            Event::Comment(c) => Event::Comment(
                ParsedComment { comment_tag: c.comment_tag, comment: copy_vec(&c.comment) },
            ),
            Event::SectionHeader(h) => Event::SectionHeader(h.duplicate()),
            Event::Key(v) => Event::Key(copy_vec(v)),
            Event::Value(v) => Event::Value(copy_vec(v)),
            Event::Newline(v) => Event::Newline(copy_vec(v)),
            Event::ValueNotDone(v) => Event::ValueNotDone(copy_vec(v)),
            Event::ValueDone(v) => Event::ValueDone(copy_vec(v)),
            Event::Whitespace(v) => Event::Whitespace(copy_vec(v)),
            Event::KeyValueSeparator => Event::KeyValueSeparator,
        }
    }
}

impl ParsedSectionHeader {
    /// A copy of the header.
    pub fn duplicate(&self) -> (r: ParsedSectionHeader)
        ensures
            r@ == self@,
    {
        ParsedSectionHeader {
            name: copy_vec(&self.name),
            separator: copy_opt(&self.separator),
            subsection_name: copy_opt(&self.subsection_name),
        }
    }
}

/// A copy of a byte vector.
pub fn copy_vec(v: &Vec<u8>) -> (r: Vec<u8>)
    ensures
        r@ == v@,
{
    let r = crate::bytes::copy_range(v.as_slice(), 0, v.len());
    assert(v@.subrange(0, v@.len() as int) =~= v@);
    r
}

fn copy_opt(v: &Option<Vec<u8>>) -> (r: Option<Vec<u8>>)
    ensures
        opt_view(r) == opt_view(*v),
{
    match v {
        Some(b) => Some(copy_vec(b)),
        None => None,
    }
}

impl GitConfig {
    /// Moves a section under construction, if any, to the end of the section
    /// list.
    fn push_section(&mut self, maybe_section: &mut Option<Section>)
        ensures
            *final(maybe_section) is None,
            final(self)@.front_matter == old(self)@.front_matter,
            final(self)@.sections == match *old(maybe_section) {
                Some(s) => old(self)@.sections.push(s@),
                None => old(self)@.sections,
            },
    {
        if let Some(section) = maybe_section.take() {
            let ghost sv = section@;
            let ghost before = self.sections@;
            self.sections.push(section);
            assert(self.sections@.map_values(|s: Section| s@) =~= before.map_values(
                |s: Section| s@,
            ).push(sv));
        }
    }

    /// Builds a configuration from its event stream.
    pub fn from_events(events: Vec<Event>) -> (r: GitConfig)
        requires
            sections_precede_content(events_view(events@)),
        ensures
            r@.stream() == events_view(events@),
            r@.well_formed(),
    {
        let mut config = GitConfig { front_matter_events: Vec::new(), sections: Vec::new() };
        let mut current: Option<Section> = None;
        let n = events.len();
        let mut idx: usize = 0;
        assert(config@.sections =~= Seq::<SectionV>::empty());
        assert(config@.front_matter =~= Seq::<EventV>::empty());
        while idx < n
            invariant
                n == events@.len(),
                idx <= n,
                sections_precede_content(events_view(events@)),
                config@.well_formed(),
                current matches Some(s) ==> no_headers(s@.events),
                current is None ==> config@.sections.len() == 0,
                current is None ==> forall|k: int|
                    0 <= k < idx ==> !(#[trigger] events@[k]@ is SectionHeader),
                config@.stream() + match current {
                    Some(s) => section_stream(s@),
                    None => Seq::empty(),
                } == events_view(events@.subrange(0, idx as int)),
            decreases n - idx,
        {
            let ghost prefix = events_view(events@.subrange(0, idx as int));
            let ghost e = events@[idx as int]@;
            assert(events_view(events@.subrange(0, idx as int + 1)) =~= prefix.push(e));
            match &events[idx] {
                Event::SectionHeader(h) => {
                    let ghost old_current = current;
                    let ghost old_config = config@;
                    config.push_section(&mut current);
                    proof {
                        match old_current {
                            Some(s) => {
                                lemma_sections_stream_push(old_config.sections, s@);
                                assert(config@.stream() =~= old_config.stream() + section_stream(s@));
                            },
                            None => {
                                assert(config@.stream() =~= old_config.stream());
                            },
                        }
                    }
                    current = Some(Section { header: h.duplicate(), events: Vec::new() });
                    proof {
                        let s = current->Some_0;
                        assert(s@.events =~= Seq::<EventV>::empty());
                        assert(section_stream(s@) =~= seq![e]);
                        assert(config@.stream() + section_stream(s@) =~= prefix.push(e));
                    }
                },
                other => {
                    let dup = other.duplicate();
                    match &mut current {
                        Some(section) => {
                            let ghost before = section@;
                            section.events.push(dup);
                            proof {
                                assert(events_view(section.events@) =~= before.events.push(e));
                                assert(section_stream(section@) =~= section_stream(before).push(e));
                            }
                        },
                        None => {
                            proof {
                                if !is_trivia(e) {
                                    let ev = events_view(events@);
                                    assert(ev[idx as int] == e);
                                    let j = choose|j: int| 0 <= j <= idx && ev[j] is SectionHeader;
                                    assert(events@[j]@ is SectionHeader);
                                }
                            }
                            let ghost before = config@;
                            config.front_matter_events.push(dup);
                            proof {
                                assert(config@.front_matter =~= before.front_matter.push(e));
                                assert(config@.sections == before.sections);
                            }
                        },
                    }
                    assert(config@.stream() + match current {
                        Some(s) => section_stream(s@),
                        None => Seq::empty(),
                    } =~= prefix.push(e));
                },
            }
            idx = idx + 1;
        }
        let ghost old_current = current;
        let ghost old_config = config@;
        config.push_section(&mut current);
        proof {
            assert(events@.subrange(0, n as int) =~= events@);
            match old_current {
                Some(s) => {
                    lemma_sections_stream_push(old_config.sections, s@);
                    assert(config@.stream() =~= old_config.stream() + section_stream(s@));
                },
                None => {
                    assert(config@.stream() =~= old_config.stream());
                },
            }
        }
        config
    }
}

pub open spec fn opt_bytes(o: Option<&str>) -> Option<Seq<u8>> {
    match o {
        Some(s) => Some(s.spec_bytes()),
        None => None,
    }
}

/// Whether a section has the given name and subsection (`None`: none).
pub open spec fn section_matches(sec: SectionV, name: Seq<u8>, sub: Option<Seq<u8>>) -> bool {
    sec.header.name == name && sec.header.subsection_name == sub
}

pub open spec fn has_section(secs: Seq<SectionV>, name: Seq<u8>) -> bool {
    exists|i: int| 0 <= i < secs.len() && (#[trigger] secs[i]).header.name == name
}

pub open spec fn has_subsection(secs: Seq<SectionV>, name: Seq<u8>, sub: Option<Seq<u8>>) -> bool {
    exists|i: int| 0 <= i < secs.len() && section_matches(#[trigger] secs[i], name, sub)
}

/// The positions of the matching sections among the first `n`, in order.
pub open spec fn matching_ids(
    secs: Seq<SectionV>,
    name: Seq<u8>,
    sub: Option<Seq<u8>>,
    n: int,
) -> Seq<usize>
    decreases n,
{
    if n <= 0 {
        Seq::empty()
    } else if section_matches(secs[n - 1], name, sub) {
        matching_ids(secs, name, sub, n - 1).push((n - 1) as usize)
    } else {
        matching_ids(secs, name, sub, n - 1)
    }
}

/// The values of `key` in the matching sections among the first `n`, in
/// file order.
pub open spec fn values_upto(
    secs: Seq<SectionV>,
    name: Seq<u8>,
    sub: Option<Seq<u8>>,
    key: Seq<u8>,
    n: int,
) -> Seq<Seq<u8>>
    decreases n,
{
    if n <= 0 {
        Seq::empty()
    } else if section_matches(secs[n - 1], name, sub) {
        values_upto(secs, name, sub, key, n - 1) + section_values(secs[n - 1].events, key)
    } else {
        values_upto(secs, name, sub, key, n - 1)
    }
}

/// All values of `key` in the sections with this name and subsection, in
/// file order.
pub open spec fn all_values(
    secs: Seq<SectionV>,
    name: Seq<u8>,
    sub: Option<Seq<u8>>,
    key: Seq<u8>,
) -> Seq<Seq<u8>> {
    values_upto(secs, name, sub, key, secs.len() as int)
}

/// Whether `e` is the error that a lookup of `key` in section `name` and
/// subsection `sub` owes: the first of a missing section, a missing
/// subsection, and a key without values.
pub open spec fn lookup_error<'a>(
    e: GitConfigError<'a>,
    secs: Seq<SectionV>,
    name: &'a str,
    sub: Option<&'a str>,
    key: &'a str,
) -> bool {
    match e {
        GitConfigError::SectionDoesNotExist(s) => s == name && !has_section(secs, name.spec_bytes()),
        GitConfigError::SubSectionDoesNotExist(s) => s == sub && has_section(secs, name.spec_bytes())
            && !has_subsection(secs, name.spec_bytes(), opt_bytes(sub)),
        GitConfigError::KeyDoesNotExist(k) => k == key && has_subsection(
            secs,
            name.spec_bytes(),
            opt_bytes(sub),
        ) && all_values(secs, name.spec_bytes(), opt_bytes(sub), key.spec_bytes()).len() == 0,
        GitConfigError::FailedConversion => false,
    }
}

/// The events `[s, e)` of section `i` spell the last value of `key` among
/// the sections with this name and subsection: section `i` is the last such
/// section that has a value, and the range is its last value.
pub open spec fn is_last_occurrence(
    secs: Seq<SectionV>,
    name: Seq<u8>,
    sub: Option<Seq<u8>>,
    key: Seq<u8>,
    i: int,
    s: int,
    e: int,
) -> bool {
    &&& 0 <= i < secs.len()
    &&& section_matches(secs[i], name, sub)
    &&& value_ranges(secs[i].events, key).len() > 0
    &&& value_ranges(secs[i].events, key).last() == (s, e)
    &&& forall|j: int|
        i < j < secs.len() && section_matches(#[trigger] secs[j], name, sub) ==> value_ranges(
            secs[j].events,
            key,
        ).len() == 0
}

pub open spec fn bytes_view(v: Seq<Vec<u8>>) -> Seq<Seq<u8>> {
    v.map_values(|b: Vec<u8>| b@)
}

fn subsection_eq(h: &Option<Vec<u8>>, sub: Option<&str>) -> (r: bool)
    ensures
        r == (opt_view(*h) == opt_bytes(sub)),
{
    match (h, sub) {
        (Some(a), Some(b)) => crate::bytes::bytes_eq(a.as_slice(), b.as_bytes()),
        (None, None) => true,
        _ => false,
    }
}

impl GitConfig {
    /// The positions of the sections with this name and subsection, in file
    /// order.
    pub fn get_section_ids_by_name_and_subname<'lookup>(
        &self,
        section_name: &'lookup str,
        subsection_name: Option<&'lookup str>,
    ) -> (r: Result<Vec<usize>, GitConfigError<'lookup>>)
        ensures
            r matches Ok(ids) ==> has_subsection(
                self@.sections,
                section_name.spec_bytes(),
                opt_bytes(subsection_name),
            ) && ids@ == matching_ids(
                self@.sections,
                section_name.spec_bytes(),
                opt_bytes(subsection_name),
                self@.sections.len() as int,
            ),
            r matches Err(e) ==> !(e is KeyDoesNotExist) && lookup_error(
                e,
                self@.sections,
                section_name,
                subsection_name,
                "",
            ),
    {
        let ghost secs = self@.sections;
        let ghost name = section_name.spec_bytes();
        let ghost sub = opt_bytes(subsection_name);
        let n = self.sections.len();
        let name_bytes = section_name.as_bytes();
        let mut seen_name = false;
        let mut ids: Vec<usize> = Vec::new();
        let mut i: usize = 0;
        while i < n
            invariant
                n == secs.len(),
                secs == self@.sections,
                name_bytes@ == name,
                sub == opt_bytes(subsection_name),
                i <= n,
                seen_name == exists|j: int| 0 <= j < i && (#[trigger] secs[j]).header.name == name,
                ids@ == matching_ids(secs, name, sub, i as int),
                (ids@.len() == 0) == forall|j: int|
                    0 <= j < i ==> !section_matches(#[trigger] secs[j], name, sub),
            decreases n - i,
        {
            let section = &self.sections[i];
            assert(section@ == secs[i as int]);
            let same_name = crate::bytes::bytes_eq(section.header.name.as_slice(), name_bytes);
            if same_name {
                seen_name = true;
                if subsection_eq(&section.header.subsection_name, subsection_name) {
                    ids.push(i);
                }
            }
            i = i + 1;
        }
        if !seen_name {
            return Err(GitConfigError::SectionDoesNotExist(section_name));
        }
        if ids.len() == 0 {
            return Err(GitConfigError::SubSectionDoesNotExist(subsection_name));
        }
        Ok(ids)
    }

    /// Where the last value of `key` stands among the matching sections: the
    /// section's position and the value's event range in it.
    fn last_value_location(
        &self,
        section_name: &str,
        subsection_name: Option<&str>,
        key: &str,
    ) -> (r: Option<(usize, usize, usize)>)
        ensures
            r is None ==> all_values(
                self@.sections,
                section_name.spec_bytes(),
                opt_bytes(subsection_name),
                key.spec_bytes(),
            ).len() == 0,
            r matches Some((si, vs, ve)) ==> si < self@.sections.len() && vs < ve
                <= self@.sections[si as int].events.len(),
            r matches Some((si, vs, ve)) ==> section_matches(
                self@.sections[si as int],
                section_name.spec_bytes(),
                opt_bytes(subsection_name),
            ),
            r matches Some((si, vs, ve)) ==> value_ranges(
                self@.sections[si as int].events,
                key.spec_bytes(),
            ).len() > 0 && value_ranges(self@.sections[si as int].events, key.spec_bytes()).last()
                == (vs as int, ve as int),
            r matches Some((si, vs, ve)) ==> is_last_occurrence(
                self@.sections,
                section_name.spec_bytes(),
                opt_bytes(subsection_name),
                key.spec_bytes(),
                si as int,
                vs as int,
                ve as int,
            ),
            r matches Some((si, vs, ve)) ==> all_values(
                self@.sections,
                section_name.spec_bytes(),
                opt_bytes(subsection_name),
                key.spec_bytes(),
            ).len() > 0 && range_value(self@.sections[si as int].events, (vs as int, ve as int))
                == all_values(
                self@.sections,
                section_name.spec_bytes(),
                opt_bytes(subsection_name),
                key.spec_bytes(),
            ).last(),
    {
        let ghost secs = self@.sections;
        let ghost name = section_name.spec_bytes();
        let ghost sub = opt_bytes(subsection_name);
        let ghost k = key.spec_bytes();
        let name_bytes = section_name.as_bytes();
        let key_bytes = key.as_bytes();
        let mut i: usize = self.sections.len();
        while i > 0
            invariant
                i <= secs.len(),
                secs == self@.sections,
                name_bytes@ == name,
                name == section_name.spec_bytes(),
                key_bytes@ == k,
                k == key.spec_bytes(),
                sub == opt_bytes(subsection_name),
                values_upto(secs, name, sub, k, secs.len() as int) == values_upto(
                    secs,
                    name,
                    sub,
                    k,
                    i as int,
                ),
                forall|j: int|
                    i <= j < secs.len() && section_matches(#[trigger] secs[j], name, sub) ==> value_ranges(
                        secs[j].events,
                        k,
                    ).len() == 0,
            decreases i,
        {
            let section = &self.sections[i - 1];
            assert(section@ == secs[i - 1]);
            if crate::bytes::bytes_eq(section.header.name.as_slice(), name_bytes) && subsection_eq(
                &section.header.subsection_name,
                subsection_name,
            ) {
                let ranges = find_value_ranges(&section.events, key_bytes);
                if ranges.len() > 0 {
                    let last = ranges[ranges.len() - 1];
                    proof {
                        let rv = ranges_view(ranges@);
                        assert(rv.last() == (last.0 as int, last.1 as int));
                        let sv = section_values(secs[i - 1].events, k);
                        assert(sv.last() == range_value(secs[i - 1].events, rv.last()));
                        let vu = values_upto(secs, name, sub, k, i - 1);
                        assert(values_upto(secs, name, sub, k, i as int) == vu + sv);
                        assert((vu + sv).last() == sv.last());
                        assert(ranges@[ranges@.len() - 1] == last);
                    }
                    return Some((i - 1, last.0, last.1));
                }
                assert(section_values(secs[i - 1].events, k) =~= Seq::<Seq<u8>>::empty());
                assert(values_upto(secs, name, sub, k, i as int) =~= values_upto(secs, name, sub, k, i - 1));
            }
            i = i - 1;
        }
        None
    }

    /// The value of `key` in the given section and subsection; where it is
    /// set more than once, the last one in the file wins.
    pub fn get_raw_value<'lookup>(
        &self,
        section_name: &'lookup str,
        subsection_name: Option<&'lookup str>,
        key: &'lookup str,
    ) -> (r: Result<Vec<u8>, GitConfigError<'lookup>>)
        ensures
            r matches Ok(v) ==> ({
                let vals = all_values(
                    self@.sections,
                    section_name.spec_bytes(),
                    opt_bytes(subsection_name),
                    key.spec_bytes(),
                );
                vals.len() > 0 && v@ == vals.last()
            }),
            r matches Err(e) ==> lookup_error(e, self@.sections, section_name, subsection_name, key),
    {
        match self.get_section_ids_by_name_and_subname(section_name, subsection_name) {
            Err(e) => return Err(e),
            Ok(_) => {},
        }
        match self.last_value_location(section_name, subsection_name, key) {
            Some((i, s, e)) => {
                assert(self.sections@[i as int]@ == self@.sections[i as int]);
                Ok(value_in_range(&self.sections[i].events, s, e))
            },
            None => Err(GitConfigError::KeyDoesNotExist(key)),
        }
    }

    /// All values of `key` in the given section and subsection, in file order.
    pub fn get_raw_multi_value<'lookup>(
        &self,
        section_name: &'lookup str,
        subsection_name: Option<&'lookup str>,
        key: &'lookup str,
    ) -> (r: Result<Vec<Vec<u8>>, GitConfigError<'lookup>>)
        ensures
            r matches Ok(v) ==> ({
                let vals = all_values(
                    self@.sections,
                    section_name.spec_bytes(),
                    opt_bytes(subsection_name),
                    key.spec_bytes(),
                );
                vals.len() > 0 && bytes_view(v@) == vals
            }),
            r matches Err(e) ==> lookup_error(e, self@.sections, section_name, subsection_name, key),
    {
        match self.get_section_ids_by_name_and_subname(section_name, subsection_name) {
            Err(e) => return Err(e),
            Ok(_) => {},
        }
        let ghost secs = self@.sections;
        let ghost name = section_name.spec_bytes();
        let ghost sub = opt_bytes(subsection_name);
        let ghost k = key.spec_bytes();
        let name_bytes = section_name.as_bytes();
        let key_bytes = key.as_bytes();
        let n = self.sections.len();
        let mut values: Vec<Vec<u8>> = Vec::new();
        let mut i: usize = 0;
        assert(bytes_view(values@) =~= Seq::<Seq<u8>>::empty());
        while i < n
            invariant
                n == secs.len(),
                i <= n,
                secs == self@.sections,
                name_bytes@ == name,
                name == section_name.spec_bytes(),
                key_bytes@ == k,
                k == key.spec_bytes(),
                sub == opt_bytes(subsection_name),
                bytes_view(values@) == values_upto(secs, name, sub, k, i as int),
            decreases n - i,
        {
            let section = &self.sections[i];
            assert(section@ == secs[i as int]);
            if crate::bytes::bytes_eq(section.header.name.as_slice(), name_bytes) && subsection_eq(
                &section.header.subsection_name,
                subsection_name,
            ) {
                let ranges = find_value_ranges(&section.events, key_bytes);
                let ghost evs = secs[i as int].events;
                let ghost base = bytes_view(values@);
                let mut t: usize = 0;
                while t < ranges.len()
                    invariant
                        t <= ranges@.len(),
                        evs == events_view(section.events@),
                        ranges_view(ranges@) == value_ranges(evs, k),
                        forall|x: int|
                            0 <= x < ranges@.len() ==> (#[trigger] ranges@[x]).0 < ranges@[x].1
                                <= section.events@.len(),
                        bytes_view(values@) == base + section_values(evs, k).subrange(0, t as int),
                    decreases ranges@.len() - t,
                {
                    let (s, e) = ranges[t];
                    let v = value_in_range(&section.events, s, e);
                    let ghost before = values@;
                    values.push(v);
                    proof {
                        assert(ranges_view(ranges@)[t as int] == (s as int, e as int));
                        assert(bytes_view(values@) =~= bytes_view(before).push(v@));
                        assert(section_values(evs, k).subrange(0, t as int + 1) =~= section_values(
                            evs,
                            k,
                        ).subrange(0, t as int).push(v@));
                    }
                    t = t + 1;
                }
                assert(section_values(evs, k).subrange(0, t as int) =~= section_values(evs, k));
            }
            i = i + 1;
        }
        if values.len() == 0 {
            return Err(GitConfigError::KeyDoesNotExist(key));
        }
        Ok(values)
    }
}

/// Relies on `String::from_utf8_lossy`: valid UTF-8 is decoded as it is.
#[verifier::external_body]
fn utf8_lossy(b: &[u8]) -> (r: String)
    ensures
        vstd::utf8::valid_utf8(b@) ==> r@ == vstd::utf8::decode_utf8(b@),
{
    String::from_utf8_lossy(b).into_owned()
}

impl GitConfigV {
    /// The file that the configuration stands for.
    pub open spec fn text(self) -> Seq<u8> {
        events_text(self.stream())
    }
}

pub proof fn lemma_section_text(s: SectionV)
    ensures
        events_text(section_stream(s)) == header_text(s.header) + events_text(s.events),
{
    let h = seq![EventV::SectionHeader(s.header)];
    lemma_events_text_append(h, s.events);
    assert(h.drop_last() =~= Seq::<EventV>::empty());
    assert(events_text(h.drop_last()) =~= Seq::<u8>::empty());
    assert(h.last() == EventV::SectionHeader(s.header));
    assert(events_text(h) == events_text(h.drop_last()) + event_text(h.last()));
    assert(events_text(h) =~= header_text(s.header));
}

impl GitConfig {
    /// Parses a configuration from its text.
    pub fn try_from(input: &str) -> (r: Result<GitConfig, ParseError>)
        ensures
            r matches Ok(c) ==> c@.text() == input.spec_bytes() && c@.well_formed(),
            r matches Err(e) ==> parse_error_holds(input.spec_bytes(), e),
    {
        GitConfig::from_bytes(input.as_bytes())
    }

    /// Parses a configuration from the bytes of a file.
    pub fn from_bytes(input: &[u8]) -> (r: Result<GitConfig, ParseError>)
        ensures
            r matches Ok(c) ==> c@.text() == input@ && c@.well_formed(),
            r matches Err(e) ==> parse_error_holds(input@, e),
    {
        match parse_from_bytes(input) {
            Ok(events) => Ok(GitConfig::from_events(events)),
            Err(e) => Err(e),
        }
    }

    /// The number of sections.
    pub fn sections_len(&self) -> (r: usize)
        ensures
            r == self@.sections.len(),
    {
        self.sections.len()
    }

    /// The sections in file order.
    pub fn sections(&self) -> (r: &Vec<Section>)
        ensures
            r@.map_values(|s: Section| s@) == self@.sections,
    {
        &self.sections
    }

    /// The number of events before the first section.
    pub fn front_matter_len(&self) -> (r: usize)
        ensures
            r == self@.front_matter.len(),
    {
        self.front_matter_events.len()
    }

    /// The file that the configuration stands for, byte for byte.
    pub fn to_bytes(&self) -> (r: Vec<u8>)
        ensures
            r@ == self@.text(),
    {
        let ghost secs = self@.sections;
        let mut out: Vec<u8> = Vec::new();
        write_events(&self.front_matter_events, &mut out);
        let n = self.sections.len();
        let mut i: usize = 0;
        assert(out@ =~= events_text(self@.front_matter));
        proof {
            assert(secs.subrange(0, 0) =~= Seq::<SectionV>::empty());
            lemma_events_text_append(self@.front_matter, sections_stream(secs.subrange(0, 0)));
        }
        while i < n
            invariant
                n == secs.len(),
                i <= n,
                secs == self@.sections,
                out@ == events_text(self@.front_matter + sections_stream(secs.subrange(0, i as int))),
            decreases n - i,
        {
            let section = &self.sections[i];
            assert(section@ == secs[i as int]);
            let ghost before = out@;
            section.header.write_to(&mut out);
            write_events(&section.events, &mut out);
            proof {
                let pre = secs.subrange(0, i as int);
                assert(secs.subrange(0, i as int + 1) =~= pre.push(secs[i as int]));
                lemma_sections_stream_push(pre, secs[i as int]);
                lemma_section_text(secs[i as int]);
                assert(self@.front_matter + sections_stream(pre.push(secs[i as int])) =~= (
                self@.front_matter + sections_stream(pre)) + section_stream(secs[i as int]));
                lemma_events_text_append(
                    self@.front_matter + sections_stream(pre),
                    section_stream(secs[i as int]),
                );
                assert(out@ =~= before + header_text(secs[i as int].header) + events_text(
                    secs[i as int].events,
                ));
            }
            i = i + 1;
        }
        assert(secs.subrange(0, n as int) =~= secs);
        out
    }

    /// The file that the configuration stands for, as text; bytes that are
    /// not UTF-8 are replaced.
    pub fn to_string(&self) -> (r: String)
        ensures
            vstd::utf8::valid_utf8(self@.text()) ==> r@ == vstd::utf8::decode_utf8(self@.text()),
    {
        let b = self.to_bytes();
        utf8_lossy(b.as_slice())
    }
}

/// `evs` with the events in `[s, e)` replaced by `new`.
pub open spec fn replace_range(evs: Seq<EventV>, s: int, e: int, new: Seq<EventV>) -> Seq<EventV> {
    evs.subrange(0, s) + new + evs.subrange(e, evs.len() as int)
}

pub open spec fn opt_event(e: Option<Event>) -> Seq<EventV> {
    match e {
        Some(ev) => seq![ev@],
        None => Seq::empty(),
    }
}

impl GitConfigV {
    /// The configuration with the body of section `i` replaced by `evs`.
    pub open spec fn with_events(self, i: int, evs: Seq<EventV>) -> GitConfigV {
        GitConfigV {
            front_matter: self.front_matter,
            sections: self.sections.update(
                i,
                SectionV { header: self.sections[i].header, events: evs },
            ),
        }
    }
}

impl GitConfig {
    /// Replaces the events in `[s, e)` of section `i` by `new`, if any.
    pub(crate) fn replace_events(&mut self, i: usize, s: usize, e: usize, new: Option<Event>)
        requires
            i < old(self)@.sections.len(),
            s <= e <= old(self)@.sections[i as int].events.len(),
            new matches Some(ev) ==> !(ev@ is SectionHeader),
        ensures
            final(self)@ == old(self)@.with_events(
                i as int,
                replace_range(old(self)@.sections[i as int].events, s as int, e as int, opt_event(new)),
            ),
            old(self)@.well_formed() ==> final(self)@.well_formed(),
    {
        let ghost old_view = self@;
        let ghost old_secs = self.sections@;
        let mut sec = self.sections.remove(i);
        assert(sec@ == old_view.sections[i as int]);
        let ghost evs = sec@.events;
        let mut cnt: usize = e - s;
        while cnt > 0
            invariant
                cnt <= e - s,
                s <= e <= evs.len(),
                sec@.header == old_view.sections[i as int].header,
                sec@.events == evs.subrange(0, s as int) + evs.subrange(
                    (e - cnt) as int,
                    evs.len() as int,
                ),
            decreases cnt,
        {
            let ghost before = sec.events@;
            sec.events.remove(s);
            proof {
                assert(events_view(sec.events@) =~= events_view(before).remove(s as int));
                assert(sec@.events =~= evs.subrange(0, s as int) + evs.subrange(
                    (e - cnt + 1) as int,
                    evs.len() as int,
                ));
            }
            cnt = cnt - 1;
        }
        let ghost new_view = opt_event(new);
        match new {
            Some(ev) => {
                let ghost before = sec.events@;
                sec.events.insert(s, ev);
                assert(events_view(sec.events@) =~= events_view(before).insert(s as int, ev@));
            },
            None => {},
        }
        let ghost target = replace_range(evs, s as int, e as int, new_view);
        assert(sec@.events =~= target);
        let ghost removed = self.sections@;
        self.sections.insert(i, sec);
        proof {
            assert(self.sections@ =~= old_secs.update(i as int, sec));
            assert(self@.sections =~= old_view.sections.update(
                i as int,
                SectionV { header: old_view.sections[i as int].header, events: target },
            ));
            assert(self@.front_matter == old_view.front_matter);
            if old_view.well_formed() {
                assert forall|k: int| 0 <= k < target.len() implies !(#[trigger] target[k] is SectionHeader) by {
                    if k < s {
                        assert(target[k] == evs[k]);
                    } else if k < s + new_view.len() {
                    } else {
                        assert(target[k] == evs[k - s - new_view.len() + e]);
                    }
                }
                assert(no_headers(target));
                assert forall|j: int| 0 <= j < self@.sections.len() implies no_headers(
                    #[trigger] self@.sections[j].events,
                ) by {
                    if j != i {
                        assert(self@.sections[j] == old_view.sections[j]);
                    }
                }
            }
        }
    }
}

/// A handle on one value of a configuration: the event range that spells it
/// in one section. Its methods take the configuration it was made from.
pub struct MutableValue<'lookup> {
    pub section: usize,
    pub index: usize,
    pub size: usize,
    pub key: &'lookup str,
}

/// The bytes of a string.
pub fn string_bytes(s: &String) -> (r: Vec<u8>)
    ensures
        r@ == vstd::utf8::encode_utf8(s@),
{
    let b = s.as_str().as_bytes();
    crate::bytes::copy_range(b, 0, b.len())
}

impl<'lookup> MutableValue<'lookup> {
    /// Whether the handle's range lies within `c`.
    pub open spec fn valid_for(&self, c: GitConfigV) -> bool {
        self.section < c.sections.len() && self.index + self.size <= c.sections[self.section as int].events.len()
    }

    /// The value that the handle points at; after `delete_value`, none.
    pub fn value(&self, config: &GitConfig) -> (r: Result<Vec<u8>, GitConfigError<'lookup>>)
        requires
            self.valid_for(config@),
        ensures
            self.size == 0 ==> r == Err::<Vec<u8>, GitConfigError<'lookup>>(
                GitConfigError::KeyDoesNotExist(self.key),
            ),
            self.size > 0 ==> (r matches Ok(v) && v@ == range_value(
                config@.sections[self.section as int].events,
                (self.index as int, self.index + self.size),
            )),
    {
        if self.size == 0 {
            return Err(GitConfigError::KeyDoesNotExist(self.key));
        }
        assert(config.sections@[self.section as int]@ == config@.sections[self.section as int]);
        let _n = config.sections[self.section].events.len();
        Ok(value_in_range(&config.sections[self.section].events, self.index, self.index + self.size))
    }

    /// Replaces the value by `input`, written as one value event.
    pub fn set_bytes(&mut self, config: &mut GitConfig, input: Vec<u8>)
        requires
            old(self).valid_for(old(config)@),
        ensures
            final(config)@ == old(config)@.with_events(
                old(self).section as int,
                replace_range(
                    old(config)@.sections[old(self).section as int].events,
                    old(self).index as int,
                    old(self).index + old(self).size,
                    seq![EventV::Value(input@)],
                ),
            ),
            old(config)@.well_formed() ==> final(config)@.well_formed(),
            *final(self) == (MutableValue { size: 1, ..*old(self) }),
            final(self).valid_for(final(config)@),
    {
        let ghost v = input@;
        assert(config.sections@[self.section as int]@ == config@.sections[self.section as int]);
        let _n = config.sections[self.section].events.len();
        let ev = Event::Value(input);
        assert(opt_event(Some(ev)) =~= seq![EventV::Value(v)]);
        config.replace_events(self.section, self.index, self.index + self.size, Some(ev));
        self.size = 1;
    }

    /// Replaces the value by the bytes of `input`.
    pub fn set_string(&mut self, config: &mut GitConfig, input: String)
        requires
            old(self).valid_for(old(config)@),
        ensures
            final(config)@ == old(config)@.with_events(
                old(self).section as int,
                replace_range(
                    old(config)@.sections[old(self).section as int].events,
                    old(self).index as int,
                    old(self).index + old(self).size,
                    seq![EventV::Value(vstd::utf8::encode_utf8(input@))],
                ),
            ),
            old(config)@.well_formed() ==> final(config)@.well_formed(),
            *final(self) == (MutableValue { size: 1, ..*old(self) }),
    {
        self.set_bytes(config, string_bytes(&input));
    }

    /// Removes the value's events.
    pub fn delete_value(&mut self, config: &mut GitConfig)
        requires
            old(self).valid_for(old(config)@),
        ensures
            final(config)@ == old(config)@.with_events(
                old(self).section as int,
                replace_range(
                    old(config)@.sections[old(self).section as int].events,
                    old(self).index as int,
                    old(self).index + old(self).size,
                    Seq::empty(),
                ),
            ),
            old(config)@.well_formed() ==> final(config)@.well_formed(),
            *final(self) == (MutableValue { size: 0, ..*old(self) }),
            final(self).valid_for(final(config)@),
    {
        assert(config.sections@[self.section as int]@ == config@.sections[self.section as int]);
        let _n = config.sections[self.section].events.len();
        config.replace_events(self.section, self.index, self.index + self.size, None);
        self.size = 0;
    }
}

/// Values are found only in sections that match.
pub proof fn lemma_values_need_subsection(
    secs: Seq<SectionV>,
    name: Seq<u8>,
    sub: Option<Seq<u8>>,
    key: Seq<u8>,
    n: int,
)
    requires
        0 <= n <= secs.len(),
        values_upto(secs, name, sub, key, n).len() > 0,
    ensures
        has_subsection(secs, name, sub),
        has_section(secs, name),
    decreases n,
{
    if section_matches(secs[n - 1], name, sub) {
        assert(section_matches(secs[n - 1], name, sub));
        assert(secs[n - 1].header.name == name);
    } else {
        lemma_values_need_subsection(secs, name, sub, key, n - 1);
    }
}

impl GitConfig {
    /// A handle on the value that `get_raw_value` returns.
    pub fn get_raw_value_mut<'lookup>(
        &self,
        section_name: &'lookup str,
        subsection_name: Option<&'lookup str>,
        key: &'lookup str,
    ) -> (r: Result<MutableValue<'lookup>, GitConfigError<'lookup>>)
        ensures
            r matches Ok(m) ==> is_last_occurrence(
                self@.sections,
                section_name.spec_bytes(),
                opt_bytes(subsection_name),
                key.spec_bytes(),
                m.section as int,
                m.index as int,
                m.index + m.size,
            ),
            r matches Ok(m) ==> m.valid_for(self@) && m.size > 0 && m.key == key && ({
                let vals = all_values(
                    self@.sections,
                    section_name.spec_bytes(),
                    opt_bytes(subsection_name),
                    key.spec_bytes(),
                );
                vals.len() > 0 && range_value(
                    self@.sections[m.section as int].events,
                    (m.index as int, m.index + m.size),
                ) == vals.last()
            }),
            r matches Err(e) ==> lookup_error(e, self@.sections, section_name, subsection_name, key),
    {
        match self.get_section_ids_by_name_and_subname(section_name, subsection_name) {
            Err(e) => return Err(e),
            Ok(_) => {},
        }
        match self.last_value_location(section_name, subsection_name, key) {
            Some((i, s, e)) => Ok(MutableValue { section: i, index: s, size: e - s, key }),
            None => Err(GitConfigError::KeyDoesNotExist(key)),
        }
    }

    /// Replaces the value that `get_raw_value` returns by `new_value`.
    pub fn set_raw_value<'lookup>(
        &mut self,
        section_name: &'lookup str,
        subsection_name: Option<&'lookup str>,
        key: &'lookup str,
        new_value: Vec<u8>,
    ) -> (r: Result<(), GitConfigError<'lookup>>)
        ensures
            r matches Err(e) ==> lookup_error(e, old(self)@.sections, section_name, subsection_name, key)
                && final(self)@ == old(self)@,
            r is Ok ==> exists|i: int, s: int, e: int|
                is_last_occurrence(
                    old(self)@.sections,
                    section_name.spec_bytes(),
                    opt_bytes(subsection_name),
                    key.spec_bytes(),
                    i,
                    s,
                    e,
                ) && 0 <= s < e <= old(self)@.sections[i].events.len()
                && range_value(old(self)@.sections[i].events, (s, e)) == all_values(
                    old(self)@.sections,
                    section_name.spec_bytes(),
                    opt_bytes(subsection_name),
                    key.spec_bytes(),
                ).last() && #[trigger] final(self)@ == old(self)@.with_events(
                    i,
                    replace_range(old(self)@.sections[i].events, s, e, seq![EventV::Value(new_value@)]),
                ),
            r is Ok <==> all_values(
                old(self)@.sections,
                section_name.spec_bytes(),
                opt_bytes(subsection_name),
                key.spec_bytes(),
            ).len() > 0,
            r is Ok ==> all_values(
                final(self)@.sections,
                section_name.spec_bytes(),
                opt_bytes(subsection_name),
                key.spec_bytes(),
            ).len() > 0 && all_values(
                final(self)@.sections,
                section_name.spec_bytes(),
                opt_bytes(subsection_name),
                key.spec_bytes(),
            ).last() == crate::config::values::normalize(new_value@),
            old(self)@.well_formed() ==> final(self)@.well_formed(),
    {
        proof {
            let vals = all_values(
                self@.sections,
                section_name.spec_bytes(),
                opt_bytes(subsection_name),
                key.spec_bytes(),
            );
            if vals.len() > 0 {
                lemma_values_need_subsection(
                    self@.sections,
                    section_name.spec_bytes(),
                    opt_bytes(subsection_name),
                    key.spec_bytes(),
                    self@.sections.len() as int,
                );
            }
        }
        match self.get_raw_value_mut(section_name, subsection_name, key) {
            Ok(mut m) => {
                let ghost before = self@;
                let ghost v = new_value@;
                let ghost mv = m;
                m.set_bytes(self, new_value);
                proof {
                    lemma_set_last_value_reads_back(
                        before,
                        section_name.spec_bytes(),
                        opt_bytes(subsection_name),
                        key.spec_bytes(),
                        mv.section as int,
                        mv.index as int,
                        mv.index + mv.size,
                        v,
                    );
                }
                Ok(())
            },
            Err(e) => Err(e),
        }
    }
}

/// Handles on all values of a key: for each, the section, the first event and
/// the number of events. Its methods take the configuration it was made from.
pub struct MutableMultiValue<'lookup> {
    pub key: &'lookup str,
    pub indices_and_sizes: Vec<(usize, usize, usize)>,
}

/// Each handle lies within `c` and spans at least one event, and the handles
/// come in file order without overlapping.
pub open spec fn handles_valid(hs: Seq<(usize, usize, usize)>, c: GitConfigV) -> bool {
    &&& forall|j: int|
        0 <= j < hs.len() ==> (#[trigger] hs[j]).0 < c.sections.len() && hs[j].2 >= 1 && hs[j].1
            + hs[j].2 <= c.sections[hs[j].0 as int].events.len()
    &&& forall|a: int, b: int|
        0 <= a < b < hs.len() ==> (#[trigger] hs[a]).0 < (#[trigger] hs[b]).0 || (hs[a].0 == hs[b].0
            && hs[a].1 + hs[a].2 <= hs[b].1)
}

/// The value that one handle points at.
pub open spec fn value_at(h: (usize, usize, usize), c: GitConfigV) -> Seq<u8> {
    range_value(c.sections[h.0 as int].events, (h.1 as int, h.1 + h.2))
}

/// The values that the handles point at, in order.
pub open spec fn values_at(hs: Seq<(usize, usize, usize)>, c: GitConfigV) -> Seq<Seq<u8>> {
    hs.map_values(|h: (usize, usize, usize)| value_at(h, c))
}

/// The handles after the one at `i` was resized to `new_size` events: the
/// later handles in its section move by the difference.
pub open spec fn shift_after(hs: Seq<(usize, usize, usize)>, i: int, new_size: int) -> Seq<
    (usize, usize, usize),
> {
    Seq::new(
        hs.len(),
        |j: int|
            if j == i {
                (hs[i].0, hs[i].1, new_size as usize)
            } else if j > i && hs[j].0 == hs[i].0 {
                (hs[j].0, (hs[j].1 - hs[i].2 + new_size) as usize, hs[j].2)
            } else {
                hs[j]
            },
    )
}

fn shift_handles(hs: &Vec<(usize, usize, usize)>, i: usize, new_size: usize) -> (r: Vec<(usize, usize, usize)>)
    requires
        i < hs@.len(),
        new_size <= hs@[i as int].2,
        forall|a: int, b: int|
            0 <= a < b < hs@.len() ==> (#[trigger] hs@[a]).0 < (#[trigger] hs@[b]).0 || (hs@[a].0
                == hs@[b].0 && hs@[a].1 + hs@[a].2 <= hs@[b].1),
    ensures
        r@ == shift_after(hs@, i as int, new_size as int),
{
    let (sec, _idx, size) = hs[i];
    let mut r: Vec<(usize, usize, usize)> = Vec::new();
    let mut j: usize = 0;
    while j < hs.len()
        invariant
            j <= hs@.len(),
            i < hs@.len(),
            hs@[i as int] == (sec, _idx, size),
            new_size <= size,
            forall|a: int, b: int|
                0 <= a < b < hs@.len() ==> (#[trigger] hs@[a]).0 < (#[trigger] hs@[b]).0 || (hs@[a].0
                    == hs@[b].0 && hs@[a].1 + hs@[a].2 <= hs@[b].1),
            r@ == shift_after(hs@, i as int, new_size as int).subrange(0, j as int),
        decreases hs@.len() - j,
    {
        let h = hs[j];
        let next = if j == i {
            (sec, h.1, new_size)
        } else if j > i && h.0 == sec {
            assert(hs@[i as int].1 + size <= h.1);
            (h.0, h.1 - size + new_size, h.2)
        } else {
            h
        };
        r.push(next);
        assert(r@ =~= shift_after(hs@, i as int, new_size as int).subrange(0, j as int + 1));
        j = j + 1;
    }
    assert(shift_after(hs@, i as int, new_size as int).subrange(0, j as int) =~= shift_after(
        hs@,
        i as int,
        new_size as int,
    ));
    r
}

/// Resizing one handle's range keeps the handles valid in the configuration
/// where that range was replaced.
pub proof fn lemma_shift_valid(
    hs: Seq<(usize, usize, usize)>,
    c: GitConfigV,
    i: int,
    new: Seq<EventV>,
)
    requires
        handles_valid(hs, c),
        0 <= i < hs.len(),
        1 <= new.len() <= hs[i].2,
    ensures
        handles_valid(
            shift_after(hs, i, new.len() as int),
            c.with_events(
                hs[i].0 as int,
                replace_range(c.sections[hs[i].0 as int].events, hs[i].1 as int, hs[i].1 + hs[i].2, new),
            ),
        ),
{
    let h = hs[i];
    let ns = new.len() as int;
    let evs = c.sections[h.0 as int].events;
    let c2 = c.with_events(h.0 as int, replace_range(evs, h.1 as int, h.1 + h.2, new));
    let hs2 = shift_after(hs, i, ns);
    assert(replace_range(evs, h.1 as int, h.1 + h.2, new).len() == evs.len() - h.2 + ns);
    assert forall|j: int| 0 <= j < hs2.len() implies (#[trigger] hs2[j]).0 < c2.sections.len() && hs2[j].2
        >= 1 && hs2[j].1 + hs2[j].2 <= c2.sections[hs2[j].0 as int].events.len() by {
        if j != i && hs[j].0 == h.0 {
            if j < i {
                assert(hs[j].1 + hs[j].2 <= h.1);
            } else {
                assert(h.1 + h.2 <= hs[j].1);
            }
        }
    }
    assert forall|a: int, b: int| 0 <= a < b < hs2.len() implies (#[trigger] hs2[a]).0 < (
    #[trigger] hs2[b]).0 || (hs2[a].0 == hs2[b].0 && hs2[a].1 + hs2[a].2 <= hs2[b].1) by {
        assert(hs[a].0 < hs[b].0 || (hs[a].0 == hs[b].0 && hs[a].1 + hs[a].2 <= hs[b].1));
        if a < i && i < b && hs[a].0 == h.0 && hs[b].0 == h.0 {
            assert(hs[a].1 + hs[a].2 <= h.1);
            assert(h.1 + h.2 <= hs[b].1);
        }
    }
}

impl<'lookup> MutableMultiValue<'lookup> {
    /// The values that the handles point at, in order.
    pub fn value(&self, config: &GitConfig) -> (r: Result<Vec<Vec<u8>>, GitConfigError<'lookup>>)
        requires
            handles_valid(self.indices_and_sizes@, config@),
        ensures
            r matches Ok(v) ==> bytes_view(v@) == values_at(self.indices_and_sizes@, config@)
                && v@.len() > 0,
            r matches Err(e) ==> e == GitConfigError::KeyDoesNotExist(self.key)
                && self.indices_and_sizes@.len() == 0,
    {
        let ghost hs = self.indices_and_sizes@;
        let n = self.indices_and_sizes.len();
        if n == 0 {
            return Err(GitConfigError::KeyDoesNotExist(self.key));
        }
        let mut values: Vec<Vec<u8>> = Vec::new();
        let mut j: usize = 0;
        while j < n
            invariant
                n == hs.len(),
                hs == self.indices_and_sizes@,
                j <= n,
                handles_valid(hs, config@),
                bytes_view(values@) == values_at(hs, config@).subrange(0, j as int),
            decreases n - j,
        {
            let (sec, idx, size) = self.indices_and_sizes[j];
            assert(hs[j as int] == (sec, idx, size));
            assert(config.sections@[sec as int]@ == config@.sections[sec as int]);
            let _len = config.sections[sec].events.len();
            let v = value_in_range(&config.sections[sec].events, idx, idx + size);
            let ghost before = values@;
            values.push(v);
            assert(values_at(hs, config@)[j as int] == value_at(hs[j as int], config@));
            assert(v@ == value_at(hs[j as int], config@));
            assert(bytes_view(values@) =~= bytes_view(before).push(v@));
            assert(bytes_view(values@) =~= values_at(hs, config@).subrange(0, j as int + 1));
            j = j + 1;
        }
        assert(values_at(hs, config@).subrange(0, n as int) =~= values_at(hs, config@));
        Ok(values)
    }

    /// The number of handles.
    pub fn len(&self) -> (r: usize)
        ensures
            r == self.indices_and_sizes@.len(),
    {
        self.indices_and_sizes.len()
    }

    /// Whether there are no handles.
    pub fn is_empty(&self) -> (r: bool)
        ensures
            r == (self.indices_and_sizes@.len() == 0),
    {
        self.indices_and_sizes.len() == 0
    }

    /// Replaces the value of handle `index` by `input`, written as one value
    /// event; the later handles of its section move along.
    pub fn set_bytes(&mut self, config: &mut GitConfig, index: usize, input: Vec<u8>)
        requires
            handles_valid(old(self).indices_and_sizes@, old(config)@),
            index < old(self).indices_and_sizes@.len(),
        ensures
            ({
                let h = old(self).indices_and_sizes@[index as int];
                final(config)@ == old(config)@.with_events(
                    h.0 as int,
                    replace_range(
                        old(config)@.sections[h.0 as int].events,
                        h.1 as int,
                        h.1 + h.2,
                        seq![EventV::Value(input@)],
                    ),
                )
            }),
            final(self).indices_and_sizes@ == shift_after(old(self).indices_and_sizes@, index as int, 1),
            final(self).key == old(self).key,
            handles_valid(final(self).indices_and_sizes@, final(config)@),
            old(config)@.well_formed() ==> final(config)@.well_formed(),
    {
        let ghost hs = self.indices_and_sizes@;
        let ghost c = config@;
        let (sec, idx, size) = self.indices_and_sizes[index];
        assert(hs[index as int] == (sec, idx, size));
        assert(config.sections@[sec as int]@ == config@.sections[sec as int]);
        let _len = config.sections[sec].events.len();
        let ghost v = input@;
        let ev = Event::Value(input);
        assert(opt_event(Some(ev)) =~= seq![EventV::Value(v)]);
        config.replace_events(sec, idx, idx + size, Some(ev));
        let shifted = shift_handles(&self.indices_and_sizes, index, 1);
        self.indices_and_sizes = shifted;
        proof {
            lemma_shift_valid(hs, c, index as int, seq![EventV::Value(v)]);
        }
    }

    /// Replaces the value of handle `index` by the bytes of `input`.
    pub fn set_string(&mut self, config: &mut GitConfig, index: usize, input: String)
        requires
            handles_valid(old(self).indices_and_sizes@, old(config)@),
            index < old(self).indices_and_sizes@.len(),
        ensures
            ({
                let h = old(self).indices_and_sizes@[index as int];
                final(config)@ == old(config)@.with_events(
                    h.0 as int,
                    replace_range(
                        old(config)@.sections[h.0 as int].events,
                        h.1 as int,
                        h.1 + h.2,
                        seq![EventV::Value(vstd::utf8::encode_utf8(input@))],
                    ),
                )
            }),
            final(self).indices_and_sizes@ == shift_after(old(self).indices_and_sizes@, index as int, 1),
            handles_valid(final(self).indices_and_sizes@, final(config)@),
    {
        self.set_bytes(config, index, string_bytes(&input));
    }

    /// Replaces the value of handle `index` by `input`.
    pub fn set_value(&mut self, config: &mut GitConfig, index: usize, input: Vec<u8>)
        requires
            handles_valid(old(self).indices_and_sizes@, old(config)@),
            index < old(self).indices_and_sizes@.len(),
        ensures
            ({
                let h = old(self).indices_and_sizes@[index as int];
                final(config)@ == old(config)@.with_events(
                    h.0 as int,
                    replace_range(
                        old(config)@.sections[h.0 as int].events,
                        h.1 as int,
                        h.1 + h.2,
                        seq![EventV::Value(input@)],
                    ),
                )
            }),
            final(self).indices_and_sizes@ == shift_after(old(self).indices_and_sizes@, index as int, 1),
            final(self).key == old(self).key,
            handles_valid(final(self).indices_and_sizes@, final(config)@),
            old(config)@.well_formed() ==> final(config)@.well_formed(),
    {
        self.set_bytes(config, index, input);
    }

    /// Removes the value of handle `index` and the handle; the later handles
    /// of its section move along.
    pub fn delete(&mut self, config: &mut GitConfig, index: usize)
        requires
            handles_valid(old(self).indices_and_sizes@, old(config)@),
            index < old(self).indices_and_sizes@.len(),
        ensures
            ({
                let h = old(self).indices_and_sizes@[index as int];
                final(config)@ == old(config)@.with_events(
                    h.0 as int,
                    replace_range(old(config)@.sections[h.0 as int].events, h.1 as int, h.1 + h.2, Seq::empty()),
                )
            }),
            final(self).indices_and_sizes@ == shift_after(old(self).indices_and_sizes@, index as int, 0).remove(
                index as int,
            ),
            final(self).key == old(self).key,
            handles_valid(final(self).indices_and_sizes@, final(config)@),
            old(config)@.well_formed() ==> final(config)@.well_formed(),
    {
        let ghost hs = self.indices_and_sizes@;
        let ghost c = config@;
        let (sec, idx, size) = self.indices_and_sizes[index];
        assert(hs[index as int] == (sec, idx, size));
        assert(config.sections@[sec as int]@ == config@.sections[sec as int]);
        let _len = config.sections[sec].events.len();
        config.replace_events(sec, idx, idx + size, None);
        let mut shifted = shift_handles(&self.indices_and_sizes, index, 0);
        shifted.remove(index);
        self.indices_and_sizes = shifted;
        proof {
            let c2 = config@;
            let hs2 = shift_after(hs, index as int, 0);
            let hs3 = hs2.remove(index as int);
            let evs = c.sections[sec as int].events;
            assert(replace_range(evs, idx as int, idx + size, Seq::empty()).len() == evs.len() - size);
            assert forall|j: int| 0 <= j < hs3.len() implies (#[trigger] hs3[j]).0 < c2.sections.len()
                && hs3[j].2 >= 1 && hs3[j].1 + hs3[j].2 <= c2.sections[hs3[j].0 as int].events.len() by {
                let k = if j < index { j } else { j + 1 };
                assert(hs3[j] == hs2[k]);
                if hs[k].0 == sec {
                    if k < index {
                        assert(hs[k].1 + hs[k].2 <= idx);
                    } else {
                        assert(idx + size <= hs[k].1);
                    }
                }
            }
            assert forall|a: int, b: int| 0 <= a < b < hs3.len() implies (#[trigger] hs3[a]).0 < (
            #[trigger] hs3[b]).0 || (hs3[a].0 == hs3[b].0 && hs3[a].1 + hs3[a].2 <= hs3[b].1) by {
                let ka = if a < index { a } else { a + 1 };
                let kb = if b < index { b } else { b + 1 };
                assert(hs3[a] == hs2[ka]);
                assert(hs3[b] == hs2[kb]);
                assert(hs[ka].0 < hs[kb].0 || (hs[ka].0 == hs[kb].0 && hs[ka].1 + hs[ka].2 <= hs[kb].1));
                if ka < index && index < kb && hs[ka].0 == sec && hs[kb].0 == sec {
                    assert(hs[ka].1 + hs[ka].2 <= idx);
                    assert(idx + size <= hs[kb].1);
                }
            }
        }
    }
}

/// The configuration with the ranges of the handles removed, the last
/// handle's first.
pub open spec fn remove_handles(c: GitConfigV, hs: Seq<(usize, usize, usize)>) -> GitConfigV
    decreases hs.len(),
{
    if hs.len() == 0 {
        c
    } else {
        let h = hs.last();
        remove_handles(
            c.with_events(
                h.0 as int,
                replace_range(c.sections[h.0 as int].events, h.1 as int, h.1 + h.2, Seq::empty()),
            ),
            hs.drop_last(),
        )
    }
}

/// Whether handle `h` spans exactly one value event holding `v`.
pub open spec fn points_at_value(h: (usize, usize, usize), c: GitConfigV, v: Seq<u8>) -> bool {
    h.2 == 1 && c.sections[h.0 as int].events[h.1 as int] == EventV::Value(v)
}

impl<'lookup> MutableMultiValue<'lookup> {
    /// Sets handle `t` to `input` and keeps what the earlier handles point at.
    proof fn lemma_earlier_kept(
        hs: Seq<(usize, usize, usize)>,
        c: GitConfigV,
        t: int,
        v: Seq<u8>,
        tp: int,
        w: Seq<u8>,
    )
        requires
            handles_valid(hs, c),
            0 <= tp < t < hs.len(),
            points_at_value(hs[tp], c, w),
        ensures
            ({
                let h = hs[t];
                let c2 = c.with_events(
                    h.0 as int,
                    replace_range(c.sections[h.0 as int].events, h.1 as int, h.1 + h.2, seq![EventV::Value(v)]),
                );
                shift_after(hs, t, 1)[tp] == hs[tp] && points_at_value(hs[tp], c2, w)
            }),
    {
        let h = hs[t];
        let evs = c.sections[h.0 as int].events;
        let evs2 = replace_range(evs, h.1 as int, h.1 + h.2, seq![EventV::Value(v)]);
        if hs[tp].0 == h.0 {
            assert(hs[tp].1 + hs[tp].2 <= h.1);
            assert(evs2[hs[tp].1 as int] == evs[hs[tp].1 as int]);
        }
    }

    /// Sets the first values, one new value per handle in order, as far as
    /// both go.
    pub fn set_values(&mut self, config: &mut GitConfig, input: Vec<Vec<u8>>)
        requires
            handles_valid(old(self).indices_and_sizes@, old(config)@),
        ensures
            final(self).indices_and_sizes@.len() == old(self).indices_and_sizes@.len(),
            final(self).key == old(self).key,
            handles_valid(final(self).indices_and_sizes@, final(config)@),
            forall|t: int|
                0 <= t < old(self).indices_and_sizes@.len() && t < input@.len() ==> points_at_value(
                    #[trigger] final(self).indices_and_sizes@[t],
                    final(config)@,
                    input@[t]@,
                ),
            old(config)@.well_formed() ==> final(config)@.well_formed(),
    {
        let n = self.indices_and_sizes.len();
        let m = if input.len() < n { input.len() } else { n };
        let mut t: usize = 0;
        while t < m
            invariant
                m <= n,
                m <= input@.len(),
                n == self.indices_and_sizes@.len(),
                n == old(self).indices_and_sizes@.len(),
                self.key == old(self).key,
                t <= m,
                handles_valid(self.indices_and_sizes@, config@),
                forall|tp: int|
                    0 <= tp < t ==> points_at_value(
                        #[trigger] self.indices_and_sizes@[tp],
                        config@,
                        input@[tp]@,
                    ),
                old(config)@.well_formed() ==> config@.well_formed(),
            decreases m - t,
        {
            let ghost hs = self.indices_and_sizes@;
            let ghost c = config@;
            let v = copy_vec(&input[t]);
            self.set_value(config, t, v);
            proof {
                assert forall|tp: int| 0 <= tp < t + 1 implies points_at_value(
                    #[trigger] self.indices_and_sizes@[tp],
                    config@,
                    input@[tp]@,
                ) by {
                    if tp < t {
                        Self::lemma_earlier_kept(hs, c, t as int, input@[t as int]@, tp, input@[tp]@);
                    } else {
                        let h = hs[t as int];
                        let evs2 = replace_range(c.sections[h.0 as int].events, h.1 as int, h.1 + h.2, seq![EventV::Value(input@[t as int]@)]);
                        assert(evs2[h.1 as int] == EventV::Value(input@[t as int]@));
                    }
                }
            }
            t = t + 1;
        }
    }

    /// Sets every value to `input`.
    pub fn set_bytes_all(&mut self, config: &mut GitConfig, input: Vec<u8>)
        requires
            handles_valid(old(self).indices_and_sizes@, old(config)@),
        ensures
            final(self).indices_and_sizes@.len() == old(self).indices_and_sizes@.len(),
            final(self).key == old(self).key,
            handles_valid(final(self).indices_and_sizes@, final(config)@),
            forall|t: int|
                0 <= t < final(self).indices_and_sizes@.len() ==> points_at_value(
                    #[trigger] final(self).indices_and_sizes@[t],
                    final(config)@,
                    input@,
                ),
            old(config)@.well_formed() ==> final(config)@.well_formed(),
    {
        self.set_values_all(config, input);
    }

    /// Sets every value to the bytes of `input`.
    pub fn set_string_all(&mut self, config: &mut GitConfig, input: String)
        requires
            handles_valid(old(self).indices_and_sizes@, old(config)@),
        ensures
            final(self).indices_and_sizes@.len() == old(self).indices_and_sizes@.len(),
            handles_valid(final(self).indices_and_sizes@, final(config)@),
            forall|t: int|
                0 <= t < final(self).indices_and_sizes@.len() ==> points_at_value(
                    #[trigger] final(self).indices_and_sizes@[t],
                    final(config)@,
                    vstd::utf8::encode_utf8(input@),
                ),
            old(config)@.well_formed() ==> final(config)@.well_formed(),
    {
        self.set_values_all(config, string_bytes(&input));
    }

    /// Sets every value to `input`.
    pub fn set_values_all(&mut self, config: &mut GitConfig, input: Vec<u8>)
        requires
            handles_valid(old(self).indices_and_sizes@, old(config)@),
        ensures
            final(self).indices_and_sizes@.len() == old(self).indices_and_sizes@.len(),
            final(self).key == old(self).key,
            handles_valid(final(self).indices_and_sizes@, final(config)@),
            forall|t: int|
                0 <= t < final(self).indices_and_sizes@.len() ==> points_at_value(
                    #[trigger] final(self).indices_and_sizes@[t],
                    final(config)@,
                    input@,
                ),
            old(config)@.well_formed() ==> final(config)@.well_formed(),
    {
        let n = self.indices_and_sizes.len();
        let mut t: usize = 0;
        while t < n
            invariant
                n == self.indices_and_sizes@.len(),
                n == old(self).indices_and_sizes@.len(),
                self.key == old(self).key,
                t <= n,
                handles_valid(self.indices_and_sizes@, config@),
                forall|tp: int|
                    0 <= tp < t ==> points_at_value(#[trigger] self.indices_and_sizes@[tp], config@, input@),
                old(config)@.well_formed() ==> config@.well_formed(),
            decreases n - t,
        {
            let ghost hs = self.indices_and_sizes@;
            let ghost c = config@;
            let v = copy_vec(&input);
            self.set_value(config, t, v);
            proof {
                assert forall|tp: int| 0 <= tp < t + 1 implies points_at_value(
                    #[trigger] self.indices_and_sizes@[tp],
                    config@,
                    input@,
                ) by {
                    if tp < t {
                        Self::lemma_earlier_kept(hs, c, t as int, input@, tp, input@);
                    } else {
                        let h = hs[t as int];
                        let evs2 = replace_range(c.sections[h.0 as int].events, h.1 as int, h.1 + h.2, seq![EventV::Value(input@)]);
                        assert(evs2[h.1 as int] == EventV::Value(input@));
                    }
                }
            }
            t = t + 1;
        }
    }

    /// Removes every value and every handle.
    pub fn delete_all(&mut self, config: &mut GitConfig)
        requires
            handles_valid(old(self).indices_and_sizes@, old(config)@),
        ensures
            final(self).indices_and_sizes@.len() == 0,
            final(self).key == old(self).key,
            final(config)@ == remove_handles(old(config)@, old(self).indices_and_sizes@),
            final(config)@.front_matter == old(config)@.front_matter,
            final(config)@.sections.len() == old(config)@.sections.len(),
            forall|i: int|
                0 <= i < old(config)@.sections.len() ==> (#[trigger] final(config)@.sections[i]).header
                    == old(config)@.sections[i].header,
            old(config)@.well_formed() ==> final(config)@.well_formed(),
    {
        while self.indices_and_sizes.len() > 0
            invariant
                handles_valid(self.indices_and_sizes@, config@),
                self.key == old(self).key,
                config@.front_matter == old(config)@.front_matter,
                config@.sections.len() == old(config)@.sections.len(),
                forall|i: int|
                    0 <= i < old(config)@.sections.len() ==> (#[trigger] config@.sections[i]).header
                        == old(config)@.sections[i].header,
                old(config)@.well_formed() ==> config@.well_formed(),
                remove_handles(config@, self.indices_and_sizes@) == remove_handles(
                    old(config)@,
                    old(self).indices_and_sizes@,
                ),
            decreases self.indices_and_sizes@.len(),
        {
            let last = self.indices_and_sizes.len() - 1;
            let ghost c = config@;
            let ghost hs = self.indices_and_sizes@;
            self.delete(config, last);
            proof {
                assert(self.indices_and_sizes@ =~= hs.drop_last());
                assert forall|i: int| 0 <= i < old(config)@.sections.len() implies (
                #[trigger] config@.sections[i]).header == old(config)@.sections[i].header by {
                    assert(config@.sections[i].header == c.sections[i].header);
                }
            }
        }
    }
}

impl GitConfig {
    /// Handles on all values that `get_raw_multi_value` returns, in the same
    /// order.
    pub fn get_raw_multi_value_mut<'lookup>(
        &self,
        section_name: &'lookup str,
        subsection_name: Option<&'lookup str>,
        key: &'lookup str,
    ) -> (r: Result<MutableMultiValue<'lookup>, GitConfigError<'lookup>>)
        ensures
            r matches Ok(m) ==> m.key == key && handles_valid(m.indices_and_sizes@, self@)
                && m.indices_and_sizes@.len() > 0 && values_at(m.indices_and_sizes@, self@)
                == all_values(
                self@.sections,
                section_name.spec_bytes(),
                opt_bytes(subsection_name),
                key.spec_bytes(),
            ),
            r matches Err(e) ==> lookup_error(e, self@.sections, section_name, subsection_name, key),
    {
        match self.get_section_ids_by_name_and_subname(section_name, subsection_name) {
            Err(e) => return Err(e),
            Ok(_) => {},
        }
        let ghost secs = self@.sections;
        let ghost name = section_name.spec_bytes();
        let ghost sub = opt_bytes(subsection_name);
        let ghost k = key.spec_bytes();
        let name_bytes = section_name.as_bytes();
        let key_bytes = key.as_bytes();
        let n = self.sections.len();
        let mut hs: Vec<(usize, usize, usize)> = Vec::new();
        let mut i: usize = 0;
        assert(values_at(hs@, self@) =~= Seq::<Seq<u8>>::empty());
        while i < n
            invariant
                n == secs.len(),
                i <= n,
                secs == self@.sections,
                name_bytes@ == name,
                name == section_name.spec_bytes(),
                key_bytes@ == k,
                k == key.spec_bytes(),
                sub == opt_bytes(subsection_name),
                handles_valid(hs@, self@),
                forall|j: int| 0 <= j < hs@.len() ==> (#[trigger] hs@[j]).0 < i,
                values_at(hs@, self@) == values_upto(secs, name, sub, k, i as int),
            decreases n - i,
        {
            let section = &self.sections[i];
            assert(section@ == secs[i as int]);
            if crate::bytes::bytes_eq(section.header.name.as_slice(), name_bytes) && subsection_eq(
                &section.header.subsection_name,
                subsection_name,
            ) {
                let ranges = find_value_ranges(&section.events, key_bytes);
                let ghost evs = secs[i as int].events;
                let ghost base = hs@;
                let mut t: usize = 0;
                while t < ranges.len()
                    invariant
                        t <= ranges@.len(),
                        i < n,
                        n == secs.len(),
                        secs == self@.sections,
                        evs == secs[i as int].events,
                        evs == events_view(section.events@),
                        ranges_view(ranges@) == value_ranges(evs, k),
                        forall|x: int|
                            0 <= x < ranges@.len() ==> (#[trigger] ranges@[x]).0 < ranges@[x].1
                                <= section.events@.len(),
                        forall|a: int, b: int|
                            0 <= a < b < ranges@.len() ==> (#[trigger] ranges@[a]).1 <= (
                            #[trigger] ranges@[b]).0,
                        forall|j: int| 0 <= j < base.len() ==> (#[trigger] base[j]).0 < i,
                        handles_valid(base, self@),
                        handles_valid(hs@, self@),
                        hs@.len() == base.len() + t,
                        hs@.subrange(0, base.len() as int) == base,
                        forall|x: int|
                            0 <= x < t ==> #[trigger] hs@[base.len() + x] == (
                                i,
                                ranges@[x].0,
                                (ranges@[x].1 - ranges@[x].0) as usize,
                            ),
                        values_at(hs@, self@) == values_at(base, self@) + section_values(
                            evs,
                            k,
                        ).subrange(0, t as int),
                    decreases ranges@.len() - t,
                {
                    let (s, e) = ranges[t];
                    let ghost before = hs@;
                    hs.push((i, s, e - s));
                    proof {
                        assert(ranges_view(ranges@)[t as int] == (s as int, e as int));
                        assert(hs@.subrange(0, base.len() as int) =~= base);
                        assert forall|x: int| 0 <= x < t + 1 implies #[trigger] hs@[base.len() + x] == (
                            i,
                            ranges@[x].0,
                            (ranges@[x].1 - ranges@[x].0) as usize,
                        ) by {
                            if x < t {
                                assert(hs@[base.len() + x] == before[base.len() + x]);
                            }
                        }
                        assert(values_at(hs@, self@) =~= values_at(before, self@).push(
                            range_value(evs, (s as int, e as int)),
                        ));
                        assert(section_values(evs, k).subrange(0, t as int + 1) =~= section_values(
                            evs,
                            k,
                        ).subrange(0, t as int).push(range_value(evs, (s as int, e as int))));
                        assert forall|a: int, b: int| 0 <= a < b < hs@.len() implies (
                        #[trigger] hs@[a]).0 < (#[trigger] hs@[b]).0 || (hs@[a].0 == hs@[b].0
                            && hs@[a].1 + hs@[a].2 <= hs@[b].1) by {
                            if b < base.len() {
                                assert(hs@[a] == base[a] && hs@[b] == base[b]);
                            } else if a < base.len() {
                                let xb = b - base.len();
                                assert(hs@[base.len() + xb] == (i, ranges@[xb].0, (ranges@[xb].1 - ranges@[xb].0) as usize));
                                assert(hs@[a] == base[a]);
                                assert(hs@[b].0 == i);
                            } else {
                                let xa = a - base.len();
                                let xb = b - base.len();
                                assert(hs@[base.len() + xa] == (i, ranges@[xa].0, (ranges@[xa].1 - ranges@[xa].0) as usize));
                                assert(hs@[base.len() + xb] == (i, ranges@[xb].0, (ranges@[xb].1 - ranges@[xb].0) as usize));
                                assert(hs@[a] == (i, ranges@[xa].0, (ranges@[xa].1 - ranges@[xa].0) as usize));
                                assert(hs@[b] == (i, ranges@[xb].0, (ranges@[xb].1 - ranges@[xb].0) as usize));
                                assert(ranges@[xa].1 <= ranges@[xb].0);
                            }
                        }
                        assert forall|j: int| 0 <= j < hs@.len() implies (#[trigger] hs@[j]).0
                            < self@.sections.len() && hs@[j].2 >= 1 && hs@[j].1 + hs@[j].2
                            <= self@.sections[hs@[j].0 as int].events.len() by {
                            if j < base.len() {
                                assert(hs@[j] == base[j]);
                            } else {
                                let x = j - base.len();
                                assert(hs@[base.len() + x] == (i, ranges@[x].0, (ranges@[x].1 - ranges@[x].0) as usize));
                                assert(hs@[j] == (i, ranges@[x].0, (ranges@[x].1 - ranges@[x].0) as usize));
                            }
                        }
                    }
                    t = t + 1;
                }
                proof {
                    assert(section_values(evs, k).subrange(0, t as int) =~= section_values(evs, k));
                    assert forall|j: int| 0 <= j < hs@.len() implies (#[trigger] hs@[j]).0 < i + 1 by {
                        if j < base.len() {
                            assert(hs@[j] == base[j]);
                        } else {
                            let x = j - base.len();
                            assert(hs@[base.len() + x] == (i, ranges@[x].0, (ranges@[x].1 - ranges@[x].0) as usize));
                            assert(hs@[j] == (i, ranges@[x].0, (ranges@[x].1 - ranges@[x].0) as usize));
                        }
                    }
                }
            }
            i = i + 1;
        }
        if hs.len() == 0 {
            return Err(GitConfigError::KeyDoesNotExist(key));
        }
        Ok(MutableMultiValue { key, indices_and_sizes: hs })
    }
}

impl GitConfig {
    /// Sets the values of a multivar in file order, one new value per old
    /// value, as far as both go.
    pub fn set_raw_multi_value<'lookup>(
        &mut self,
        section_name: &'lookup str,
        subsection_name: Option<&'lookup str>,
        key: &'lookup str,
        new_values: Vec<Vec<u8>>,
    ) -> (r: Result<(), GitConfigError<'lookup>>)
        ensures
            r matches Err(e) ==> lookup_error(e, old(self)@.sections, section_name, subsection_name, key)
                && final(self)@ == old(self)@,
            r is Ok ==> exists|hs: Seq<(usize, usize, usize)>|
                handles_valid(hs, final(self)@) && hs.len() == all_values(
                    old(self)@.sections,
                    section_name.spec_bytes(),
                    opt_bytes(subsection_name),
                    key.spec_bytes(),
                ).len() && forall|t: int|
                    0 <= t < hs.len() && t < new_values@.len() ==> points_at_value(
                        #[trigger] hs[t],
                        final(self)@,
                        new_values@[t]@,
                    ),
            r is Ok <==> all_values(
                old(self)@.sections,
                section_name.spec_bytes(),
                opt_bytes(subsection_name),
                key.spec_bytes(),
            ).len() > 0,
            old(self)@.well_formed() ==> final(self)@.well_formed(),
    {
        proof {
            let vals = all_values(
                self@.sections,
                section_name.spec_bytes(),
                opt_bytes(subsection_name),
                key.spec_bytes(),
            );
            if vals.len() > 0 {
                lemma_values_need_subsection(
                    self@.sections,
                    section_name.spec_bytes(),
                    opt_bytes(subsection_name),
                    key.spec_bytes(),
                    self@.sections.len() as int,
                );
            }
        }
        match self.get_raw_multi_value_mut(section_name, subsection_name, key) {
            Ok(mut m) => {
                assert(values_at(m.indices_and_sizes@, self@).len() == m.indices_and_sizes@.len());
                m.set_values(self, new_values);
                assert(handles_valid(m.indices_and_sizes@, self@));
                Ok(())
            },
            Err(e) => Err(e),
        }
    }

    /// The value that `get_raw_value` returns, converted to `T`.
    pub fn get_value<'lookup, T: TryFrom<Vec<u8>>>(
        &self,
        section_name: &'lookup str,
        subsection_name: Option<&'lookup str>,
        key: &'lookup str,
    ) -> (r: Result<T, GitConfigError<'lookup>>)
        ensures
            r is Ok ==> all_values(
                self@.sections,
                section_name.spec_bytes(),
                opt_bytes(subsection_name),
                key.spec_bytes(),
            ).len() > 0,
            r matches Err(e) ==> e is FailedConversion || lookup_error(
                e,
                self@.sections,
                section_name,
                subsection_name,
                key,
            ),
    {
        match self.get_raw_value(section_name, subsection_name, key) {
            Ok(v) => match T::try_from(v) {
                Ok(t) => Ok(t),
                Err(_) => Err(GitConfigError::FailedConversion),
            },
            Err(e) => Err(e),
        }
    }
}

impl GitConfig {
    /// The values that `get_raw_multi_value` returns, each converted to `T`.
    pub fn get_multi_value<'lookup, T: TryFrom<Vec<u8>>>(
        &self,
        section_name: &'lookup str,
        subsection_name: Option<&'lookup str>,
        key: &'lookup str,
    ) -> (r: Result<Vec<T>, GitConfigError<'lookup>>)
        ensures
            r matches Ok(v) ==> v@.len() == all_values(
                self@.sections,
                section_name.spec_bytes(),
                opt_bytes(subsection_name),
                key.spec_bytes(),
            ).len() && v@.len() > 0,
            r matches Err(e) ==> e is FailedConversion || lookup_error(
                e,
                self@.sections,
                section_name,
                subsection_name,
                key,
            ),
    {
        let raw = match self.get_raw_multi_value(section_name, subsection_name, key) {
            Ok(v) => v,
            Err(e) => return Err(e),
        };
        let mut out: Vec<T> = Vec::new();
        let mut i: usize = 0;
        while i < raw.len()
            invariant
                i <= raw@.len(),
                out@.len() == i,
            decreases raw@.len() - i,
        {
            match T::try_from(copy_vec(&raw[i])) {
                Ok(t) => out.push(t),
                Err(_) => return Err(GitConfigError::FailedConversion),
            }
            i = i + 1;
        }
        assert(bytes_view(raw@).len() == raw@.len());
        Ok(out)
    }
}

proof fn lemma_values_after_last(
    secs: Seq<SectionV>,
    name: Seq<u8>,
    sub: Option<Seq<u8>>,
    key: Seq<u8>,
    i: int,
    n: int,
)
    requires
        0 <= i < n <= secs.len(),
        section_matches(secs[i], name, sub),
        forall|j: int| i < j < secs.len() && section_matches(#[trigger] secs[j], name, sub) ==> value_ranges(
            secs[j].events,
            key,
        ).len() == 0,
    ensures
        values_upto(secs, name, sub, key, n) == values_upto(secs, name, sub, key, i) + section_values(
            secs[i].events,
            key,
        ),
    decreases n,
{
    if n > i + 1 {
        lemma_values_after_last(secs, name, sub, key, i, n - 1);
        if section_matches(secs[n - 1], name, sub) {
            assert(section_values(secs[n - 1].events, key) =~= Seq::<Seq<u8>>::empty());
            assert(values_upto(secs, name, sub, key, n) =~= values_upto(secs, name, sub, key, n - 1));
        }
    }
}

/// After the last value of a key is replaced by `v`, reading the key gives
/// `v` (with its quotes resolved).
pub proof fn lemma_set_last_value_reads_back(
    c: GitConfigV,
    name: Seq<u8>,
    sub: Option<Seq<u8>>,
    key: Seq<u8>,
    i: int,
    s: int,
    e: int,
    v: Seq<u8>,
)
    requires
        is_last_occurrence(c.sections, name, sub, key, i, s, e),
    ensures
        ({
            let c2 = c.with_events(i, replace_range(c.sections[i].events, s, e, seq![EventV::Value(v)]));
            all_values(c2.sections, name, sub, key).len() > 0 && all_values(c2.sections, name, sub, key).last()
                == crate::config::values::normalize(v)
        }),
{
    let evs = c.sections[i].events;
    let nevs = replace_range(evs, s, e, seq![EventV::Value(v)]);
    let c2 = c.with_events(i, nevs);
    let secs2 = c2.sections;
    crate::config::values::lemma_replace_last_value(evs, key, s, e, v);
    assert(nevs == evs.subrange(0, s) + seq![EventV::Value(v)] + evs.subrange(e, evs.len() as int));
    assert forall|j: int| i < j < secs2.len() && section_matches(#[trigger] secs2[j], name, sub) implies value_ranges(
        secs2[j].events,
        key,
    ).len() == 0 by {
        assert(secs2[j] == c.sections[j]);
    }
    lemma_values_after_last(secs2, name, sub, key, i, secs2.len() as int);
    let sv = section_values(nevs, key);
    assert(sv.last() == range_value(nevs, value_ranges(nevs, key).last()));
}

} // verus!
