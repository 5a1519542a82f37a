//! What the values of a key are, read from the events of a section.
use crate::bytes::{extend_bytes, BACKSLASH, QUOTE};
use crate::config::event::{Event, EventV, events_view};
use vstd::prelude::*;

verus! {

/// A value as written, with its quotes and escaped quotes resolved: a quote
/// that is not escaped is dropped and `\"` stands for a quote.
pub open spec fn normalize(v: Seq<u8>) -> Seq<u8>
    decreases v.len(),
{
    if v.len() == 0 {
        Seq::empty()
    } else if v[0] == QUOTE {
        normalize(v.drop_first())
    } else if v[0] == BACKSLASH && v.len() >= 2 {
        if v[1] == QUOTE {
            seq![QUOTE] + normalize(v.subrange(2, v.len() as int))
        } else {
            seq![v[0], v[1]] + normalize(v.subrange(2, v.len() as int))
        }
    } else {
        seq![v[0]] + normalize(v.drop_first())
    }
}

/// The bytes that a value event contributes to its value.
pub open spec fn payload(e: EventV) -> Seq<u8> {
    match e {
        EventV::Value(v) => v,
        EventV::ValueNotDone(v) => v,
        EventV::ValueDone(v) => v,
        _ => Seq::empty(),
    }
}

/// The payloads of the events in `[s, e)`, one after the other.
pub open spec fn range_payload(evs: Seq<EventV>, s: int, e: int) -> Seq<u8>
    decreases e - s,
{
    if e <= s {
        Seq::empty()
    } else {
        range_payload(evs, s, e - 1) + payload(evs[e - 1])
    }
}

/// The value that the events in `[r.0, r.1)` spell.
pub open spec fn range_value(evs: Seq<EventV>, r: (int, int)) -> Seq<u8> {
    normalize(range_payload(evs, r.0, r.1))
}

/// The state of a left-to-right reading of a section's events for one key:
/// whether the key was just read, where a continued value started, and the
/// ranges of the values read so far.
pub struct ScanState {
    pub found: bool,
    pub pending: Option<int>,
    pub ranges: Seq<(int, int)>,
}

pub open spec fn scan_step(st: ScanState, e: EventV, k: int, key: Seq<u8>) -> ScanState {
    match e {
        EventV::Key(name) => if name == key {
            ScanState { found: true, ..st }
        } else {
            st
        },
        EventV::Value(_) => if st.found {
            ScanState { found: false, pending: None, ranges: st.ranges.push((k, k + 1)) }
        } else {
            st
        },
        EventV::ValueNotDone(_) => if st.found {
            match st.pending {
                Some(_) => st,
                None => ScanState { pending: Some(k), ..st },
            }
        } else {
            st
        },
        EventV::ValueDone(_) => if st.found {
            let start = match st.pending {
                Some(p) => p,
                None => k,
            };
            ScanState { found: false, pending: None, ranges: st.ranges.push((start, k + 1)) }
        } else {
            st
        },
        _ => st,
    }
}

pub open spec fn scan_upto(evs: Seq<EventV>, key: Seq<u8>, n: int) -> ScanState
    decreases n,
{
    if n <= 0 {
        ScanState { found: false, pending: None, ranges: Seq::empty() }
    } else {
        scan_step(scan_upto(evs, key, n - 1), evs[n - 1], n - 1, key)
    }
}

/// The event ranges of the values of `key` in a section body, in order.
pub open spec fn value_ranges(evs: Seq<EventV>, key: Seq<u8>) -> Seq<(int, int)> {
    scan_upto(evs, key, evs.len() as int).ranges
}

/// The values of `key` in a section body, in order.
pub open spec fn section_values(evs: Seq<EventV>, key: Seq<u8>) -> Seq<Seq<u8>> {
    value_ranges(evs, key).map_values(|r: (int, int)| range_value(evs, r))
}

pub open spec fn ranges_view(r: Seq<(usize, usize)>) -> Seq<(int, int)> {
    r.map_values(|p: (usize, usize)| (p.0 as int, p.1 as int))
}

/// Resolves quotes and escaped quotes in a value as written.
pub fn normalize_bytes(v: &[u8]) -> (r: Vec<u8>)
    ensures
        r@ == normalize(v@),
{
    let n = v.len();
    let mut out: Vec<u8> = Vec::new();
    let mut i: usize = 0;
    assert(out@ + normalize(v@.subrange(0, n as int)) =~= normalize(v@)) by {
        assert(v@.subrange(0, n as int) =~= v@);
    }
    while i < n
        invariant
            n == v@.len(),
            i <= n,
            out@ + normalize(v@.subrange(i as int, n as int)) == normalize(v@),
        decreases n - i,
    {
        let ghost rest = v@.subrange(i as int, n as int);
        if v[i] == QUOTE {
            assert(rest.drop_first() =~= v@.subrange(i as int + 1, n as int));
            i = i + 1;
        } else if v[i] == BACKSLASH && i + 1 < n {
            assert(rest.subrange(2, rest.len() as int) =~= v@.subrange(i as int + 2, n as int));
            if v[i + 1] == QUOTE {
                out.push(QUOTE);
            } else {
                out.push(v[i]);
                out.push(v[i + 1]);
            }
            assert(out@ + normalize(v@.subrange(i as int + 2, n as int)) =~= normalize(v@));
            i = i + 2;
        } else {
            assert(rest.drop_first() =~= v@.subrange(i as int + 1, n as int));
            out.push(v[i]);
            assert(out@ + normalize(v@.subrange(i as int + 1, n as int)) =~= normalize(v@));
            i = i + 1;
        }
    }
    assert(out@ + normalize(v@.subrange(n as int, n as int)) =~= out@);
    out
}

/// The value that the events in `[s, e)` spell.
pub fn value_in_range(events: &Vec<Event>, s: usize, e: usize) -> (r: Vec<u8>)
    requires
        s <= e <= events@.len(),
    ensures
        r@ == range_value(events_view(events@), (s as int, e as int)),
{
    let ghost evs = events_view(events@);
    let mut raw: Vec<u8> = Vec::new();
    let mut k: usize = s;
    while k < e
        invariant
            s <= k <= e <= events@.len(),
            evs == events_view(events@),
            raw@ == range_payload(evs, s as int, k as int),
        decreases e - k,
    {
        match &events[k] {
            Event::Value(v) => extend_bytes(&mut raw, v.as_slice()),
            Event::ValueNotDone(v) => extend_bytes(&mut raw, v.as_slice()),
            Event::ValueDone(v) => extend_bytes(&mut raw, v.as_slice()),
            _ => {},
        }
        k = k + 1;
        assert(raw@ =~= range_payload(evs, s as int, k as int - 1) + payload(evs[k as int - 1]));
    }
    normalize_bytes(raw.as_slice())
}

/// The event ranges of the values of `key` in a section body, in order.
pub fn find_value_ranges(events: &Vec<Event>, key: &[u8]) -> (r: Vec<(usize, usize)>)
    ensures
        ranges_view(r@) == value_ranges(events_view(events@), key@),
        forall|i: int| 0 <= i < r@.len() ==> (#[trigger] r@[i]).0 < r@[i].1 <= events@.len(),
        forall|a: int, b: int| 0 <= a < b < r@.len() ==> (#[trigger] r@[a]).1 <= (#[trigger] r@[b]).0,
{
    let ghost evs = events_view(events@);
    let n = events.len();
    let mut found = false;
    let mut pending: Option<usize> = None;
    let mut ranges: Vec<(usize, usize)> = Vec::new();
    let mut k: usize = 0;
    assert(ranges_view(ranges@) =~= Seq::<(int, int)>::empty());
    while k < n
        invariant
            n == events@.len(),
            k <= n,
            evs == events_view(events@),
            found == scan_upto(evs, key@, k as int).found,
            (match pending {
                Some(p) => Some(p as int),
                None => None,
            }) == scan_upto(evs, key@, k as int).pending,
            pending matches Some(p) ==> p < k,
            ranges_view(ranges@) == scan_upto(evs, key@, k as int).ranges,
            forall|i: int| 0 <= i < ranges@.len() ==> (#[trigger] ranges@[i]).0 < ranges@[i].1 <= k,
            forall|a: int, b: int|
                0 <= a < b < ranges@.len() ==> (#[trigger] ranges@[a]).1 <= (#[trigger] ranges@[b]).0,
            pending matches Some(p) ==> ranges@.len() == 0 || ranges@.last().1 <= p,
        decreases n - k,
    {
        let ghost before = ranges@;
        match &events[k] {
            Event::Key(name) => {
                if crate::bytes::bytes_eq(name.as_slice(), key) {
                    found = true;
                }
            },
            Event::Value(_) => {
                if found {
                    found = false;
                    pending = None;
                    ranges.push((k, k + 1));
                }
            },
            Event::ValueNotDone(_) => {
                if found && pending.is_none() {
                    pending = Some(k);
                }
            },
            Event::ValueDone(_) => {
                if found {
                    let start = match pending {
                        Some(p) => p,
                        None => k,
                    };
                    found = false;
                    pending = None;
                    ranges.push((start, k + 1));
                }
            },
            _ => {},
        }
        assert(ranges_view(ranges@) =~= scan_upto(evs, key@, k as int + 1).ranges);
        k = k + 1;
    }
    ranges
}

/// The reading of the first `m` events depends on those events alone.
pub proof fn lemma_scan_prefix(a: Seq<EventV>, b: Seq<EventV>, key: Seq<u8>, m: int)
    requires
        0 <= m <= a.len(),
        m <= b.len(),
        forall|j: int| 0 <= j < m ==> a[j] == b[j],
    ensures
        scan_upto(a, key, m) == scan_upto(b, key, m),
    decreases m,
{
    if m > 0 {
        lemma_scan_prefix(a, b, key, m - 1);
    }
}

/// Each range ends by the events read so far and starts where the key had
/// just been read; so does a pending value.
pub proof fn lemma_scan_shape(evs: Seq<EventV>, key: Seq<u8>, m: int)
    requires
        0 <= m <= evs.len(),
    ensures
        forall|j: int|
            0 <= j < scan_upto(evs, key, m).ranges.len() ==> (#[trigger] scan_upto(evs, key, m).ranges[j]).1 <= m
                && 0 <= scan_upto(evs, key, m).ranges[j].0 && scan_upto(evs, key, scan_upto(evs, key, m).ranges[j].0).found,
        scan_upto(evs, key, m).pending matches Some(p) ==> 0 <= p < m && scan_upto(evs, key, p).found,
    decreases m,
{
    if m > 0 {
        lemma_scan_shape(evs, key, m - 1);
        let st = scan_upto(evs, key, m - 1);
        let st2 = scan_upto(evs, key, m);
        assert forall|j: int| 0 <= j < st2.ranges.len() implies (#[trigger] st2.ranges[j]).1 <= m
            && 0 <= st2.ranges[j].0 && scan_upto(evs, key, st2.ranges[j].0).found by {
            if j < st.ranges.len() {
                assert(st2.ranges[j] == st.ranges[j]);
            }
        }
    }
}

/// Reading on from `m` to `m2` keeps the ranges read by `m`; every range
/// added ends after `m`.
pub proof fn lemma_scan_grows(evs: Seq<EventV>, key: Seq<u8>, m: int, m2: int)
    requires
        0 <= m <= m2 <= evs.len(),
    ensures
        scan_upto(evs, key, m).ranges.len() <= scan_upto(evs, key, m2).ranges.len(),
        forall|j: int|
            0 <= j < scan_upto(evs, key, m).ranges.len() ==> #[trigger] scan_upto(evs, key, m2).ranges[j]
                == scan_upto(evs, key, m).ranges[j],
        forall|j: int|
            scan_upto(evs, key, m).ranges.len() <= j < scan_upto(evs, key, m2).ranges.len() ==> (
            #[trigger] scan_upto(evs, key, m2).ranges[j]).1 > m,
    decreases m2 - m,
{
    if m2 > m {
        lemma_scan_grows(evs, key, m, m2 - 1);
    }
}

/// Two readings of the same events, offset from each other, that agree at
/// their starts on whether the key was just read and whether a value is
/// pending, add ranges at the same events.
pub proof fn lemma_scan_shifted(a: Seq<EventV>, b: Seq<EventV>, key: Seq<u8>, ea: int, sb: int, j: int)
    requires
        0 <= ea <= a.len(),
        0 <= sb <= b.len(),
        a.len() - ea == b.len() - sb,
        0 <= j <= a.len() - ea,
        forall|t: int| 0 <= t < a.len() - ea ==> #[trigger] a[ea + t] == b[sb + t],
        scan_upto(a, key, ea).found == scan_upto(b, key, sb).found,
        scan_upto(a, key, ea).pending is Some == scan_upto(b, key, sb).pending is Some,
    ensures
        scan_upto(a, key, ea + j).found == scan_upto(b, key, sb + j).found,
        scan_upto(a, key, ea + j).pending is Some == scan_upto(b, key, sb + j).pending is Some,
        scan_upto(a, key, ea + j).ranges.len() - scan_upto(a, key, ea).ranges.len() == scan_upto(b, key, sb + j).ranges.len()
            - scan_upto(b, key, sb).ranges.len(),
    decreases j,
{
    if j > 0 {
        lemma_scan_shifted(a, b, key, ea, sb, j - 1);
        assert(a[ea + (j - 1)] == b[sb + (j - 1)]);
    }
}

/// Replacing the events of the last value of `key` by one value event `v`
/// makes that event the last value.
pub proof fn lemma_replace_last_value(evs: Seq<EventV>, key: Seq<u8>, s: int, e: int, v: Seq<u8>)
    requires
        value_ranges(evs, key).len() > 0,
        value_ranges(evs, key).last() == (s, e),
    ensures
        ({
            let nevs = evs.subrange(0, s) + seq![EventV::Value(v)] + evs.subrange(e, evs.len() as int);
            value_ranges(nevs, key).len() > 0 && value_ranges(nevs, key).last() == (s, s + 1)
                && range_value(nevs, (s, s + 1)) == normalize(v)
        }),
{
    let n = evs.len() as int;
    let nevs = evs.subrange(0, s) + seq![EventV::Value(v)] + evs.subrange(e, n);
    let l = scan_upto(evs, key, n).ranges;
    lemma_scan_shape(evs, key, n);
    assert(l[l.len() - 1] == (s, e));
    assert(0 <= s < e <= n) by {
        lemma_scan_grows(evs, key, 0, n);
        lemma_scan_shape_starts(evs, key, n, l.len() - 1);
    }
    assert(scan_upto(evs, key, s).found);
    lemma_scan_prefix(evs, nevs, key, s);
    assert(nevs[s] == EventV::Value(v));
    let st_s1 = scan_upto(nevs, key, s + 1);
    assert(st_s1.ranges.last() == (s, s + 1));
    assert(!st_s1.found && st_s1.pending is None);
    // In the old events, nothing is read after the last range ends.
    lemma_scan_grows(evs, key, e, n);
    let re = scan_upto(evs, key, e).ranges;
    if re.len() < l.len() {
        assert(l[l.len() - 1].1 > e);
    }
    assert(re.len() == l.len());
    lemma_scan_grows(evs, key, e - 1, e);
    lemma_scan_shape(evs, key, e - 1);
    let rp = scan_upto(evs, key, e - 1).ranges;
    if rp.len() == re.len() {
        assert(re[re.len() - 1] == rp[rp.len() - 1]);
        assert(rp[rp.len() - 1].1 <= e - 1);
        assert(re[re.len() - 1] == l[l.len() - 1]);
    }
    assert(rp.len() < re.len());
    assert(!scan_upto(evs, key, e).found && scan_upto(evs, key, e).pending is None);
    assert forall|t: int| 0 <= t < n - e implies #[trigger] evs[e + t] == nevs[s + 1 + t] by {}
    lemma_scan_shifted(evs, nevs, key, e, s + 1, n - e);
    assert(nevs.len() == s + 1 + (n - e));
    let lb = scan_upto(nevs, key, nevs.len() as int).ranges;
    lemma_scan_grows(nevs, key, s + 1, nevs.len() as int);
    assert(lb.len() == st_s1.ranges.len());
    assert(lb[lb.len() - 1] == st_s1.ranges[st_s1.ranges.len() - 1]);
    assert(range_payload(nevs, s, s) == Seq::<u8>::empty());
    assert(range_payload(nevs, s, s + 1) =~= v);
}

proof fn lemma_scan_shape_starts(evs: Seq<EventV>, key: Seq<u8>, n: int, j: int)
    requires
        0 <= n <= evs.len(),
        0 <= j < scan_upto(evs, key, n).ranges.len(),
    ensures
        scan_upto(evs, key, n).ranges[j].0 < scan_upto(evs, key, n).ranges[j].1,
    decreases n,
{
    if n > 0 {
        let st = scan_upto(evs, key, n - 1);
        if j < st.ranges.len() {
            lemma_scan_shape_starts(evs, key, n - 1, j);
        } else {
            lemma_scan_shape(evs, key, n - 1);
        }
    }
}

} // verus!
