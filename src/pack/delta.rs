//! Binary deltas: copy and insert instructions that rebuild an object from
//! a base object.
use crate::bytes::extend_bytes;
use vstd::prelude::*;

verus! {

/// A little-endian base-128 number at `p`: `acc` so far, the next seven bits
/// go to `shift`.
pub open spec fn leb_rest(d: Seq<u8>, p: int, acc: u64, shift: u64, fuel: nat) -> Option<(u64, int)>
    decreases fuel,
{
    if p < 0 || p >= d.len() || fuel == 0 || shift >= 64 {
        None
    } else {
        let c = d[p];
        let acc2 = acc | (((c & 0x7f) as u64) << shift);
        if c & 0x80 == 0 {
            Some((acc2, p + 1))
        } else {
            leb_rest(d, p + 1, acc2, (shift + 7) as u64, (fuel - 1) as nat)
        }
    }
}

/// The size at `p` in a delta's header, and where it ends.
pub open spec fn leb_at(d: Seq<u8>, p: int) -> Option<(u64, int)> {
    leb_rest(d, p, 0, 0, 10)
}

/// Reads one operand byte at `p` into bits `shift..` of `acc` if `present`.
pub open spec fn operand_byte(d: Seq<u8>, at: Option<(u64, int)>, present: bool, shift: u64) -> Option<
    (u64, int),
> {
    match at {
        None => None,
        Some((acc, p)) => if !present {
            Some((acc, p))
        } else if 0 <= p < d.len() {
            Some((acc | ((d[p] as u64) << shift), p + 1))
        } else {
            None
        },
    }
}

/// The offset of a copy instruction with opcode `op` whose operands start at `p`.
pub open spec fn copy_offset(d: Seq<u8>, p: int, op: u8) -> Option<(u64, int)> {
    let a = operand_byte(d, Some((0u64, p)), op & 1 != 0, 0);
    let b = operand_byte(d, a, op & 2 != 0, 8);
    let c = operand_byte(d, b, op & 4 != 0, 16);
    operand_byte(d, c, op & 8 != 0, 24)
}

/// The size of a copy instruction whose size operands start at `p`; zero
/// stands for 0x10000.
pub open spec fn copy_size(d: Seq<u8>, p: int, op: u8) -> Option<(u64, int)> {
    let a = operand_byte(d, Some((0u64, p)), op & 0x10 != 0, 0);
    let b = operand_byte(d, a, op & 0x20 != 0, 8);
    match operand_byte(d, b, op & 0x40 != 0, 16) {
        Some((s, q)) => Some((if s == 0 { 0x10000u64 } else { s }, q)),
        None => None,
    }
}

/// Runs the instructions from `p` on, appending to `out`.
pub open spec fn run_delta(base: Seq<u8>, d: Seq<u8>, p: int, out: Seq<u8>, fuel: nat) -> Option<Seq<u8>>
    decreases fuel,
{
    if p < 0 || p >= d.len() {
        Some(out)
    } else if fuel == 0 {
        None
    } else {
        let op = d[p];
        if op & 0x80 != 0 {
            match copy_offset(d, p + 1, op) {
                None => None,
                Some((off, q)) => match copy_size(d, q, op) {
                    None => None,
                    Some((size, r)) => if off + size > base.len() {
                        None
                    } else {
                        run_delta(
                            base,
                            d,
                            r,
                            out + base.subrange(off as int, off + size),
                            (fuel - 1) as nat,
                        )
                    },
                },
            }
        } else if op != 0 {
            if p + 1 + op > d.len() {
                None
            } else {
                run_delta(base, d, p + 1 + op, out + d.subrange(p + 1, p + 1 + op), (fuel - 1) as nat)
            }
        } else {
            None
        }
    }
}

/// The object that delta `d` rebuilds from `base`, if `d` is a valid delta
/// for it: the base size it names matches, every instruction stays within
/// its bounds, and the result has the size the delta names.
pub open spec fn apply_delta(base: Seq<u8>, d: Seq<u8>) -> Option<Seq<u8>> {
    match leb_at(d, 0) {
        None => None,
        Some((src, src_end)) => match leb_at(d, src_end) {
            None => None,
            Some((dst, dst_end)) => if src != base.len() {
                None
            } else {
                match run_delta(base, d, dst_end, Seq::empty(), d.len()) {
                    Some(out) => if out.len() == dst {
                        Some(out)
                    } else {
                        None
                    },
                    None => None,
                }
            },
        },
    }
}

fn read_leb(d: &[u8], p: usize) -> (r: Option<(u64, usize)>)
    ensures
        match r {
            Some((v, q)) => leb_at(d@, p as int) == Some((v, q as int)),
            None => leb_at(d@, p as int) is None,
        },
{
    let n = d.len();
    let mut acc: u64 = 0;
    let mut shift: u64 = 0;
    let mut fuel: u64 = 10;
    let mut i: usize = p;
    while i < n && fuel > 0 && shift < 64
        invariant
            n == d@.len(),
            p <= i,
            leb_at(d@, p as int) == leb_rest(d@, i as int, acc, shift, fuel as nat),
        decreases fuel,
    {
        let c = d[i];
        let acc2 = acc | (((c & 0x7f) as u64) << shift);
        if c & 0x80 == 0 {
            assert(leb_rest(d@, i as int, acc, shift, fuel as nat) == Some((acc2, i as int + 1)));
            return Some((acc2, i + 1));
        }
        acc = acc2;
        shift = shift + 7;
        fuel = fuel - 1;
        i = i + 1;
    }
    None
}

fn read_operand(d: &[u8], acc: u64, p: usize, present: bool, shift: u64) -> (r: Option<(u64, usize)>)
    requires
        shift < 64,
    ensures
        match r {
            Some((v, q)) => operand_byte(d@, Some((acc, p as int)), present, shift) == Some((v, q as int)),
            None => operand_byte(d@, Some((acc, p as int)), present, shift) is None,
        },
{
    if !present {
        Some((acc, p))
    } else if p < d.len() {
        Some((acc | ((d[p] as u64) << shift), p + 1))
    } else {
        None
    }
}

/// Rebuilds the object that delta `d` describes from `base`.
pub fn apply_delta_to(base: &[u8], d: &[u8]) -> (r: Option<Vec<u8>>)
    ensures
        match r {
            Some(v) => apply_delta(base@, d@) == Some(v@),
            None => apply_delta(base@, d@) is None,
        },
{
    let n = d.len();
    let (src, src_end) = match read_leb(d, 0) {
        Some(x) => x,
        None => return None,
    };
    let (dst, dst_end) = match read_leb(d, src_end) {
        Some(x) => x,
        None => return None,
    };
    if src != base.len() as u64 {
        return None;
    }
    let mut out: Vec<u8> = Vec::new();
    let mut p: usize = dst_end;
    let mut fuel: usize = n;
    assert(out@ =~= Seq::<u8>::empty());
    while p < n
        invariant
            n == d@.len(),
            leb_at(d@, 0) == Some((src, src_end as int)),
            leb_at(d@, src_end as int) == Some((dst, dst_end as int)),
            src == base@.len(),
            run_delta(base@, d@, dst_end as int, Seq::empty(), n as nat) == run_delta(
                base@,
                d@,
                p as int,
                out@,
                fuel as nat,
            ),
        decreases fuel,
    {
        if fuel == 0 {
            return None;
        }
        let op = d[p];
        if op & 0x80 != 0 {
            if p + 1 > n {
                return None;
            }
            let ghost oa = operand_byte(d@, Some((0u64, p + 1)), op & 1 != 0, 0);
            let ghost ob = operand_byte(d@, oa, op & 2 != 0, 8);
            let ghost oc = operand_byte(d@, ob, op & 4 != 0, 16);
            let a = read_operand(d, 0, p + 1, op & 1 != 0, 0);
            let b = match a { Some((v, q)) => read_operand(d, v, q, op & 2 != 0, 8), None => return None };
            let c = match b { Some((v, q)) => read_operand(d, v, q, op & 4 != 0, 16), None => return None };
            let (off, q) = match c {
                Some((v, q)) => match read_operand(d, v, q, op & 8 != 0, 24) {
                    Some(x) => x,
                    None => return None,
                },
                None => return None,
            };
            let sa = read_operand(d, 0, q, op & 0x10 != 0, 0);
            let sb = match sa { Some((v, t)) => read_operand(d, v, t, op & 0x20 != 0, 8), None => return None };
            let (s0, r) = match sb {
                Some((v, t)) => match read_operand(d, v, t, op & 0x40 != 0, 16) {
                    Some(x) => x,
                    None => return None,
                },
                None => return None,
            };
            let size = if s0 == 0 { 0x10000u64 } else { s0 };
            assert(copy_offset(d@, p + 1, op) == Some((off, q as int)));
            assert(copy_size(d@, q as int, op) == Some((size, r as int)));
            if off > base.len() as u64 || size > base.len() as u64 - off {
                return None;
            }
            let start = off as usize;
            let end = (off + size) as usize;
            let ghost before = out@;
            extend_bytes(&mut out, &base[start..end]);
            assert(out@ == before + base@.subrange(off as int, off + size));
            p = r;
        } else if op != 0 {
            let len = op as usize;
            if len > n - p - 1 {
                return None;
            }
            let ghost before = out@;
            extend_bytes(&mut out, &d[p + 1..p + 1 + len]);
            assert(out@ == before + d@.subrange(p + 1, p + 1 + len));
            p = p + 1 + len;
        } else {
            return None;
        }
        fuel = fuel - 1;
    }
    if out.len() as u64 != dst {
        return None;
    }
    Some(out)
}

} // verus!
