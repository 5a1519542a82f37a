//! Object identifiers: fixed-width digests with a total order.
use vstd::prelude::*;

verus! {

/// The width of an object identifier in bytes.
pub const ID_LEN: usize = 20;

/// The identifier of an object: the digest of its content.
#[derive(Clone, Copy, Debug, PartialEq, Eq, Hash)]
pub struct ObjectId {
    pub bytes: [u8; 20],
}

impl View for ObjectId {
    type V = Seq<u8>;

    open spec fn view(&self) -> Seq<u8> {
        self.bytes@
    }
}

/// The outcome of comparing two identifiers.
#[derive(Clone, Copy, Debug, PartialEq, Eq)]
pub enum Order {
    Less,
    Equal,
    Greater,
}

/// `a` comes before `b`: they agree up to `i`, where `a` holds the smaller byte.
pub open spec fn lex_lt_at(a: Seq<u8>, b: Seq<u8>, i: int) -> bool {
    0 <= i < a.len() && i < b.len() && a.subrange(0, i) == b.subrange(0, i) && a[i] < b[i]
}

/// Lexicographic order on byte strings of one length.
pub open spec fn lex_lt(a: Seq<u8>, b: Seq<u8>) -> bool {
    exists|i: int| lex_lt_at(a, b, i)
}

pub proof fn lemma_lex_lt_irreflexive(a: Seq<u8>)
    ensures
        !lex_lt(a, a),
{
}

pub proof fn lemma_lex_lt_transitive(a: Seq<u8>, b: Seq<u8>, c: Seq<u8>)
    requires
        lex_lt(a, b),
        lex_lt(b, c),
    ensures
        lex_lt(a, c),
{
    let i = choose|i: int| lex_lt_at(a, b, i);
    let j = choose|j: int| lex_lt_at(b, c, j);
    let k = if i < j { i } else { j };
    assert(a.subrange(0, k) =~= a.subrange(0, i).subrange(0, k));
    assert(b.subrange(0, k) =~= b.subrange(0, i).subrange(0, k));
    assert(b.subrange(0, k) =~= b.subrange(0, j).subrange(0, k));
    assert(c.subrange(0, k) =~= c.subrange(0, j).subrange(0, k));
    if i < j {
        assert(b[i] == b.subrange(0, j)[i]);
        assert(c[i] == c.subrange(0, j)[i]);
    } else if j < i {
        assert(a[j] == a.subrange(0, i)[j]);
        assert(b[j] == b.subrange(0, i)[j]);
    }
    assert(lex_lt_at(a, c, k));
}

pub proof fn lemma_lex_lt_asymmetric(a: Seq<u8>, b: Seq<u8>)
    requires
        lex_lt(a, b),
    ensures
        !lex_lt(b, a),
{
    if lex_lt(b, a) {
        lemma_lex_lt_transitive(a, b, a);
    }
}

impl ObjectId {
    /// Compares two identifiers byte by byte.
    pub fn compare(&self, other: &ObjectId) -> (r: Order)
        ensures
            r == Order::Less <==> lex_lt(self@, other@),
            r == Order::Greater <==> lex_lt(other@, self@),
            r == Order::Equal <==> self@ == other@,
    {
        let mut i: usize = 0;
        while i < ID_LEN
            invariant
                i <= ID_LEN,
                self@.len() == ID_LEN,
                other@.len() == ID_LEN,
                self@.subrange(0, i as int) == other@.subrange(0, i as int),
            decreases ID_LEN - i,
        {
            let x = self.bytes[i];
            let y = other.bytes[i];
            if x < y {
                assert(lex_lt_at(self@, other@, i as int));
                proof { lemma_lex_lt_asymmetric(self@, other@); }
                return Order::Less;
            }
            if x > y {
                assert(lex_lt_at(other@, self@, i as int));
                proof { lemma_lex_lt_asymmetric(other@, self@); }
                return Order::Greater;
            }
            assert(self@.subrange(0, i as int + 1) =~= self@.subrange(0, i as int).push(x));
            assert(other@.subrange(0, i as int + 1) =~= other@.subrange(0, i as int).push(y));
            i = i + 1;
        }
        assert(self@ =~= self@.subrange(0, 20));
        assert(other@ =~= other@.subrange(0, 20));
        Order::Equal
    }

    /// Whether two identifiers are the same.
    pub fn same_as(&self, other: &ObjectId) -> (r: bool)
        ensures
            r == (self@ == other@),
    {
        match self.compare(other) {
            Order::Equal => true,
            _ => false,
        }
    }

    /// The identifier held in `b[start..start + 20]`.
    pub fn from_slice_at(b: &[u8], start: usize) -> (r: ObjectId)
        requires
            start + ID_LEN <= b@.len(),
        ensures
            r@ == b@.subrange(start as int, start + ID_LEN),
    {
        let _n = b.len();
        let mut bytes: [u8; 20] = [0u8; 20];
        let mut i: usize = 0;
        while i < ID_LEN
            invariant
                i <= ID_LEN,
                start + ID_LEN <= b@.len(),
                b@.len() <= usize::MAX,
                bytes@.len() == ID_LEN,
                bytes@.subrange(0, i as int) == b@.subrange(start as int, start + i),
            decreases ID_LEN - i,
        {
            bytes[i] = b[start + i];
            assert(bytes@.subrange(0, i as int + 1) =~= b@.subrange(start as int, start + i + 1));
            i = i + 1;
        }
        assert(bytes@ =~= bytes@.subrange(0, 20));
        ObjectId { bytes }
    }
}

} // verus!
