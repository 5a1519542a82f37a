//! A memo of decoded objects by pack offset, with a bounded number of slots.
use crate::pack::header::ObjectKind;
use vstd::prelude::*;

verus! {

/// One memoised object: where its entry starts, what it decodes to, the
/// length of its compressed payload, and how many deltas its chain holds.
pub struct CachedObject {
    pub offset: u64,
    pub kind: ObjectKind,
    pub data: Vec<u8>,
    pub consumed: usize,
    pub chain: u64,
}

/// The mathematical form of a memoised object.
pub struct CachedV {
    pub offset: u64,
    pub kind: ObjectKind,
    pub data: Seq<u8>,
    pub consumed: nat,
    pub chain: u64,
}

impl View for CachedObject {
    type V = CachedV;

    open spec fn view(&self) -> CachedV {
        CachedV {
            offset: self.offset,
            kind: self.kind,
            data: self.data@,
            consumed: self.consumed as nat,
            chain: self.chain,
        }
    }
}

/// A decode cache. With no slots it caches nothing, for single passes where
/// caching does not pay.
pub struct DecodeCache {
    slots: Vec<CachedObject>,
    capacity: usize,
    next: usize,
}

impl DecodeCache {
    /// What the cache holds.
    pub closed spec fn contents(&self) -> Seq<CachedV> {
        self.slots@.map_values(|c: CachedObject| c@)
    }

    /// How many objects the cache holds at most.
    pub closed spec fn capacity(&self) -> nat {
        self.capacity as nat
    }

    /// The cache holds nothing and never will.
    pub closed spec fn never_caches(&self) -> bool {
        self.capacity == 0 && self.slots@.len() == 0
    }

    /// A cache that holds nothing.
    pub fn never() -> (r: DecodeCache)
        ensures
            r.contents().len() == 0,
            r.never_caches(),
    {
        let r = DecodeCache { slots: Vec::new(), capacity: 0, next: 0 };
        assert(r.contents() =~= Seq::<CachedV>::empty());
        r
    }

    /// A cache of up to `capacity` objects.
    pub fn with_capacity(capacity: usize) -> (r: DecodeCache)
        ensures
            r.contents().len() == 0,
            r.never_caches() <==> capacity == 0,
            r.capacity() == capacity,
    {
        let r = DecodeCache { slots: Vec::new(), capacity, next: 0 };
        assert(r.contents() =~= Seq::<CachedV>::empty());
        r
    }

    /// A copy of the object cached for `offset`, if any.
    pub fn get(&self, offset: u64) -> (r: Option<(ObjectKind, Vec<u8>, usize, u64)>)
        ensures
            self.never_caches() ==> r is None,
            r matches Some((k, d, n, c)) ==> exists|i: int|
                0 <= i < self.contents().len() && #[trigger] self.contents()[i] == (CachedV {
                    offset,
                    kind: k,
                    data: d@,
                    consumed: n as nat,
                    chain: c,
                }),
            r is None ==> forall|i: int|
                0 <= i < self.contents().len() ==> (#[trigger] self.contents()[i]).offset != offset,
    {
        let mut i: usize = 0;
        while i < self.slots.len()
            invariant
                i <= self.slots@.len(),
                forall|j: int| 0 <= j < i ==> (#[trigger] self.contents()[j]).offset != offset,
            decreases self.slots@.len() - i,
        {
            assert(self.contents()[i as int] == self.slots@[i as int]@);
            if self.slots[i].offset == offset {
                let s = &self.slots[i];
                let data = crate::config::file::copy_vec(&s.data);
                return Some((s.kind, data, s.consumed, s.chain));
            }
            i = i + 1;
        }
        None
    }

    /// Remembers an object; when full, an older one makes room.
    pub fn put(&mut self, offset: u64, kind: ObjectKind, data: &Vec<u8>, consumed: usize, chain: u64)
        ensures
            old(self).never_caches() ==> final(self).never_caches(),
            final(self).capacity() == old(self).capacity(),
            old(self).capacity() > 0 ==> final(self).contents().contains(
                CachedV { offset, kind, data: data@, consumed: consumed as nat, chain },
            ),
            forall|i: int|
                0 <= i < final(self).contents().len() ==> old(self).contents().contains(
                    #[trigger] final(self).contents()[i],
                ) || final(self).contents()[i] == (CachedV {
                    offset,
                    kind,
                    data: data@,
                    consumed: consumed as nat,
                    chain,
                }),
    {
        if self.capacity == 0 {
            return;
        }
        let ghost before = self.contents();
        let item = CachedObject { offset, kind, data: crate::config::file::copy_vec(data), consumed, chain };
        let ghost iv = item@;
        if self.slots.len() < self.capacity {
            self.slots.push(item);
            proof {
                assert(self.contents() =~= before.push(iv));
                assert(self.contents()[before.len() as int] == iv);
                assert forall|i: int| 0 <= i < self.contents().len() implies before.contains(
                    #[trigger] self.contents()[i],
                ) || self.contents()[i] == iv by {
                    if i < before.len() {
                        assert(before[i] == self.contents()[i]);
                    }
                }
            }
        } else if self.slots.len() > 0 {
            let at = if self.next < self.slots.len() { self.next } else { 0 };
            self.slots.set(at, item);
            self.next = at + 1;
            proof {
                assert(self.contents() =~= before.update(at as int, iv));
                assert(self.contents()[at as int] == iv);
                assert forall|i: int| 0 <= i < self.contents().len() implies before.contains(
                    #[trigger] self.contents()[i],
                ) || self.contents()[i] == iv by {
                    if i != at {
                        assert(before[i] == self.contents()[i]);
                    }
                }
            }
        }
    }
}

} // verus!
