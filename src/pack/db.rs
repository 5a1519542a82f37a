//! Databases over several packs: a compound database asks its bundles in
//! order, a linked database asks its compound databases in order.
use crate::oid::ObjectId;
use crate::pack::bundle::{Bundle, Object};
use crate::pack::cache::DecodeCache;
use crate::pack::decode::DecodeError;
use vstd::prelude::*;

verus! {

/// The first of the first `n` bundles whose index holds `id`.
pub open spec fn first_holder(bundles: Seq<Bundle>, id: Seq<u8>, n: int) -> Option<int>
    decreases n,
{
    if n <= 0 {
        None
    } else {
        match first_holder(bundles, id, n - 1) {
            Some(i) => Some(i),
            None => if bundles[n - 1].index@.slot_of(id) is Some {
                Some(n - 1)
            } else {
                None
            },
        }
    }
}

pub proof fn lemma_first_holder_bounds(bundles: Seq<Bundle>, id: Seq<u8>, n: int)
    ensures
        first_holder(bundles, id, n) matches Some(i) ==> 0 <= i < n && bundles[i].index@.slot_of(id) is Some
            && forall|j: int| 0 <= j < i ==> (#[trigger] bundles[j]).index@.slot_of(id) is None,
        first_holder(bundles, id, n) is None ==> forall|j: int|
            0 <= j < n ==> (#[trigger] bundles[j]).index@.slot_of(id) is None,
    decreases n,
{
    if n > 0 {
        lemma_first_holder_bounds(bundles, id, n - 1);
    }
}

/// A bundle added after one that holds `id` does not change which bundle
/// answers for `id`: the earlier bundle still wins.
pub proof fn lemma_first_inserted_wins(bundles: Seq<Bundle>, later: Bundle, id: Seq<u8>)
    requires
        first_holder(bundles, id, bundles.len() as int) is Some,
    ensures
        first_holder(bundles.push(later), id, bundles.len() + 1 as int) == first_holder(
            bundles,
            id,
            bundles.len() as int,
        ),
{
    let n = bundles.len() as int;
    lemma_first_holder_prefix(bundles, later, id, n);
    assert(first_holder(bundles.push(later), id, n + 1) == first_holder(bundles.push(later), id, n));
}

proof fn lemma_first_holder_prefix(bundles: Seq<Bundle>, later: Bundle, id: Seq<u8>, n: int)
    requires
        0 <= n <= bundles.len(),
    ensures
        first_holder(bundles.push(later), id, n) == first_holder(bundles, id, n),
    decreases n,
{
    if n > 0 {
        lemma_first_holder_prefix(bundles, later, id, n - 1);
        assert(bundles.push(later)[n - 1] == bundles[n - 1]);
    }
}

/// `o` is what the first bundle of `db` that holds `id` decodes it to.
pub open spec fn found_in(db: CompoundDb, id: Seq<u8>, o: &Object) -> bool {
    first_holder(db.bundles@, id, db.bundles@.len() as int) matches Some(i) && (db.bundles@[i].index@.slot_of(
        id,
    ) matches Some(s) && db.bundles@[i].is_object_at(s, o))
}

/// The first bundle of `db` that holds `id` cannot decode it.
pub open spec fn fails_in(db: CompoundDb, id: Seq<u8>) -> bool {
    first_holder(db.bundles@, id, db.bundles@.len() as int) matches Some(i) && (db.bundles@[i].index@.slot_of(
        id,
    ) matches Some(s) && db.bundles@[i].object_at(s) is None)
}

/// An ordered collection of bundles, asked in the order they were added.
pub struct CompoundDb {
    pub bundles: Vec<Bundle>,
}

impl CompoundDb {
    pub open spec fn well_formed(&self) -> bool {
        forall|i: int| 0 <= i < self.bundles@.len() ==> (#[trigger] self.bundles@[i]).well_formed()
    }

    /// Finds `id` in the first bundle that holds it. `Ok(None)`: no bundle
    /// does, and the loose objects are next to ask.
    pub fn find(&self, id: &ObjectId) -> (r: Result<Option<Object>, DecodeError>)
        requires
            self.well_formed(),
        ensures
            r matches Ok(None) <==> first_holder(self.bundles@, id@, self.bundles@.len() as int) is None,
            r matches Ok(Some(o)) ==> found_in(*self, id@, &o),
            r is Err <==> fails_in(*self, id@),
    {
        let n = self.bundles.len();
        let mut i: usize = 0;
        while i < n
            invariant
                n == self.bundles@.len(),
                i <= n,
                self.well_formed(),
                first_holder(self.bundles@, id@, i as int) is None,
            decreases n - i,
        {
            let b = &self.bundles[i];
            assert(b.well_formed());
            match b.internal_find_pack_index(id) {
                Some(slot) => {
                    proof {
                        lemma_first_holder_bounds(self.bundles@, id@, n as int);
                        lemma_first_holder_bounds(self.bundles@, id@, i as int);
                        lemma_holder_stays(self.bundles@, id@, i as int + 1, n as int);
                    }
                    let mut cache = DecodeCache::never();
                    return match b.internal_get_object_by_index(slot, &mut cache) {
                        Ok(o) => Ok(Some(o)),
                        Err(e) => Err(e),
                    };
                },
                None => {},
            }
            i = i + 1;
        }
        Ok(None)
    }
}

proof fn lemma_holder_stays(bundles: Seq<Bundle>, id: Seq<u8>, m: int, n: int)
    requires
        0 <= m <= n,
        first_holder(bundles, id, m) is Some,
    ensures
        first_holder(bundles, id, n) == first_holder(bundles, id, m),
    decreases n - m,
{
    if m < n {
        lemma_holder_stays(bundles, id, m, n - 1);
    }
}

/// Compound databases found by following alternates, asked in the order
/// they were found.
pub struct Db {
    /// The compound databases containing the actual objects.
    pub dbs: Vec<CompoundDb>,
}

/// Whether any bundle of `db` holds `id`.
pub open spec fn holds(db: CompoundDb, id: Seq<u8>) -> bool {
    first_holder(db.bundles@, id, db.bundles@.len() as int) is Some
}

impl Db {
    pub open spec fn well_formed(&self) -> bool {
        forall|i: int| 0 <= i < self.dbs@.len() ==> (#[trigger] self.dbs@[i]).well_formed()
    }

    /// Finds `id` in the first database that holds it.
    pub fn find(&self, id: &ObjectId) -> (r: Result<Option<Object>, DecodeError>)
        requires
            self.well_formed(),
        ensures
            r matches Ok(None) <==> forall|i: int| 0 <= i < self.dbs@.len() ==> !holds(#[trigger] self.dbs@[i], id@),
            r matches Ok(Some(o)) ==> exists|i: int|
                0 <= i < self.dbs@.len() && found_in(#[trigger] self.dbs@[i], id@, &o) && forall|j: int|
                    0 <= j < i ==> !holds(#[trigger] self.dbs@[j], id@),
            r is Err ==> exists|i: int|
                0 <= i < self.dbs@.len() && fails_in(#[trigger] self.dbs@[i], id@) && forall|j: int|
                    0 <= j < i ==> !holds(#[trigger] self.dbs@[j], id@),
    {
        let n = self.dbs.len();
        let mut i: usize = 0;
        while i < n
            invariant
                n == self.dbs@.len(),
                i <= n,
                self.well_formed(),
                forall|j: int| 0 <= j < i ==> !holds(#[trigger] self.dbs@[j], id@),
            decreases n - i,
        {
            let db = &self.dbs[i];
            assert(db.well_formed());
            match db.find(id) {
                Ok(None) => {},
                Ok(Some(o)) => {
                    assert(found_in(self.dbs@[i as int], id@, &o));
                    return Ok(Some(o));
                },
                Err(e) => {
                    assert(fails_in(self.dbs@[i as int], id@));
                    return Err(e);
                },
            }
            i = i + 1;
        }
        Ok(None)
    }
}

} // verus!
