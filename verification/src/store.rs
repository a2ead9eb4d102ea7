//! The vector store: owner of the raw vectors, their metadata, and the
//! free list of reusable slots. A record's slot index is the node index
//! the graph refers to.

use vstd::prelude::*;
use crate::config::{COMP_LIMIT, ID_MAX_LEN};
use crate::meta::{MetaV, MetaValue};
use crate::metric::bounded;

verus! {

/// One stored vector with its identifier and metadata. A record whose
/// `live` flag is cleared is a tombstone: its slot is on the free list and
/// nothing in the graph refers to it.
pub struct Record {
    pub id: String,
    pub vec: Vec<i32>,
    pub meta: Option<MetaValue>,
    pub live: bool,
    /// The quantized copy of the vector, when the collection keeps one.
    pub qvec: Option<Vec<u8>>,
}

/// The model of a record's metadata.
pub open spec fn meta_view(m: Option<MetaValue>) -> Option<MetaV> {
    match m {
        Option::Some(v) => Option::Some(v@),
        Option::None => Option::None,
    }
}

/// The number of live records.
pub open spec fn count_live(s: Seq<Record>) -> int
    decreases s.len(),
{
    if s.len() == 0 {
        0
    } else {
        count_live(s.drop_last()) + (if s.last().live { 1int } else { 0 })
    }
}

/// Replacing one record moves the count by the liveness change.
pub proof fn lemma_count_live_update(s: Seq<Record>, i: int, r: Record)
    requires
        0 <= i < s.len(),
    ensures
        count_live(s.update(i, r)) == count_live(s) - (if s[i].live { 1int } else { 0 })
            + (if r.live { 1int } else { 0 }),
    decreases s.len(),
{
    let t = s.update(i, r);
    if i == s.len() - 1 {
        assert(t.drop_last() =~= s.drop_last());
    } else {
        assert(t.drop_last() =~= s.drop_last().update(i, r));
        lemma_count_live_update(s.drop_last(), i, r);
    }
}

/// Appending one record adds its liveness to the count.
pub proof fn lemma_count_live_push(s: Seq<Record>, r: Record)
    ensures
        count_live(s.push(r)) == count_live(s) + (if r.live { 1int } else { 0 }),
{
    assert(s.push(r).drop_last() =~= s);
}

/// A live slot makes the count positive.
pub proof fn lemma_count_live_pos(s: Seq<Record>, i: int)
    requires
        0 <= i < s.len(),
        s[i].live,
    ensures
        count_live(s) >= 1,
    decreases s.len(),
{
    if i == s.len() - 1 {
        lemma_count_live_nonneg(s.drop_last());
    } else {
        lemma_count_live_pos(s.drop_last(), i);
    }
}

/// Without a live slot the count is zero.
pub proof fn lemma_no_live_count_zero(s: Seq<Record>)
    requires
        forall|i: int| 0 <= i < s.len() ==> !(#[trigger] s[i]).live,
    ensures
        count_live(s) == 0,
    decreases s.len(),
{
    if s.len() > 0 {
        assert forall|i: int| 0 <= i < s.drop_last().len()
            implies !(#[trigger] s.drop_last()[i]).live by {
            assert(!s[i].live);
        }
        lemma_no_live_count_zero(s.drop_last());
    }
}

/// The count is never negative.
pub proof fn lemma_count_live_nonneg(s: Seq<Record>)
    ensures
        count_live(s) >= 0,
    decreases s.len(),
{
    if s.len() > 0 {
        lemma_count_live_nonneg(s.drop_last());
    }
}

/// The slot-indexed record array with its free list.
pub struct VectorStore {
    pub records: Vec<Record>,
    pub free: Vec<usize>,
    pub live_count: usize,
}

impl VectorStore {
    /// Slot `i` holds a live record.
    pub open spec fn live_at(self, i: int) -> bool {
        0 <= i < self.records@.len() && self.records@[i].live
    }

    /// The identifier stored in slot `i`.
    pub open spec fn id_at(self, i: int) -> Seq<char> {
        self.records@[i].id@
    }

    /// Some live record carries this identifier.
    pub open spec fn has_id(self, id: Seq<char>) -> bool {
        exists|i: int| self.live_at(i) && self.id_at(i) == id
    }

    /// The slot of the live record carrying this identifier.
    pub open spec fn slot_of(self, id: Seq<char>) -> int {
        choose|i: int| self.live_at(i) && self.id_at(i) == id
    }

    /// The store invariant, relative to the collection's dimension count:
    /// live records hold in-range vectors of that length and identifiers
    /// within the length cap, no identifier repeats, and the free list is
    /// exactly the set of dead slots.
    pub open spec fn wf(self, dim: int) -> bool {
        &&& forall|i: int| self.live_at(i) ==> (#[trigger] self.records@[i]).vec@.len() == dim
            && bounded(self.records@[i].vec@, COMP_LIMIT as int)
            && self.records@[i].id@.len() <= ID_MAX_LEN
        &&& forall|i: int, j: int| self.live_at(i) && self.live_at(j) && i != j
            ==> self.id_at(i) != self.id_at(j)
        &&& forall|k: int| 0 <= k < self.free@.len()
            ==> (#[trigger] self.free@[k]) < self.records@.len()
                && !self.records@[self.free@[k] as int].live
        &&& forall|k1: int, k2: int| 0 <= k1 < k2 < self.free@.len()
            ==> self.free@[k1] != self.free@[k2]
        &&& forall|i: int| 0 <= i < self.records@.len() && !(#[trigger] self.records@[i]).live
            ==> self.free@.contains(i as usize)
        &&& self.live_count + self.free@.len() == self.records@.len()
        &&& self.live_count == count_live(self.records@)
    }

    /// The store as a map from identifier to vector and metadata.
    pub open spec fn view_map(self) -> Map<Seq<char>, (Seq<i32>, Option<MetaV>)> {
        Map::new(
            |id: Seq<char>| self.has_id(id),
            |id: Seq<char>| {
                let i = self.slot_of(id);
                (self.records@[i].vec@, meta_view(self.records@[i].meta))
            },
        )
    }

    /// The slot a live identifier resolves to is the one that holds it.
    pub proof fn lemma_slot_of(self, dim: int, i: int)
        requires
            self.wf(dim),
            self.live_at(i),
        ensures
            self.slot_of(self.id_at(i)) == i,
            self.has_id(self.id_at(i)),
    {
        let id = self.id_at(i);
        assert(self.live_at(i) && self.id_at(i) == id);
        let j = self.slot_of(id);
        if j != i {
            assert(self.id_at(i) != self.id_at(j));
        }
    }

    /// An empty store.
    pub fn new() -> (s: VectorStore)
        ensures
            s.wf(0),
            forall|d: int| s.wf(d),
            s.records@.len() == 0,
            s.live_count == 0,
            s.view_map() == Map::<Seq<char>, (Seq<i32>, Option<MetaV>)>::empty(),
    {
        let s = VectorStore { records: Vec::new(), free: Vec::new(), live_count: 0 };
        proof {
            assert forall|id: Seq<char>| !s.has_id(id) by {
                if s.has_id(id) {
                    let i = choose|i: int| s.live_at(i) && s.id_at(i) == id;
                    assert(false);
                }
            }
            assert(s.view_map() =~= Map::<Seq<char>, (Seq<i32>, Option<MetaV>)>::empty());
        }
        s
    }

    /// Finds the live slot carrying `id`.
    pub fn find(&self, id: &String) -> (r: Option<usize>)
        requires
            forall|i: int, j: int| self.live_at(i) && self.live_at(j) && i != j
                ==> self.id_at(i) != self.id_at(j),
        ensures
            match r {
                Option::Some(i) => self.live_at(i as int) && self.id_at(i as int) == id@
                    && self.slot_of(id@) == i as int,
                Option::None => !self.has_id(id@),
            },
    {
        let mut i: usize = 0;
        let n = self.records.len();
        while i < n
            invariant
                0 <= i <= n,
                n == self.records@.len(),
                forall|j: int| 0 <= j < i ==> !(self.live_at(j) && self.id_at(j) == id@),
                forall|t: int, j: int| self.live_at(t) && self.live_at(j) && t != j
                    ==> self.id_at(t) != self.id_at(j),
            decreases n - i,
        {
            if self.records[i].live && self.records[i].id == *id {
                proof {
                    assert(self.live_at(i as int) && self.id_at(i as int) == id@);
                    let w = self.slot_of(id@);
                    if w != i as int {
                        assert(self.id_at(w) != self.id_at(i as int));
                    }
                }
                return Option::Some(i);
            }
            i = i + 1;
        }
        proof {
            if self.has_id(id@) {
                let j = choose|j: int| self.live_at(j) && self.id_at(j) == id@;
                assert(false);
            }
        }
        Option::None
    }

    /// Stores a new live record, reusing a free slot if one exists, and
    /// returns its slot.
    pub fn store_new_record(&mut self, id: String, v: Vec<i32>, meta: Option<MetaValue>, qv: Option<Vec<u8>>, Ghost(dim): Ghost<int>) -> (i: usize)
        requires
            old(self).wf(dim),
            v@.len() == dim,
            bounded(v@, COMP_LIMIT as int),
            id@.len() <= ID_MAX_LEN,
            !old(self).has_id(id@),
            old(self).records@.len() < usize::MAX,
        ensures
            final(self).wf(dim),
            final(self).live_at(i as int),
            !old(self).live_at(i as int),
            i < final(self).records@.len(),
            final(self).records@[i as int].id == id,
            final(self).records@[i as int].vec == v,
            final(self).records@[i as int].meta == meta,
            final(self).records@[i as int].qvec == qv,
            final(self).live_count == old(self).live_count + 1,
            final(self).records@.len() == old(self).records@.len()
                || final(self).records@.len() == old(self).records@.len() + 1,
            final(self).records@.len() == old(self).records@.len() + 1
                ==> i as int == old(self).records@.len(),
            final(self).records@.len() == old(self).records@.len()
                ==> i < old(self).records@.len(),
            forall|j: int| 0 <= j < old(self).records@.len() && j != i
                ==> final(self).records@[j] == old(self).records@[j],
            final(self).view_map() == old(self).view_map().insert(
                id@,
                (v@, meta_view(meta)),
            ),
    {
        let rec = Record { id, vec: v, meta, live: true, qvec: qv };
        let ghost idv = rec.id@;
        let slot_opt = self.free.pop();
        let i: usize;
        match slot_opt {
            Option::Some(slot) => {
                proof {
                    assert(old(self).free@.last() == slot);
                    assert(slot < self.records@.len());
                }
                self.records.set(slot, rec);
                i = slot;
            },
            Option::None => {
                i = self.records.len();
                self.records.push(rec);
            },
        }
        proof {
            match slot_opt {
                Option::Some(slot) => {
                    lemma_count_live_update(old(self).records@, slot as int, rec);
                },
                Option::None => {
                    lemma_count_live_push(old(self).records@, rec);
                },
            }
        }
        self.live_count = self.live_count + 1;
        proof {
            let g = *self;
            let og = *old(self);
            // the free list is still exactly the dead slots
            assert forall|j: int| 0 <= j < g.records@.len() && !(#[trigger] g.records@[j]).live
                implies g.free@.contains(j as usize) by {
                assert(og.free@.contains(j as usize));
                let k = choose|k: int| 0 <= k < og.free@.len() && og.free@[k] == j as usize;
                assert(j != i);
                if og.free@.len() > 0 && k == og.free@.len() - 1 && og.free@[k] == i {
                    assert(false);
                }
                assert(k < g.free@.len() && g.free@[k] == j as usize);
            }
            // identifiers still unique
            assert forall|t: int, j: int| g.live_at(t) && g.live_at(j) && t != j
                implies g.id_at(t) != g.id_at(j) by {
                if t != i && j != i {
                    assert(og.live_at(t) && og.live_at(j));
                } else if t == i {
                    assert(og.live_at(j));
                    if og.id_at(j) == idv {
                        assert(og.has_id(idv));
                    }
                } else {
                    assert(og.live_at(t));
                    if og.id_at(t) == idv {
                        assert(og.has_id(idv));
                    }
                }
            }
            assert(g.wf(dim));
            // the map gains exactly this identifier
            assert forall|k: Seq<char>| #[trigger] g.has_id(k)
                implies og.has_id(k) || k == idv by {
                let t = choose|t: int| g.live_at(t) && g.id_at(t) == k;
                if t != i {
                    assert(og.live_at(t) && og.id_at(t) == k);
                }
            }
            assert forall|k: Seq<char>| og.has_id(k) implies g.has_id(k) by {
                let t = choose|t: int| og.live_at(t) && og.id_at(t) == k;
                assert(t != i);
                assert(g.live_at(t) && g.id_at(t) == k);
            }
            assert(g.has_id(idv)) by {
                assert(g.live_at(i as int) && g.id_at(i as int) == idv);
            }
            assert forall|k: Seq<char>| #[trigger] g.has_id(k) && k != idv
                implies g.view_map()[k] == og.view_map()[k] by {
                let t = g.slot_of(k);
                assert(g.live_at(t) && g.id_at(t) == k);
                assert(t != i);
                assert(og.live_at(t) && og.id_at(t) == k);
                og.lemma_slot_of(dim, t);
                g.lemma_slot_of(dim, t);
            }
            assert(g.view_map()[idv] == (v@, meta_view(meta))) by {
                g.lemma_slot_of(dim, i as int);
            }
            assert(g.view_map() =~= og.view_map().insert(idv, (v@, meta_view(meta))));
        }
        i
    }

    /// Tombstones the live record in slot `i` and frees its slot.
    pub fn kill(&mut self, i: usize, Ghost(dim): Ghost<int>)
        requires
            old(self).wf(dim),
            old(self).live_at(i as int),
        ensures
            final(self).wf(dim),
            !final(self).live_at(i as int),
            final(self).records@.len() == old(self).records@.len(),
            final(self).live_count == old(self).live_count - 1,
            forall|j: int| 0 <= j < old(self).records@.len() && j != i
                ==> final(self).records@[j] == old(self).records@[j],
            final(self).view_map() == old(self).view_map().remove(old(self).id_at(i as int)),
    {
        let ghost idv = old(self).id_at(i as int);
        let dead = Record {
            id: String::new(),
            vec: Vec::new(),
            meta: Option::None,
            live: false,
            qvec: Option::None,
        };
        proof {
            lemma_count_live_pos(old(self).records@, i as int);
            lemma_count_live_update(old(self).records@, i as int, dead);
        }
        self.records.set(i, dead);
        self.free.push(i);
        self.live_count = self.live_count - 1;
        proof {
            let g = *self;
            let og = *old(self);
            assert forall|k1: int, k2: int| 0 <= k1 < k2 < g.free@.len()
                implies g.free@[k1] != g.free@[k2] by {
                if k2 == g.free@.len() - 1 {
                    if og.free@[k1] == i {
                        assert(!og.records@[i as int].live);
                    }
                }
            }
            assert forall|j: int| 0 <= j < g.records@.len() && !(#[trigger] g.records@[j]).live
                implies g.free@.contains(j as usize) by {
                if j == i {
                    assert(g.free@[g.free@.len() - 1] == i);
                } else {
                    assert(og.free@.contains(j as usize));
                    let k = choose|k: int| 0 <= k < og.free@.len() && og.free@[k] == j as usize;
                    assert(g.free@[k] == j as usize);
                }
            }
            assert forall|t: int, j: int| g.live_at(t) && g.live_at(j) && t != j
                implies g.id_at(t) != g.id_at(j) by {
                assert(t != i as int && j != i as int);
                assert(og.live_at(t) && og.live_at(j));
                assert(g.records@[t] == og.records@[t]);
                assert(g.records@[j] == og.records@[j]);
            }
            assert(g.wf(dim));
            assert forall|k: Seq<char>| #[trigger] g.has_id(k)
                implies og.has_id(k) && k != idv by {
                let t = choose|t: int| g.live_at(t) && g.id_at(t) == k;
                assert(t != i);
                assert(og.live_at(t) && og.id_at(t) == k);
                if k == idv {
                    assert(og.id_at(t) != og.id_at(i as int));
                }
            }
            assert forall|k: Seq<char>| og.has_id(k) && k != idv implies g.has_id(k) by {
                let t = choose|t: int| og.live_at(t) && og.id_at(t) == k;
                assert(t != i);
                assert(g.live_at(t) && g.id_at(t) == k);
            }
            assert forall|k: Seq<char>| #[trigger] g.has_id(k)
                implies g.view_map()[k] == og.view_map()[k] by {
                let t = g.slot_of(k);
                assert(g.live_at(t) && g.id_at(t) == k);
                assert(t != i);
                og.lemma_slot_of(dim, t);
                g.lemma_slot_of(dim, t);
            }
            assert(g.view_map() =~= og.view_map().remove(idv));
        }
    }
}

} // verus!
