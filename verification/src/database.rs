//! The database: a mapping from collection name to collection. Every
//! operation on vectors names its collection; an unknown name is refused
//! with `CollectionNotFound`.

use vstd::prelude::*;
use crate::collection::{Collection, CollectionStats};
use crate::config::Config;
use crate::errors::Error;
use crate::filter::Filter;
use crate::meta::{MetaV, MetaValue};
use crate::metric::Distance;

verus! {

/// Aggregate counters over every collection.
#[derive(Debug)]
pub struct DatabaseStats {
    /// One entry per collection, in creation order.
    pub per_collection: Vec<(String, CollectionStats)>,
    /// The live vectors over all collections, saturating.
    pub total_vectors: usize,
}

/// The live vectors held by the first `n` collections, unsaturated.
pub open spec fn sum_live(cols: Seq<(String, Collection)>, n: int) -> int
    decreases n,
{
    if n <= 0 {
        0
    } else {
        sum_live(cols, n - 1) + cols[n - 1].1.store.live_count
    }
}

/// A name-keyed set of collections.
pub struct Database {
    pub cols: Vec<(String, Collection)>,
}

impl Database {
    /// Names are unique and every collection is well-formed.
    pub open spec fn wf(self) -> bool {
        &&& forall|i: int, j: int| 0 <= i < j < self.cols@.len()
            ==> (#[trigger] self.cols@[i]).0@ != (#[trigger] self.cols@[j]).0@
        &&& forall|i: int| 0 <= i < self.cols@.len() ==> (#[trigger] self.cols@[i]).1.wf()
    }

    /// A collection of this name exists.
    pub open spec fn has_col(self, name: Seq<char>) -> bool {
        exists|i: int| 0 <= i < self.cols@.len() && (#[trigger] self.cols@[i]).0@ == name
    }

    /// The position of the collection of this name.
    pub open spec fn col_idx(self, name: Seq<char>) -> int {
        choose|i: int| 0 <= i < self.cols@.len() && (#[trigger] self.cols@[i]).0@ == name
    }

    /// An empty database.
    pub fn new() -> (db: Database)
        ensures
            db.wf(),
            db.cols@.len() == 0,
    {
        Database { cols: Vec::new() }
    }

    /// Finds the position of the named collection.
    fn find_col(&self, name: &String) -> (r: Option<usize>)
        requires
            self.wf(),
        ensures
            match r {
                Some(i) => 0 <= i < self.cols@.len() && self.cols@[i as int].0@ == name@
                    && self.col_idx(name@) == i as int && self.has_col(name@),
                None => !self.has_col(name@),
            },
    {
        let mut i: usize = 0;
        let n = self.cols.len();
        while i < n
            invariant
                0 <= i <= n,
                n == self.cols@.len(),
                self.wf(),
                forall|j: int| 0 <= j < i ==> (#[trigger] self.cols@[j]).0@ != name@,
            decreases n - i,
        {
            if self.cols[i].0 == *name {
                proof {
                    let w = self.col_idx(name@);
                    if w != i as int {
                        assert(self.cols@[w].0@ != self.cols@[i as int].0@);
                    }
                }
                return Some(i);
            }
            i = i + 1;
        }
        proof {
            if self.has_col(name@) {
                let j = choose|j: int| 0 <= j < self.cols@.len()
                    && (#[trigger] self.cols@[j]).0@ == name@;
                assert(false);
            }
        }
        None
    }

    /// Creates a collection under `name`; refuses a taken name or an
    /// invalid configuration.
    pub fn create_collection(&mut self, name: &String, config: Config) -> (r: Result<(), Error>)
        requires
            old(self).wf(),
            old(self).cols@.len() < usize::MAX,
        ensures
            final(self).wf(),
            ({
                if old(self).has_col(name@) {
                    r == Err::<(), Error>(Error::DuplicateCollection(*name))
                        && *final(self) == *old(self)
                } else if !config.valid() {
                    (r matches Err(e) && e is InvalidConfig) && *final(self) == *old(self)
                } else {
                    r is Ok && final(self).cols@.len() == old(self).cols@.len() + 1
                        && final(self).cols@[old(self).cols@.len() as int].0 == *name
                        && final(self).cols@[old(self).cols@.len() as int].1.config == config
                        && final(self).cols@[old(self).cols@.len() as int].1@
                            == Map::<Seq<char>, (Seq<i32>, Option<MetaV>)>::empty()
                        && final(self).cols@[old(self).cols@.len() as int].1.store.live_count == 0
                        && final(self).cols@[old(self).cols@.len() as int].1.store.records@.len()
                            == 0
                        && (forall|j: int| 0 <= j < old(self).cols@.len()
                            ==> final(self).cols@[j] == old(self).cols@[j])
                        && final(self).has_col(name@)
                }
            }),
    {
        match self.find_col(name) {
            Some(_) => Err(Error::DuplicateCollection(name.clone())),
            None => {
                let c = Collection::new(config)?;
                let ghost pre = self.cols@;
                self.cols.push((name.clone(), c));
                proof {
                    assert(self.cols@[pre.len() as int].0@ == name@);
                    assert forall|i: int, j: int| 0 <= i < j < self.cols@.len()
                        implies (#[trigger] self.cols@[i]).0@ != (#[trigger] self.cols@[j]).0@ by {
                        if j < pre.len() {
                            assert(self.cols@[i] == pre[i] && self.cols@[j] == pre[j]);
                        } else {
                            assert(self.cols@[i] == pre[i]);
                            assert(!old(self).has_col(name@));
                            if pre[i].0@ == name@ {
                                assert(old(self).has_col(name@));
                            }
                        }
                    }
                    assert forall|i: int| 0 <= i < self.cols@.len()
                        implies (#[trigger] self.cols@[i]).1.wf() by {
                        if i < pre.len() {
                            assert(self.cols@[i] == pre[i]);
                            assert(old(self).cols@[i].1.wf());
                        }
                    }
                }
                Ok(())
            },
        }
    }

    /// Drops the collection under `name` with everything it holds.
    pub fn delete_collection(&mut self, name: &String) -> (r: Result<(), Error>)
        requires
            old(self).wf(),
        ensures
            final(self).wf(),
            ({
                if old(self).has_col(name@) {
                    r is Ok && final(self).cols@.len() == old(self).cols@.len() - 1
                        && !final(self).has_col(name@)
                        && final(self).cols@ == old(self).cols@.remove(old(self).col_idx(name@))
                } else {
                    r == Err::<(), Error>(Error::CollectionNotFound(*name))
                        && *final(self) == *old(self)
                }
            }),
    {
        match self.find_col(name) {
            None => Err(Error::CollectionNotFound(name.clone())),
            Some(i) => {
                let ghost pre = self.cols@;
                let _ = self.cols.remove(i);
                proof {
                    pre.remove_ensures(i as int);
                    assert forall|t1: int, t2: int| 0 <= t1 < t2 < self.cols@.len()
                        implies (#[trigger] self.cols@[t1]).0@
                            != (#[trigger] self.cols@[t2]).0@ by {
                        let p1: int = if t1 < i { t1 } else { t1 + 1 };
                        let p2: int = if t2 < i { t2 } else { t2 + 1 };
                        assert(self.cols@[t1] == pre[p1] && self.cols@[t2] == pre[p2]);
                    }
                    assert forall|t: int| 0 <= t < self.cols@.len()
                        implies (#[trigger] self.cols@[t]).1.wf() by {
                        let p: int = if t < i { t } else { t + 1 };
                        assert(self.cols@[t] == pre[p]);
                        assert(old(self).cols@[p].1.wf());
                    }
                    if self.has_col(name@) {
                        let t = choose|t: int| 0 <= t < self.cols@.len()
                            && (#[trigger] self.cols@[t]).0@ == name@;
                        let p: int = if t < i { t } else { t + 1 };
                        assert(pre[p].0@ == name@ && pre[i as int].0@ == name@);
                        assert(p != i);
                    }
                }
                Ok(())
            },
        }
    }

    /// The collection names, in creation order.
    pub fn list_collections(&self) -> (r: Vec<String>)
        requires
            self.wf(),
        ensures
            r@.len() == self.cols@.len(),
            forall|i: int| 0 <= i < r@.len() ==> (#[trigger] r@[i])@ == self.cols@[i].0@,
    {
        let mut r: Vec<String> = Vec::new();
        let mut i: usize = 0;
        while i < self.cols.len()
            invariant
                0 <= i <= self.cols@.len(),
                r@.len() == i,
                forall|j: int| 0 <= j < i ==> (#[trigger] r@[j])@ == self.cols@[j].0@,
            decreases self.cols@.len() - i,
        {
            r.push(self.cols[i].0.clone());
            i = i + 1;
        }
        r
    }

    /// A shared view of the named collection, for reads.
    pub fn get_collection(&self, name: &String) -> (r: Result<&Collection, Error>)
        requires
            self.wf(),
        ensures
            ({
                if self.has_col(name@) {
                    r matches Ok(c) && *c == self.cols@[self.col_idx(name@)].1 && c.wf()
                } else {
                    r == Err::<&Collection, Error>(Error::CollectionNotFound(*name))
                }
            }),
    {
        match self.find_col(name) {
            Some(i) => Ok(&self.cols[i].1),
            None => Err(Error::CollectionNotFound(name.clone())),
        }
    }

    /// Inserts a vector into the named collection.
    pub fn insert_vector(
        &mut self,
        name: &String,
        id: String,
        v: Vec<i32>,
        meta: Option<MetaValue>,
    ) -> (r: Result<(), Error>)
        requires
            old(self).wf(),
            old(self).has_col(name@)
                ==> old(self).cols@[old(self).col_idx(name@)].1.store.records@.len()
                    < usize::MAX - 1,
        ensures
            final(self).wf(),
            final(self).cols@.len() == old(self).cols@.len(),
            forall|j: int| 0 <= j < old(self).cols@.len()
                ==> (#[trigger] final(self).cols@[j]).0 == old(self).cols@[j].0,
            ({
                if !old(self).has_col(name@) {
                    r == Err::<(), Error>(Error::CollectionNotFound(*name))
                        && *final(self) == *old(self)
                } else {
                    let i = old(self).col_idx(name@);
                    let c0 = old(self).cols@[i].1;
                    let c1 = final(self).cols@[i].1;
                    &&& forall|j: int| 0 <= j < old(self).cols@.len() && j != i
                        ==> (#[trigger] final(self).cols@[j]).1 == old(self).cols@[j].1
                    &&& c1.config == c0.config
                    &&& c1.store.records@.len() <= c0.store.records@.len() + 1
                    &&& if !(c0.vec_ok(v@) && id@.len() <= crate::config::ID_MAX_LEN) {
                        c1 == c0 && (
                            if v@.len() != c0.config.dimensions {
                                r == Err::<(), Error>(Error::DimensionMismatch {
                                    expected: c0.config.dimensions,
                                    got: v@.len() as usize,
                                })
                            } else {
                                r matches Err(e) && e is InvalidConfig
                            })
                    } else if c0@.dom().contains(id@) {
                        r == Err::<(), Error>(Error::DuplicateId(id)) && c1 == c0
                    } else {
                        r is Ok && c1@ == c0@.insert(id@, (v@, crate::store::meta_view(meta)))
                            && c1.store.live_count == c0.store.live_count + 1
                    }
                }
            }),
    {
        match self.find_col(name) {
            None => Err(Error::CollectionNotFound(name.clone())),
            Some(i) => {
                let r = self.cols[i].1.insert(id, v, meta);
                proof {
                    assert forall|t: int| 0 <= t < self.cols@.len()
                        implies (#[trigger] self.cols@[t]).1.wf() by {
                        if t != i {
                            assert(self.cols@[t] == old(self).cols@[t]);
                            assert(old(self).cols@[t].1.wf());
                        }
                    }
                    assert forall|t1: int, t2: int| 0 <= t1 < t2 < self.cols@.len()
                        implies (#[trigger] self.cols@[t1]).0@
                            != (#[trigger] self.cols@[t2]).0@ by {
                        assert(self.cols@[t1].0 == old(self).cols@[t1].0);
                        assert(self.cols@[t2].0 == old(self).cols@[t2].0);
                    }
                }
                r
            },
        }
    }

    /// Inserts or replaces a vector in the named collection.
    pub fn upsert_vector(
        &mut self,
        name: &String,
        id: String,
        v: Vec<i32>,
        meta: Option<MetaValue>,
    ) -> (r: Result<(), Error>)
        requires
            old(self).wf(),
            old(self).has_col(name@)
                ==> old(self).cols@[old(self).col_idx(name@)].1.store.records@.len()
                    < usize::MAX - 1,
        ensures
            final(self).wf(),
            final(self).cols@.len() == old(self).cols@.len(),
            forall|j: int| 0 <= j < old(self).cols@.len()
                ==> (#[trigger] final(self).cols@[j]).0 == old(self).cols@[j].0,
            ({
                if !old(self).has_col(name@) {
                    r == Err::<(), Error>(Error::CollectionNotFound(*name))
                        && *final(self) == *old(self)
                } else {
                    let i = old(self).col_idx(name@);
                    let c0 = old(self).cols@[i].1;
                    let c1 = final(self).cols@[i].1;
                    &&& forall|j: int| 0 <= j < old(self).cols@.len() && j != i
                        ==> (#[trigger] final(self).cols@[j]).1 == old(self).cols@[j].1
                    &&& c1.config == c0.config
                    &&& c1.store.records@.len() <= c0.store.records@.len() + 1
                    &&& if !(c0.vec_ok(v@) && id@.len() <= crate::config::ID_MAX_LEN) {
                        c1 == c0 && (
                            if v@.len() != c0.config.dimensions {
                                r == Err::<(), Error>(Error::DimensionMismatch {
                                    expected: c0.config.dimensions,
                                    got: v@.len() as usize,
                                })
                            } else {
                                r matches Err(e) && e is InvalidConfig
                            })
                    } else {
                        r is Ok && c1@ == c0@.insert(id@, (v@, crate::store::meta_view(meta)))
                    }
                }
            }),
    {
        match self.find_col(name) {
            None => Err(Error::CollectionNotFound(name.clone())),
            Some(i) => {
                let r = self.cols[i].1.upsert(id, v, meta);
                proof {
                    assert forall|t: int| 0 <= t < self.cols@.len()
                        implies (#[trigger] self.cols@[t]).1.wf() by {
                        if t != i {
                            assert(self.cols@[t] == old(self).cols@[t]);
                            assert(old(self).cols@[t].1.wf());
                        }
                    }
                    assert forall|t1: int, t2: int| 0 <= t1 < t2 < self.cols@.len()
                        implies (#[trigger] self.cols@[t1]).0@
                            != (#[trigger] self.cols@[t2]).0@ by {
                        assert(self.cols@[t1].0 == old(self).cols@[t1].0);
                        assert(self.cols@[t2].0 == old(self).cols@[t2].0);
                    }
                }
                r
            },
        }
    }

    /// Removes a vector from the named collection; `Ok(false)` when the
    /// identifier is unknown there.
    pub fn delete_vector(&mut self, name: &String, id: &String) -> (r: Result<bool, Error>)
        requires
            old(self).wf(),
        ensures
            final(self).wf(),
            final(self).cols@.len() == old(self).cols@.len(),
            forall|j: int| 0 <= j < old(self).cols@.len()
                ==> (#[trigger] final(self).cols@[j]).0 == old(self).cols@[j].0,
            ({
                if !old(self).has_col(name@) {
                    r == Err::<bool, Error>(Error::CollectionNotFound(*name))
                        && *final(self) == *old(self)
                } else {
                    let i = old(self).col_idx(name@);
                    let c0 = old(self).cols@[i].1;
                    let c1 = final(self).cols@[i].1;
                    &&& forall|j: int| 0 <= j < old(self).cols@.len() && j != i
                        ==> (#[trigger] final(self).cols@[j]).1 == old(self).cols@[j].1
                    &&& if c0@.dom().contains(id@) {
                        r == Ok::<bool, Error>(true) && c1@ == c0@.remove(id@)
                    } else {
                        r == Ok::<bool, Error>(false) && c1 == c0
                    }
                }
            }),
    {
        match self.find_col(name) {
            None => Err(Error::CollectionNotFound(name.clone())),
            Some(i) => {
                let r = self.cols[i].1.delete(id);
                proof {
                    assert forall|t: int| 0 <= t < self.cols@.len()
                        implies (#[trigger] self.cols@[t]).1.wf() by {
                        if t != i {
                            assert(self.cols@[t] == old(self).cols@[t]);
                            assert(old(self).cols@[t].1.wf());
                        }
                    }
                    assert forall|t1: int, t2: int| 0 <= t1 < t2 < self.cols@.len()
                        implies (#[trigger] self.cols@[t1]).0@
                            != (#[trigger] self.cols@[t2]).0@ by {
                        assert(self.cols@[t1].0 == old(self).cols@[t1].0);
                        assert(self.cols@[t2].0 == old(self).cols@[t2].0);
                    }
                }
                r
            },
        }
    }

    /// Applies `upsert` to every item, in order, in the named collection.
    pub fn upsert_batch(
        &mut self,
        name: &String,
        items: Vec<(String, Vec<i32>, Option<MetaValue>)>,
    ) -> (r: Result<(), Error>)
        requires
            old(self).wf(),
            old(self).has_col(name@)
                ==> old(self).cols@[old(self).col_idx(name@)].1.store.records@.len()
                    + items@.len() < usize::MAX - 1,
        ensures
            final(self).wf(),
            final(self).cols@.len() == old(self).cols@.len(),
            forall|j: int| 0 <= j < old(self).cols@.len()
                ==> (#[trigger] final(self).cols@[j]).0 == old(self).cols@[j].0,
            ({
                if !old(self).has_col(name@) {
                    r == Err::<(), Error>(Error::CollectionNotFound(*name))
                        && *final(self) == *old(self)
                } else {
                    let i = old(self).col_idx(name@);
                    let c0 = old(self).cols@[i].1;
                    let c1 = final(self).cols@[i].1;
                    &&& forall|j: int| 0 <= j < old(self).cols@.len() && j != i
                        ==> (#[trigger] final(self).cols@[j]).1 == old(self).cols@[j].1
                    &&& c1.config == c0.config
                    &&& (r is Ok ==> c1@ == crate::collection::apply_upserts(
                        c0@,
                        items@,
                        items@.len() as int,
                    ) && (forall|j: int| 0 <= j < items@.len()
                        ==> c0.vec_ok((#[trigger] items@[j]).1@)
                            && items@[j].0@.len() <= crate::config::ID_MAX_LEN))
                    &&& (r is Err ==> exists|n: int| 0 <= n < items@.len()
                        && !(c0.vec_ok((#[trigger] items@[n]).1@)
                            && items@[n].0@.len() <= crate::config::ID_MAX_LEN)
                        && (forall|j: int| 0 <= j < n ==> c0.vec_ok((#[trigger] items@[j]).1@)
                            && items@[j].0@.len() <= crate::config::ID_MAX_LEN)
                        && c1@ == crate::collection::apply_upserts(c0@, items@, n)
                        && (if items@[n].1@.len() != c0.config.dimensions {
                            r == Err::<(), Error>(Error::DimensionMismatch {
                                expected: c0.config.dimensions,
                                got: items@[n].1@.len() as usize,
                            })
                        } else {
                            r matches Err(e) && e is InvalidConfig
                        }))
                }
            }),
    {
        match self.find_col(name) {
            None => Err(Error::CollectionNotFound(name.clone())),
            Some(i) => {
                let r = self.cols[i].1.upsert_batch(items);
                proof {
                    assert forall|t: int| 0 <= t < self.cols@.len()
                        implies (#[trigger] self.cols@[t]).1.wf() by {
                        if t != i {
                            assert(self.cols@[t] == old(self).cols@[t]);
                            assert(old(self).cols@[t].1.wf());
                        }
                    }
                    assert forall|t1: int, t2: int| 0 <= t1 < t2 < self.cols@.len()
                        implies (#[trigger] self.cols@[t1]).0@
                            != (#[trigger] self.cols@[t2]).0@ by {
                        assert(self.cols@[t1].0 == old(self).cols@[t1].0);
                        assert(self.cols@[t2].0 == old(self).cols@[t2].0);
                    }
                }
                r
            },
        }
    }

    /// Aggregate counters across all collections.
    pub fn get_stats(&self) -> (s: DatabaseStats)
        requires
            self.wf(),
        ensures
            s.per_collection@.len() == self.cols@.len(),
            forall|i: int| 0 <= i < self.cols@.len()
                ==> (#[trigger] s.per_collection@[i]).0@ == self.cols@[i].0@
                    && s.per_collection@[i].1.vector_count == self.cols@[i].1.store.live_count,
            s.total_vectors as int == vstd::math::min(
                sum_live(self.cols@, self.cols@.len() as int),
                usize::MAX as int,
            ),
    {
        let mut per: Vec<(String, CollectionStats)> = Vec::new();
        let mut total: usize = 0;
        let mut i: usize = 0;
        while i < self.cols.len()
            invariant
                0 <= i <= self.cols@.len(),
                self.wf(),
                per@.len() == i,
                forall|j: int| 0 <= j < i ==> (#[trigger] per@[j]).0@ == self.cols@[j].0@
                    && per@[j].1.vector_count == self.cols@[j].1.store.live_count,
                total as int == vstd::math::min(sum_live(self.cols@, i as int), usize::MAX as int),
            decreases self.cols@.len() - i,
        {
            let st = self.cols[i].1.stats();
            total = match total.checked_add(st.vector_count) {
                Some(t) => t,
                None => usize::MAX,
            };
            proof {
                assert(sum_live(self.cols@, i as int + 1)
                    == sum_live(self.cols@, i as int) + self.cols@[i as int].1.store.live_count);
            }
            per.push((self.cols[i].0.clone(), st));
            i = i + 1;
        }
        DatabaseStats { per_collection: per, total_vectors: total }
    }
}

} // verus!
