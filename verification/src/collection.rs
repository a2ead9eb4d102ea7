//! One collection: a configuration, the record store, and the index graph,
//! kept in lock-step. Its contracts speak of the collection as a map from
//! identifier to vector and metadata.

use vstd::prelude::*;
use crate::config::{Config, DistanceMetric, QuantizationType, COMP_LIMIT, ID_MAX_LEN, MAX_DIM};
use crate::errors::Error;
use crate::filter::{eval_filter, Filter};
use crate::graph::HnswGraph;
use crate::hnsw::{
    aligned, aligned_except, clone_vec_i32, descend, graph_insert, scored_ok, search_layer,
    sort_scored, sorted_adjacent, Lcg, Scored,
};
use crate::meta::{MetaV, MetaValue};
use crate::metric::{
    bounded, distance_from_key, dot_s, key_le, key_s, report_distance, score, Distance,
};
use crate::quant::encode_vector;
use crate::store::{meta_view, Record, VectorStore};

verus! {

/// The identifiers of the live records, in slot order.
pub open spec fn live_ids(recs: Seq<Record>) -> Seq<Seq<char>>
    decreases recs.len(),
{
    if recs.len() == 0 {
        Seq::empty()
    } else {
        live_ids(recs.drop_last()) + (if recs.last().live {
            seq![recs.last().id@]
        } else {
            Seq::empty()
        })
    }
}

/// The map a collection holds after the first `n` items of a batch have
/// been applied as upserts.
pub open spec fn apply_upserts(
    m: Map<Seq<char>, (Seq<i32>, Option<MetaV>)>,
    items: Seq<(String, Vec<i32>, Option<MetaValue>)>,
    n: int,
) -> Map<Seq<char>, (Seq<i32>, Option<MetaV>)>
    decreases n,
{
    if n <= 0 {
        m
    } else {
        apply_upserts(m, items, n - 1).insert(
            items[n - 1].0@,
            (items[n - 1].1@, meta_view(items[n - 1].2)),
        )
    }
}

/// Aggregate counters for one collection.
#[derive(Debug, Clone, Copy)]
pub struct CollectionStats {
    /// Number of live vectors.
    pub vector_count: usize,
    /// Four bytes per stored component.
    pub memory_estimate_bytes: usize,
    /// The collection's configuration.
    pub config: Config,
}

/// A named set of vectors under one configuration, indexed by an HNSW graph.
pub struct Collection {
    pub config: Config,
    pub store: VectorStore,
    pub graph: HnswGraph,
    pub rng: Lcg,
}

impl View for Collection {
    type V = Map<Seq<char>, (Seq<i32>, Option<MetaV>)>;

    open spec fn view(&self) -> Map<Seq<char>, (Seq<i32>, Option<MetaV>)> {
        self.store.view_map()
    }
}

impl Collection {
    /// The collection invariant: a valid configuration, a sound store and
    /// graph, and a graph node exactly per live record.
    pub open spec fn wf(self) -> bool {
        &&& self.config.valid()
        &&& self.store.wf(self.config.dimensions as int)
        &&& self.graph.wf()
        &&& aligned(self.graph, self.store.records@, self.config.dimensions as int)
        &&& self.graph.m == self.config.m
        &&& self.graph.m_max0 == self.config.m_max0
        &&& self.store.records@.len() < usize::MAX
    }

    /// An input vector this collection accepts.
    pub open spec fn vec_ok(self, v: Seq<i32>) -> bool {
        v.len() == self.config.dimensions && bounded(v, COMP_LIMIT as int)
    }

    /// Creates a collection under `config`, rejecting an invalid one.
    pub fn new(config: Config) -> (r: Result<Collection, Error>)
        ensures
            config.valid() <==> r is Ok,
            r matches Err(e) ==> e is InvalidConfig,
            r matches Ok(c) ==> c.wf() && c@ == Map::<Seq<char>, (Seq<i32>, Option<MetaV>)>::empty()
                && c.config == config && c.store.live_count == 0
                && c.store.records@.len() == 0,
    {
        Collection::with_seed(config, 0x9E3779B97F4A7C15)
    }

    /// Creates a collection whose layer draws start from `seed`.
    pub fn with_seed(config: Config, seed: u64) -> (r: Result<Collection, Error>)
        ensures
            config.valid() <==> r is Ok,
            r matches Err(e) ==> e is InvalidConfig,
            r matches Ok(c) ==> c.wf() && c@ == Map::<Seq<char>, (Seq<i32>, Option<MetaV>)>::empty()
                && c.config == config && c.store.live_count == 0
                && c.store.records@.len() == 0,
    {
        config.validate()?;
        let c = Collection {
            config,
            store: VectorStore::new(),
            graph: HnswGraph::new(config.m, config.m_max0),
            rng: Lcg::new(seed),
        };
        Ok(c)
    }

    /// The number of live vectors.
    pub fn vector_count(&self) -> (n: usize)
        ensures
            n == self.store.live_count,
    {
        self.store.live_count
    }

    /// The aggregate counters.
    pub fn stats(&self) -> (s: CollectionStats)
        requires
            self.wf(),
        ensures
            s.vector_count == self.store.live_count,
            s.config == self.config,
            s.memory_estimate_bytes as int
                == vstd::math::min(
                    self.store.live_count * self.config.dimensions * 4,
                    usize::MAX as int,
                ),
    {
        let n = self.store.live_count;
        let mem: usize = match n.checked_mul(self.config.dimensions) {
            Some(p) => match p.checked_mul(4) {
                Some(b) => b,
                None => usize::MAX,
            },
            None => usize::MAX,
        };
        proof {
            if n * self.config.dimensions > usize::MAX {
                assert(n * self.config.dimensions * 4 >= n * self.config.dimensions)
                    by (nonlinear_arith);
            }
        }
        CollectionStats { vector_count: n, memory_estimate_bytes: mem, config: self.config }
    }

    /// Rejects an input the collection cannot store, naming the reason.
    fn validate_input(&self, id: &String, v: &Vec<i32>) -> (r: Result<(), Error>)
        requires
            self.wf(),
        ensures
            match r {
                Ok(()) => self.vec_ok(v@) && id@.len() <= ID_MAX_LEN,
                Err(e) => {
                    &&& if v@.len() != self.config.dimensions {
                        e == (Error::DimensionMismatch {
                            expected: self.config.dimensions,
                            got: v.len(),
                        })
                    } else {
                        e is InvalidConfig && (!bounded(v@, COMP_LIMIT as int)
                            || id@.len() > ID_MAX_LEN)
                    }
                },
            },
            r is Ok <==> (self.vec_ok(v@) && id@.len() <= ID_MAX_LEN),
    {
        if v.len() != self.config.dimensions {
            return Err(Error::DimensionMismatch { expected: self.config.dimensions, got: v.len() });
        }
        let mut t: usize = 0;
        while t < v.len()
            invariant
                0 <= t <= v@.len(),
                v@.len() == self.config.dimensions,
                forall|j: int| 0 <= j < t ==> -COMP_LIMIT <= #[trigger] v@[j] <= COMP_LIMIT,
            decreases v@.len() - t,
        {
            let c = v[t];
            if c > COMP_LIMIT || c < -COMP_LIMIT {
                proof {
                    assert(!bounded(v@, COMP_LIMIT as int)) by {
                        assert(!(-COMP_LIMIT <= v@[t as int] <= COMP_LIMIT));
                    }
                }
                return Err(Error::InvalidConfig("vector component out of range".to_string()));
            }
            t = t + 1;
        }
        let idlen = id.as_str().unicode_len();
        if idlen > ID_MAX_LEN {
            return Err(Error::InvalidConfig("identifier too long".to_string()));
        }
        Ok(())
    }

    /// Stores a validated, not-yet-present record and links it in the graph.
    fn insert_unchecked(&mut self, id: String, v: Vec<i32>, meta: Option<MetaValue>)
        requires
            old(self).wf(),
            old(self).vec_ok(v@),
            id@.len() <= ID_MAX_LEN,
            !old(self)@.dom().contains(id@),
            old(self).store.records@.len() < usize::MAX - 1,
        ensures
            final(self).wf(),
            final(self).config == old(self).config,
            final(self)@ == old(self)@.insert(id@, (v@, meta_view(meta))),
            final(self).store.live_count == old(self).store.live_count + 1,
            final(self).store.records@.len() <= old(self).store.records@.len() + 1,
    {
        let ghost dim = self.config.dimensions as int;
        proof {
            assert(!self.store.has_id(id@)) by {
                if self.store.has_id(id@) {
                    assert(self@.dom().contains(id@));
                }
            }
        }
        let qv: Option<Vec<u8>> = match self.config.quantization {
            QuantizationType::Disabled => None,
            QuantizationType::U8Scalar => Some(encode_vector(&v)),
        };
        let slot = self.store.store_new_record(id, v, meta, qv, Ghost(dim));
        if slot >= self.graph.alive.len() {
            proof {
                assert(self.graph.n() == self.store.records@.len() - 1);
            }
            let gi = self.graph.grow();
            proof {
                assert(gi == slot);
            }
        }
        let lvl = self.rng.gen_level(self.config.m);
        proof {
            assert(aligned_except(self.graph, self.store.records@, dim, slot as int)) by {
                assert forall|t: int| 0 <= t < self.store.records@.len() && t != slot
                    implies (self.graph.node_at(t)
                        <==> (#[trigger] self.store.records@[t]).live) by {
                    if t < old(self).store.records@.len() {
                        assert(old(self).store.records@[t] == self.store.records@[t]);
                    }
                }
                assert forall|t: int| 0 <= t < self.store.records@.len()
                    && (#[trigger] self.store.records@[t]).live
                    implies self.store.records@[t].vec@.len() == dim
                        && bounded(self.store.records@[t].vec@, COMP_LIMIT as int) by {}
            }
            assert(!self.graph.node_at(slot as int)) by {
                if (slot as int) < old(self).graph.n() {
                    assert(old(self).graph.node_at(slot as int)
                        <==> old(self).store.records@[slot as int].live);
                }
            }
        }
        graph_insert(
            &mut self.graph,
            &self.store.records,
            slot,
            lvl,
            self.config.ef_construction,
            self.config.distance_metric,
        );
    }

    /// Inserts a new vector; an identifier already live is refused.
    pub fn insert(&mut self, id: String, v: Vec<i32>, meta: Option<MetaValue>) -> (r: Result<
        (),
        Error,
    >)
        requires
            old(self).wf(),
            old(self).store.records@.len() < usize::MAX - 1,
        ensures
            final(self).wf(),
            final(self).config == old(self).config,
            final(self).store.records@.len() <= old(self).store.records@.len() + 1,
            ({
                if !(old(self).vec_ok(v@) && id@.len() <= ID_MAX_LEN) {
                    r is Err && *final(self) == *old(self) && (
                        if v@.len() != old(self).config.dimensions {
                            r == Err::<(), Error>(Error::DimensionMismatch {
                                expected: old(self).config.dimensions,
                                got: v@.len() as usize,
                            })
                        } else {
                            r matches Err(e) && e is InvalidConfig
                        })
                } else if old(self)@.dom().contains(id@) {
                    r == Err::<(), Error>(Error::DuplicateId(id)) && *final(self) == *old(self)
                } else {
                    r is Ok && final(self)@ == old(self)@.insert(id@, (v@, meta_view(meta)))
                        && final(self).store.live_count == old(self).store.live_count + 1
                }
            }),
    {
        match self.validate_input(&id, &v) {
            Ok(()) => {},
            Err(e) => {
                return Err(e);
            },
        }
        match self.store.find(&id) {
            Some(_) => {
                proof {
                    self.store.lemma_slot_of(
                        self.config.dimensions as int,
                        self.store.slot_of(id@),
                    );
                }
                return Err(Error::DuplicateId(id));
            },
            None => {
                proof {
                    if self@.dom().contains(id@) {
                        assert(self.store.has_id(id@));
                    }
                }
            },
        }
        self.insert_unchecked(id, v, meta);
        Ok(())
    }

    /// Removes the record under `id`, detaching its node from the graph.
    /// Returns whether anything was removed; a second call is a no-op.
    pub fn delete(&mut self, id: &String) -> (r: Result<bool, Error>)
        requires
            old(self).wf(),
        ensures
            final(self).wf(),
            final(self).config == old(self).config,
            final(self).store.records@.len() == old(self).store.records@.len(),
            r is Ok,
            ({
                if old(self)@.dom().contains(id@) {
                    r == Ok::<bool, Error>(true)
                        && final(self)@ == old(self)@.remove(id@)
                        && final(self).store.live_count == old(self).store.live_count - 1
                } else {
                    r == Ok::<bool, Error>(false) && *final(self) == *old(self)
                }
            }),
    {
        let ghost dim = self.config.dimensions as int;
        let slot_opt = self.store.find(id);
        match slot_opt {
            None => {
                proof {
                    if self@.dom().contains(id@) {
                        assert(self.store.has_id(id@));
                    }
                }
                Ok(false)
            },
            Some(slot) => {
                proof {
                    assert(self.store.has_id(id@)) by {
                        assert(self.store.live_at(slot as int)
                            && self.store.id_at(slot as int) == id@);
                    }
                    assert(self@.dom().contains(id@));
                    assert(self.graph.node_at(slot as int));
                }
                self.graph.remove_node(slot);
                self.store.kill(slot, Ghost(dim));
                proof {
                    let g = self.graph;
                    let recs = self.store.records@;
                    assert(aligned(g, recs, dim)) by {
                        assert forall|t: int| 0 <= t < recs.len()
                            implies (g.node_at(t) <==> (#[trigger] recs[t]).live) by {
                            if t != slot {
                                assert(old(self).store.records@[t] == recs[t]);
                                assert(g.node_at(t) <==> old(self).graph.node_at(t));
                            }
                        }
                        assert forall|t: int| 0 <= t < recs.len() && (#[trigger] recs[t]).live
                            implies recs[t].vec@.len() == dim
                                && bounded(recs[t].vec@, COMP_LIMIT as int) by {}
                    }
                }
                Ok(true)
            },
        }
    }

    /// Inserts or fully replaces the record under `id`.
    pub fn upsert(&mut self, id: String, v: Vec<i32>, meta: Option<MetaValue>) -> (r: Result<
        (),
        Error,
    >)
        requires
            old(self).wf(),
            old(self).store.records@.len() < usize::MAX - 1,
        ensures
            final(self).wf(),
            final(self).config == old(self).config,
            final(self).store.records@.len() <= old(self).store.records@.len() + 1,
            ({
                if !(old(self).vec_ok(v@) && id@.len() <= ID_MAX_LEN) {
                    r is Err && *final(self) == *old(self) && (
                        if v@.len() != old(self).config.dimensions {
                            r == Err::<(), Error>(Error::DimensionMismatch {
                                expected: old(self).config.dimensions,
                                got: v@.len() as usize,
                            })
                        } else {
                            r matches Err(e) && e is InvalidConfig
                        })
                } else {
                    r is Ok && final(self)@ == old(self)@.insert(id@, (v@, meta_view(meta)))
                }
            }),
    {
        match self.validate_input(&id, &v) {
            Ok(()) => {},
            Err(e) => {
                return Err(e);
            },
        }
        let ghost pre = self@;
        let _ = self.delete(&id)?;
        proof {
            assert(!self@.dom().contains(id@));
        }
        self.insert_unchecked(id, v, meta);
        proof {
            if pre.dom().contains(id@) {
                assert(pre.remove(id@).insert(id@, (v@, meta_view(meta)))
                    =~= pre.insert(id@, (v@, meta_view(meta))));
            }
        }
        Ok(())
    }

    /// Applies `upsert` to each item in order, stopping at the first
    /// rejected one; the items before it stay applied.
    pub fn upsert_batch(&mut self, items: Vec<(String, Vec<i32>, Option<MetaValue>)>) -> (r:
        Result<(), Error>)
        requires
            old(self).wf(),
            old(self).store.records@.len() + items@.len() < usize::MAX - 1,
        ensures
            final(self).wf(),
            final(self).config == old(self).config,
            r is Ok ==> forall|j: int| 0 <= j < items@.len()
                ==> old(self).vec_ok((#[trigger] items@[j]).1@) && items@[j].0@.len() <= ID_MAX_LEN,
            r is Ok ==> final(self)@ == apply_upserts(old(self)@, items@, items@.len() as int),
            r is Err ==> exists|n: int| 0 <= n < items@.len()
                && !(old(self).vec_ok((#[trigger] items@[n]).1@)
                    && items@[n].0@.len() <= ID_MAX_LEN)
                && (forall|j: int| 0 <= j < n ==> old(self).vec_ok((#[trigger] items@[j]).1@)
                    && items@[j].0@.len() <= ID_MAX_LEN)
                && final(self)@ == apply_upserts(old(self)@, items@, n)
                && (if items@[n].1@.len() != old(self).config.dimensions {
                    r == Err::<(), Error>(Error::DimensionMismatch {
                        expected: old(self).config.dimensions,
                        got: items@[n].1@.len() as usize,
                    })
                } else {
                    r matches Err(e) && e is InvalidConfig
                }),
    {
        let mut i: usize = 0;
        while i < items.len()
            invariant
                0 <= i <= items@.len(),
                self.wf(),
                self.config == old(self).config,
                self.store.records@.len() <= old(self).store.records@.len() + i,
                old(self).store.records@.len() + items@.len() < usize::MAX - 1,
                self@ == apply_upserts(old(self)@, items@, i as int),
                forall|j: int| 0 <= j < i ==> old(self).vec_ok((#[trigger] items@[j]).1@)
                    && items@[j].0@.len() <= ID_MAX_LEN,
            decreases items@.len() - i,
        {
            let it = &items[i];
            let id = it.0.clone();
            let v = clone_vec_i32(&it.1);
            let meta: Option<MetaValue> = match &it.2 {
                Some(mv) => Some(mv.duplicate()),
                None => None,
            };
            let ghost pre_view = self@;
            match self.upsert(id, v, meta) {
                Ok(()) => {
                    proof {
                        assert(id@ == items@[i as int].0@);
                        assert(v@ == items@[i as int].1@);
                        assert(meta_view(meta) == meta_view(items@[i as int].2));
                        assert(self@ == apply_upserts(old(self)@, items@, i as int + 1));
                    }
                },
                Err(e) => {
                    proof {
                        assert(!(old(self).vec_ok(items@[i as int].1@)
                            && items@[i as int].0@.len() <= ID_MAX_LEN));
                        assert(self@ == apply_upserts(old(self)@, items@, i as int));
                        assert(v@ == items@[i as int].1@);
                    }
                    return Err(e);
                },
            }
            i = i + 1;
        }
        Ok(())
    }

    /// Returns the vector and metadata stored under `id`.
    pub fn get(&self, id: &String) -> (r: Result<Option<(Vec<i32>, Option<MetaValue>)>, Error>)
        requires
            self.wf(),
        ensures
            ({
                if self@.dom().contains(id@) {
                    r matches Ok(Some(p)) && p.0@ == self@[id@].0
                        && meta_view(p.1) == self@[id@].1
                } else {
                    r == Ok::<Option<(Vec<i32>, Option<MetaValue>)>, Error>(None)
                }
            }),
    {
        match self.store.find(id) {
            None => {
                proof {
                    if self@.dom().contains(id@) {
                        assert(self.store.has_id(id@));
                    }
                }
                Ok(None)
            },
            Some(slot) => {
                proof {
                    self.store.lemma_slot_of(self.config.dimensions as int, slot as int);
                }
                let v = clone_vec_i32(&self.store.records[slot].vec);
                let meta: Option<MetaValue> = match &self.store.records[slot].meta {
                    Some(mv) => Some(mv.duplicate()),
                    None => None,
                };
                Ok(Some((v, meta)))
            },
        }
    }

    /// Lists the live identifiers in slot order, `limit` of them starting
    /// at `offset`.
    pub fn list(&self, offset: usize, limit: usize) -> (r: Vec<String>)
        requires
            self.wf(),
        ensures
            ({
                let all = live_ids(self.store.records@);
                let lo = vstd::math::min(offset as int, all.len() as int);
                let hi = vstd::math::min(offset as int + limit as int, all.len() as int);
                r@.len() == hi - lo
                    && (forall|k: int| 0 <= k < r@.len() ==> (#[trigger] r@[k])@ == all[lo + k])
            }),
    {
        let mut all: Vec<String> = Vec::new();
        let mut t: usize = 0;
        let n = self.store.records.len();
        while t < n
            invariant
                0 <= t <= n,
                n == self.store.records@.len(),
                all@.len() == live_ids(self.store.records@.take(t as int)).len(),
                forall|k: int| 0 <= k < all@.len() ==> (#[trigger] all@[k])@ == live_ids(
                    self.store.records@.take(t as int),
                )[k],
            decreases n - t,
        {
            let ghost prefix = self.store.records@.take(t as int);
            proof {
                assert(self.store.records@.take(t as int + 1).drop_last() =~= prefix);
                assert(self.store.records@.take(t as int + 1).last()
                    == self.store.records@[t as int]);
            }
            if self.store.records[t].live {
                all.push(self.store.records[t].id.clone());
            }
            t = t + 1;
        }
        proof {
            assert(self.store.records@.take(n as int) =~= self.store.records@);
        }
        let total = all.len();
        let lo: usize = if offset < total {
            offset
        } else {
            total
        };
        let mut hi: usize = total;
        if limit < total && offset < total - limit {
            hi = offset + limit;
        }
        proof {
            assert(hi as int == vstd::math::min(offset as int + limit as int, total as int)
                || lo == total);
            if lo == total {
            }
        }
        let mut out: Vec<String> = Vec::new();
        let mut k: usize = lo;
        while k < hi
            invariant
                lo <= k <= hi <= total,
                total == all@.len(),
                out@.len() == k - lo,
                forall|j: int| 0 <= j < out@.len() ==> (#[trigger] out@[j])@ == all@[lo + j]@,
            decreases hi - k,
        {
            out.push(all[k].clone());
            k = k + 1;
        }
        proof {
            let allv = live_ids(self.store.records@);
            assert(allv.len() == all@.len());
            let lo_s = vstd::math::min(offset as int, allv.len() as int);
            let hi_s = vstd::math::min(offset as int + limit as int, allv.len() as int);
            assert(lo as int == lo_s);
            assert(hi as int == hi_s || lo == total);
            if lo == total {
                assert(out@.len() == 0);
                assert(hi_s - lo_s >= 0);
            }
        }
        out
    }

    /// A returned hit is sound: its identifier is stored, its metadata is
    /// the stored record's, its distance is derived from the exact score of
    /// the stored vector against the query, and it passes the filter.
    pub open spec fn hit_ok(
        self,
        q: Seq<i32>,
        filter: Option<&Filter>,
        hit: (String, Distance, Option<MetaValue>),
    ) -> bool {
        &&& self@.dom().contains(hit.0@)
        &&& meta_view(hit.2) == self@[hit.0@].1
        &&& distance_from_key(
            self.config.distance_metric,
            dot_s(q, q),
            key_s(q, self@[hit.0@].0),
            hit.1,
        )
        &&& match filter {
            Some(f) => eval_filter(*f, self@[hit.0@].1),
            None => true,
        }
    }

    /// Finds the `k` nearest stored vectors to `query`, closest first,
    /// keeping only hits the filter accepts. Non-matching nodes are still
    /// traversed, so a filter cannot sever the beam.
    #[verifier::loop_isolation(false)]
    #[verifier::rlimit(100)]
    pub fn search(&self, query: &Vec<i32>, k: usize, filter: Option<&Filter>) -> (r: Result<
        Vec<(String, Distance, Option<MetaValue>)>,
        Error,
    >)
        requires
            self.wf(),
        ensures
            ({
                if query@.len() != self.config.dimensions {
                    r == Err::<Vec<(String, Distance, Option<MetaValue>)>, Error>(
                        Error::DimensionMismatch {
                            expected: self.config.dimensions,
                            got: query@.len() as usize,
                        },
                    )
                } else if !bounded(query@, COMP_LIMIT as int) {
                    r matches Err(e) && e is InvalidConfig
                } else if self.store.live_count == 0 {
                    r == Err::<Vec<(String, Distance, Option<MetaValue>)>, Error>(Error::EmptyIndex)
                } else {
                    r matches Ok(hits) && {
                        &&& hits@.len() <= k
                        &&& forall|t: int| 0 <= t < hits@.len()
                            ==> self.hit_ok(query@, filter, #[trigger] hits@[t])
                        &&& forall|t1: int, t2: int| 0 <= t1 < t2 < hits@.len()
                            ==> hits@[t1].0@ != hits@[t2].0@
                        &&& forall|t: int| 0 <= t && t + 1 < hits@.len()
                            ==> key_le(
                                self.config.distance_metric,
                                dot_s(query@, query@),
                                key_s(query@, self@[(#[trigger] hits@[t]).0@].0),
                                key_s(query@, self@[hits@[t + 1].0@].0),
                            )
                        &&& (filter is None && k >= 1) ==> hits@.len() >= 1
                    }
                }
            }),
    {
        let m = self.config.distance_metric;
        if query.len() != self.config.dimensions {
            return Err(Error::DimensionMismatch {
                expected: self.config.dimensions,
                got: query.len(),
            });
        }
        let mut t: usize = 0;
        while t < query.len()
            invariant
                0 <= t <= query@.len(),
                forall|j: int| 0 <= j < t ==> -COMP_LIMIT <= #[trigger] query@[j] <= COMP_LIMIT,
            decreases query@.len() - t,
        {
            let c = query[t];
            if c > COMP_LIMIT || c < -COMP_LIMIT {
                proof {
                    assert(!bounded(query@, COMP_LIMIT as int)) by {
                        assert(!(-COMP_LIMIT <= query@[t as int] <= COMP_LIMIT));
                    }
                }
                return Err(Error::InvalidConfig("query component out of range".to_string()));
            }
            t = t + 1;
        }
        let e: usize;
        match self.graph.ep {
            None => {
                proof {
                    crate::store::lemma_no_live_count_zero(self.store.records@);
                }
                return Err(Error::EmptyIndex);
            },
            Some(e0) => {
                e = e0;
                proof {
                    assert(self.graph.node_at(e as int));
                    assert(self.store.records@[e as int].live);
                    crate::store::lemma_count_live_pos(self.store.records@, e as int);
                }
            },
        }
        let recs = &self.store.records;
        let self_key = score(query, query);
        let qn: i128 = self_key.dot;
        proof {
            crate::metric::lemma_self_dot_nonneg(query@);
            vstd::std_specs::vec::axiom_spec_len(&self.store.records);
        }
        let ekey = score(query, &recs[e].vec);
        let cur = Scored { slot: e, key: ekey };
        let etop = self.graph.tops[e];
        let cur0 = descend(recs, &self.graph, query, qn, m, cur, etop, 0);
        let ef: usize = if k > self.config.ef_search_default {
            k
        } else {
            self.config.ef_search_default
        };
        let mut eps: Vec<Scored> = Vec::new();
        eps.push(cur0);
        let res = search_layer(recs, &self.graph, query, qn, m, eps, ef, 0, filter);
        let ghost keep = |s: Scored| scored_ok(recs@, query@, s)
            && crate::hnsw::admits(recs@, filter, s.slot as int);
        proof {
            assert forall|j: int| 0 <= j < res@.len() implies keep(#[trigger] res@[j]) by {}
        }
        let mut sorted = sort_scored(res, m, qn, Ghost(keep));
        sorted.truncate(k);
        let mut hits: Vec<(String, Distance, Option<MetaValue>)> = Vec::new();
        let mut w: usize = 0;
        while w < sorted.len()
            invariant
                0 <= w <= sorted@.len(),
                hits@.len() == w,
                forall|j: int| 0 <= j < sorted@.len() ==> keep(#[trigger] sorted@[j]),
                sorted_adjacent(m, qn as int, sorted@),
                crate::hnsw::distinct_slots(sorted@),
                forall|j: int| 0 <= j < w ==> (#[trigger] hits@[j]).0@
                    == self.store.id_at(sorted@[j].slot as int),
                forall|j: int| 0 <= j < w ==> self.hit_ok(query@, filter, #[trigger] hits@[j]),
            decreases sorted@.len() - w,
        {
            let sc = sorted[w];
            proof {
                assert(keep(sorted@[w as int]));
                self.store.lemma_slot_of(self.config.dimensions as int, sc.slot as int);
            }
            let id = recs[sc.slot].id.clone();
            let dist = report_distance(m, qn, &sc.key);
            let meta: Option<MetaValue> = match &recs[sc.slot].meta {
                Some(mv) => Some(mv.duplicate()),
                None => None,
            };
            proof {
                assert(self@[id@].0 == recs@[sc.slot as int].vec@);
                assert(self@[id@].1 == meta_view(recs@[sc.slot as int].meta));
                assert(meta_view(meta) == meta_view(recs@[sc.slot as int].meta));
            }
            hits.push((id, dist, meta));
            w = w + 1;
        }
        proof {
            assert forall|t1: int, t2: int| 0 <= t1 < t2 < hits@.len()
                implies hits@[t1].0@ != hits@[t2].0@ by {
                let s1 = sorted@[t1].slot;
                let s2 = sorted@[t2].slot;
                assert(s1 != s2);
                assert(keep(sorted@[t1]) && keep(sorted@[t2]));
                assert(self.store.id_at(s1 as int) != self.store.id_at(s2 as int));
            }
            assert forall|t: int| 0 <= t && t + 1 < hits@.len()
                implies key_le(
                    m,
                    dot_s(query@, query@),
                    key_s(query@, self@[(#[trigger] hits@[t]).0@].0),
                    key_s(query@, self@[hits@[t + 1].0@].0),
                ) by {
                assert(keep(sorted@[t]) && keep(sorted@[t + 1]));
                self.store.lemma_slot_of(self.config.dimensions as int, sorted@[t].slot as int);
                self.store.lemma_slot_of(
                    self.config.dimensions as int,
                    sorted@[t + 1].slot as int,
                );
                assert(key_le(m, qn as int, sorted@[t].key@, sorted@[t + 1].key@));
                assert(sorted@[t].key@ == key_s(query@, self@[hits@[t].0@].0));
            }
        }
        Ok(hits)
    }
}

} // verus!
