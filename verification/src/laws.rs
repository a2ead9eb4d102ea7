//! The library's laws: properties that hold of every collection after any
//! sequence of operations, stated over the models the contracts use and
//! proved from the invariants.

use vstd::prelude::*;
use crate::collection::{live_ids, Collection};
use crate::meta::MetaV;
use crate::store::{count_live, Record};

verus! {

/// Law: the identifier listing names one identifier per live record — the
/// listing's length is exactly the vector count.
pub proof fn lemma_live_ids_count(recs: Seq<Record>)
    ensures
        live_ids(recs).len() == count_live(recs),
    decreases recs.len(),
{
    if recs.len() > 0 {
        lemma_live_ids_count(recs.drop_last());
    }
}

/// Each listed identifier belongs to some live record.
pub proof fn lemma_live_ids_sound(recs: Seq<Record>, k: int)
    requires
        0 <= k < live_ids(recs).len(),
    ensures
        exists|i: int| 0 <= i < recs.len() && (#[trigger] recs[i]).live
            && recs[i].id@ == live_ids(recs)[k],
    decreases recs.len(),
{
    let pre = live_ids(recs.drop_last());
    if k < pre.len() {
        lemma_live_ids_sound(recs.drop_last(), k);
        let i = choose|i: int| 0 <= i < recs.drop_last().len()
            && (#[trigger] recs.drop_last()[i]).live && recs.drop_last()[i].id@ == pre[k];
        assert(recs[i].live && recs[i].id@ == live_ids(recs)[k]);
    } else {
        assert(recs[recs.len() - 1].live && recs[recs.len() - 1].id@ == live_ids(recs)[k]);
    }
}

/// Law: the listed identifiers are pairwise distinct, in a collection whose
/// live identifiers are unique.
pub proof fn lemma_live_ids_distinct(recs: Seq<Record>, k1: int, k2: int)
    requires
        forall|i: int, j: int| 0 <= i < recs.len() && 0 <= j < recs.len() && i != j
            && (#[trigger] recs[i]).live && (#[trigger] recs[j]).live
            ==> recs[i].id@ != recs[j].id@,
        0 <= k1 < k2 < live_ids(recs).len(),
    ensures
        live_ids(recs)[k1] != live_ids(recs)[k2],
    decreases recs.len(),
{
    let pre = live_ids(recs.drop_last());
    if k2 < pre.len() {
        assert forall|i: int, j: int| 0 <= i < recs.drop_last().len()
            && 0 <= j < recs.drop_last().len() && i != j
            && (#[trigger] recs.drop_last()[i]).live && (#[trigger] recs.drop_last()[j]).live
            implies recs.drop_last()[i].id@ != recs.drop_last()[j].id@ by {
            assert(recs[i].live && recs[j].live);
        }
        lemma_live_ids_distinct(recs.drop_last(), k1, k2);
    } else {
        lemma_live_ids_sound(recs, k1);
        let i = choose|i: int| 0 <= i < recs.len() && (#[trigger] recs[i]).live
            && recs[i].id@ == live_ids(recs)[k1];
        assert(live_ids(recs)[k2] == recs[recs.len() - 1].id@);
        lemma_live_ids_sound(recs.drop_last(), k1);
        let i0 = choose|i0: int| 0 <= i0 < recs.drop_last().len()
            && (#[trigger] recs.drop_last()[i0]).live && recs.drop_last()[i0].id@ == pre[k1];
        assert(recs[i0].live && recs[i0].id@ == pre[k1]);
        assert(i0 != recs.len() - 1);
        assert(recs[i0].id@ != recs[recs.len() - 1].id@);
    }
}

/// Law: the counter a collection reports counts exactly its live records,
/// and the identifier listing has that many distinct entries.
pub proof fn lemma_vector_count(c: Collection)
    requires
        c.wf(),
    ensures
        c.store.live_count == count_live(c.store.records@),
        live_ids(c.store.records@).len() == c.store.live_count,
        forall|k1: int, k2: int| 0 <= k1 < k2 < live_ids(c.store.records@).len()
            ==> live_ids(c.store.records@)[k1] != live_ids(c.store.records@)[k2],
{
    lemma_live_ids_count(c.store.records@);
    assert forall|k1: int, k2: int| 0 <= k1 < k2 < live_ids(c.store.records@).len()
        implies live_ids(c.store.records@)[k1] != live_ids(c.store.records@)[k2] by {
        lemma_live_ids_distinct(c.store.records@, k1, k2);
    }
}

/// Law: after any mutation, every edge of a collection's graph is stored in
/// both directions, and both of its ends are live records — no tombstoned
/// record appears in any neighbour list.
pub proof fn lemma_bidirectional_live(c: Collection, a: usize, b: usize, l: int)
    requires
        c.wf(),
    ensures
        c.graph.has_edge(a, b, l) <==> c.graph.has_edge(b, a, l),
        c.graph.has_edge(a, b, l) ==> c.store.live_at(a as int) && c.store.live_at(b as int),
{
    c.graph.lemma_bidirectional(a, b, l);
    if c.graph.has_edge(a, b, l) {
        assert(c.graph.node_at(a as int) && c.graph.node_at(b as int));
        assert(c.store.records@[a as int].live);
        assert(c.store.records@[b as int].live);
    }
}

/// Law: every live node's degree respects the configured caps, `m_max0` at
/// layer 0 and `m` above.
pub proof fn lemma_degree_cap(c: Collection, i: int, l: int)
    requires
        c.wf(),
        c.graph.node_at(i),
        0 <= l <= c.graph.top_of(i),
    ensures
        l == 0 ==> c.graph.nbs(i, l).len() <= c.config.m_max0,
        l > 0 ==> c.graph.nbs(i, l).len() <= c.config.m,
{
    c.graph.lemma_degree_cap(i, l);
}

/// Law: writing a record and reading it back returns exactly that record,
/// on the map model every operation's contract speaks over.
pub proof fn lemma_upsert_get(
    m: Map<Seq<char>, (Seq<i32>, Option<MetaV>)>,
    id: Seq<char>,
    v: Seq<i32>,
    md: Option<MetaV>,
)
    ensures
        m.insert(id, (v, md)).dom().contains(id),
        m.insert(id, (v, md))[id] == (v, md),
{
}

/// Law: removing an identifier is idempotent — the second removal changes
/// nothing, and the identifier is gone after the first.
pub proof fn lemma_delete_idempotent(m: Map<Seq<char>, (Seq<i32>, Option<MetaV>)>, id: Seq<char>)
    ensures
        !m.remove(id).dom().contains(id),
        m.remove(id).remove(id) == m.remove(id),
{
    assert(m.remove(id).remove(id) =~= m.remove(id));
}

} // verus!
