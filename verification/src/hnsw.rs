//! The search side of the index: scored candidates, beam search over one
//! layer, greedy descent, and the diversity-seeking neighbour selection
//! used during construction. A seeded generator draws node layers.

use vstd::prelude::*;
use crate::config::{DistanceMetric, COMP_LIMIT, MAX_DIM, MAX_LEVEL};
use crate::filter::{eval, eval_filter, Filter};
use crate::graph::{contains_usize, HnswGraph};
use crate::metric::{
    bounded, dot_s, key_in_range, key_le, key_le_exec, key_s, score, ScoreKey, MAX_DOT_ABS,
};
use crate::store::{meta_view, Record};

verus! {

/// A deterministic, seedable generator: a linear congruential step on 64
/// bits. It drives layer assignment, and nothing else.
pub struct Lcg {
    pub state: u64,
}

impl Lcg {
    /// A generator seeded with `seed`.
    pub fn new(seed: u64) -> (r: Lcg)
        ensures
            r.state == seed,
    {
        Lcg { state: seed }
    }

    /// The next raw draw.
    pub fn next_u64(&mut self) -> (r: u64) {
        self.state = self.state.wrapping_mul(6364136223846793005).wrapping_add(1442695040888963407);
        self.state >> 33
    }

    /// Draws a layer: the chance of reaching each further layer is `1/m`,
    /// the geometric law the index builds its hierarchy on, capped at
    /// `MAX_LEVEL`.
    pub fn gen_level(&mut self, m: usize) -> (l: usize)
        requires
            m >= 2,
        ensures
            l <= MAX_LEVEL,
    {
        let mut l: usize = 0;
        while l < MAX_LEVEL
            invariant
                l <= MAX_LEVEL,
                m >= 2,
            decreases MAX_LEVEL - l,
        {
            let r = self.next_u64();
            if r as u128 % (m as u128) != 0 {
                return l;
            }
            l = l + 1;
        }
        l
    }
}

/// One candidate: a slot together with its exact score against the query.
#[derive(Clone, Copy)]
pub struct Scored {
    pub slot: usize,
    pub key: ScoreKey,
}

/// The candidate scores the live record in its slot, exactly.
pub open spec fn scored_ok(recs: Seq<Record>, q: Seq<i32>, s: Scored) -> bool {
    &&& 0 <= s.slot < recs.len()
    &&& recs[s.slot as int].live
    &&& s.key@ == key_s(q, recs[s.slot as int].vec@)
    &&& key_in_range(s.key@)
}

/// The graph and the record array describe the same population: a slot is a
/// node exactly when its record is live, and live records hold in-range
/// vectors of the collection's dimension count.
pub open spec fn aligned(g: HnswGraph, recs: Seq<Record>, dim: int) -> bool {
    &&& g.n() == recs.len()
    &&& forall|i: int| 0 <= i < recs.len() ==> (g.node_at(i) <==> (#[trigger] recs[i]).live)
    &&& forall|i: int| 0 <= i < recs.len() && (#[trigger] recs[i]).live
        ==> recs[i].vec@.len() == dim && bounded(recs[i].vec@, COMP_LIMIT as int)
}

/// The filter accepts the metadata of the record in the candidate's slot;
/// no filter accepts everything.
pub open spec fn admits(recs: Seq<Record>, filter: Option<&Filter>, slot: int) -> bool {
    match filter {
        Option::Some(f) => eval_filter(*f, meta_view(recs[slot].meta)),
        Option::None => true,
    }
}

/// Alignment everywhere except one slot, which is live in the store but
/// not yet placed in the graph.
pub open spec fn aligned_except(g: HnswGraph, recs: Seq<Record>, dim: int, i: int) -> bool {
    &&& g.n() == recs.len()
    &&& forall|t: int| 0 <= t < recs.len() && t != i
        ==> (g.node_at(t) <==> (#[trigger] recs[t]).live)
    &&& forall|t: int| 0 <= t < recs.len() && (#[trigger] recs[t]).live
        ==> recs[t].vec@.len() == dim && bounded(recs[t].vec@, COMP_LIMIT as int)
}

/// Elements `k1 < k2` never share a slot.
pub open spec fn distinct_slots(s: Seq<Scored>) -> bool {
    forall|k1: int, k2: int| 0 <= k1 < k2 < s.len() ==> s[k1].slot != s[k2].slot
}

/// Each adjacent pair is ordered: earlier entries are at least as close.
pub open spec fn sorted_adjacent(m: DistanceMetric, qn: int, s: Seq<Scored>) -> bool {
    forall|k: int| 0 <= k && k + 1 < s.len() ==> key_le(m, qn, (#[trigger] s[k]).key@, s[k + 1].key@)
}

/// Inserts one candidate into a score-sorted list, keeping it sorted.
#[verifier::rlimit(100)]
fn insert_sorted(
    v: &mut Vec<Scored>,
    x: Scored,
    m: DistanceMetric,
    qn: i128,
    Ghost(keep): Ghost<spec_fn(Scored) -> bool>,
)
    requires
        key_in_range(x.key@),
        forall|k: int| 0 <= k < old(v)@.len() ==> key_in_range((#[trigger] old(v)@[k]).key@),
        0 <= qn <= MAX_DOT_ABS,
        sorted_adjacent(m, qn as int, old(v)@),
        distinct_slots(old(v)@),
        forall|k: int| 0 <= k < old(v)@.len() ==> (#[trigger] old(v)@[k]).slot != x.slot,
        keep(x),
        forall|k: int| 0 <= k < old(v)@.len() ==> keep(#[trigger] old(v)@[k]),
    ensures
        final(v)@.len() == old(v)@.len() + 1,
        sorted_adjacent(m, qn as int, final(v)@),
        distinct_slots(final(v)@),
        forall|k: int| 0 <= k < final(v)@.len()
            ==> (#[trigger] final(v)@[k]) == x
                || exists|j: int| 0 <= j < old(v)@.len() && final(v)@[k] == old(v)@[j],
        forall|k: int| 0 <= k < final(v)@.len() ==> key_in_range((#[trigger] final(v)@[k]).key@),
        forall|k: int| 0 <= k < final(v)@.len() ==> keep(#[trigger] final(v)@[k]),
{
    let mut p: usize = 0;
    while p < v.len() && key_le_exec(m, qn, &v[p].key, &x.key)
        invariant
            0 <= p <= v@.len(),
            *v == *old(v),
            key_in_range(x.key@),
            0 <= qn <= MAX_DOT_ABS,
            forall|k: int| 0 <= k < v@.len() ==> key_in_range((#[trigger] v@[k]).key@),
            forall|t: int| 0 <= t < p ==> key_le(m, qn as int, (#[trigger] v@[t]).key@, x.key@),
        decreases v@.len() - p,
    {
        p = p + 1;
    }
    proof {
        if p < v@.len() {
            crate::metric::lemma_key_le_total(m, qn as int, x.key@, v@[p as int].key@);
            assert(key_le(m, qn as int, x.key@, v@[p as int].key@));
        }
    }
    let mut res: Vec<Scored> = Vec::new();
    let mut t: usize = 0;
    while t < p
        invariant
            0 <= t <= p <= v@.len(),
            *v == *old(v),
            res@.len() == t,
            forall|u: int| 0 <= u < t ==> (#[trigger] res@[u]) == v@[u],
            sorted_adjacent(m, qn as int, res@),
            sorted_adjacent(m, qn as int, v@),
            forall|u: int| 0 <= u < v@.len() ==> keep(#[trigger] v@[u]),
            forall|u: int| 0 <= u < t ==> keep(#[trigger] res@[u]),
        decreases p - t,
    {
        let ghost rr = res@;
        res.push(v[t]);
        proof {
            assert(res@ == rr.push(v@[t as int]));
            assert forall|k: int| 0 <= k && k + 1 < res@.len()
                implies key_le(m, qn as int, (#[trigger] res@[k]).key@, res@[k + 1].key@) by {
                assert(rr.push(v@[t as int])[k] == (if k < rr.len() { rr[k] } else { v@[t as int] }));
                assert(rr.push(v@[t as int])[k + 1] == (if k + 1 < rr.len() { rr[k + 1] } else {
                    v@[t as int]
                }));
            }
        }
        t = t + 1;
    }
    let ghost r1 = res@;
    res.push(x);
    proof {
        assert(res@ == r1.push(x));
        assert forall|k: int| 0 <= k && k + 1 < res@.len()
            implies key_le(m, qn as int, (#[trigger] res@[k]).key@, res@[k + 1].key@) by {
            assert(r1.push(x)[k] == (if k < r1.len() { r1[k] } else { x }));
            assert(r1.push(x)[k + 1] == (if k + 1 < r1.len() { r1[k + 1] } else { x }));
            if k + 1 == p {
                assert(r1[k] == v@[k]);
            }
        }
    }
    while t < v.len()
        invariant
            p <= t <= v@.len(),
            *v == *old(v),
            key_in_range(x.key@),
            0 <= qn <= MAX_DOT_ABS,
            res@.len() == t + 1,
            forall|u: int| 0 <= u < p ==> (#[trigger] res@[u]) == v@[u],
            res@[p as int] == x,
            forall|u: int| p < u <= t ==> (#[trigger] res@[u]) == v@[u - 1],
            sorted_adjacent(m, qn as int, res@),
            sorted_adjacent(m, qn as int, v@),
            p < v@.len() ==> key_le(m, qn as int, x.key@, v@[p as int].key@),
            keep(x),
            forall|u: int| 0 <= u < v@.len() ==> keep(#[trigger] v@[u]),
            forall|u: int| 0 <= u < res@.len() ==> keep(#[trigger] res@[u]),
        decreases v@.len() - t,
    {
        let ghost r2 = res@;
        res.push(v[t]);
        proof {
            assert(res@ == r2.push(v@[t as int]));
            assert forall|k: int| 0 <= k && k + 1 < res@.len()
                implies key_le(m, qn as int, (#[trigger] res@[k]).key@, res@[k + 1].key@) by {
                assert(r2.push(v@[t as int])[k] == (if k < r2.len() { r2[k] } else { v@[t as int] }));
                assert(r2.push(v@[t as int])[k + 1] == (if k + 1 < r2.len() { r2[k + 1] } else {
                    v@[t as int]
                }));
                if k + 1 == res@.len() - 1 {
                    if t == p {
                        assert(r2[k] == x);
                    } else {
                        assert(r2[k] == v@[t as int - 1]);
                    }
                }
            }
        }
        t = t + 1;
    }
    let ghost pre = v@;
    *v = res;
    proof {
        assert(v@ == res@);
        assert(v@.len() == pre.len() + 1);
        assert forall|k: int| 0 <= k < v@.len()
            implies ((#[trigger] v@[k]) == x
                || exists|j: int| 0 <= j < pre.len() && v@[k] == pre[j]) by {
            assert(v@[k] == res@[k]);
            if k < p {
                assert(res@[k] == pre[k]);
            } else if k > p {
                assert(res@[k] == pre[k - 1]);
            }
        }
        assert forall|k: int| 0 <= k && k + 1 < v@.len()
            implies key_le(m, qn as int, (#[trigger] v@[k]).key@, v@[k + 1].key@) by {
            assert(v@[k] == res@[k] && v@[k + 1] == res@[k + 1]);
        }
        assert forall|k1: int, k2: int| 0 <= k1 < k2 < v@.len()
            implies v@[k1].slot != v@[k2].slot by {
            assert(v@[k1] == res@[k1] && v@[k2] == res@[k2]);
            if k1 == p {
                assert(res@[k1] == x && res@[k2] == pre[k2 - 1]);
            } else if k2 == p {
                assert(res@[k2] == x && res@[k1] == pre[k1]);
            } else {
                let p1: int = if k1 < p { k1 } else { k1 - 1 };
                let p2: int = if k2 < p { k2 } else { k2 - 1 };
                assert(res@[k1] == pre[p1] && res@[k2] == pre[p2]);
                assert(0 <= p1 < p2 < pre.len());
            }
        }
        assert forall|k: int| 0 <= k < v@.len()
            implies key_in_range((#[trigger] v@[k]).key@) by {
            assert(v@[k] == res@[k]);
            if k < p {
                assert(res@[k] == pre[k]);
            } else if k > p {
                assert(res@[k] == pre[k - 1]);
            }
        }
        assert forall|k: int| 0 <= k < v@.len() implies keep(#[trigger] v@[k]) by {
            assert(v@[k] == res@[k]);
        }
    }
}

/// Sorts candidates by their score, closest first, by insertion. Keeps
/// elements of the input only, all of them, with their slots distinct.
#[verifier::loop_isolation(false)]
pub fn sort_scored(
    input: Vec<Scored>,
    m: DistanceMetric,
    qn: i128,
    Ghost(keep): Ghost<spec_fn(Scored) -> bool>,
) -> (out: Vec<Scored>)
    requires
        forall|k: int| 0 <= k < input@.len() ==> key_in_range((#[trigger] input@[k]).key@),
        0 <= qn <= MAX_DOT_ABS,
        distinct_slots(input@),
        forall|k: int| 0 <= k < input@.len() ==> keep(#[trigger] input@[k]),
    ensures
        out@.len() == input@.len(),
        sorted_adjacent(m, qn as int, out@),
        forall|k: int| 0 <= k < out@.len() ==> keep(#[trigger] out@[k]),
        distinct_slots(out@),
{
    let mut out: Vec<Scored> = Vec::new();
    let mut i: usize = 0;
    while i < input.len()
        invariant
            0 <= i <= input@.len(),
            out@.len() == i,
            sorted_adjacent(m, qn as int, out@),
            forall|k: int| 0 <= k < out@.len()
                ==> exists|j: int| 0 <= j < i && (#[trigger] out@[k]) == input@[j],
            distinct_slots(out@),
            forall|k: int| 0 <= k < out@.len() ==> key_in_range((#[trigger] out@[k]).key@),
            forall|k: int| 0 <= k < out@.len() ==> keep(#[trigger] out@[k]),
        decreases input@.len() - i,
    {
        let x = input[i];
        proof {
            assert forall|k: int| 0 <= k < out@.len()
                implies (#[trigger] out@[k]).slot != x.slot by {
                let j = choose|j: int| 0 <= j < i && out@[k] == input@[j];
                assert(input@[j].slot != input@[i as int].slot);
            }
        }
        let ghost pre = out@;
        insert_sorted(&mut out, x, m, qn, Ghost(keep));
        proof {
            assert forall|k: int| 0 <= k < out@.len()
                implies exists|j: int| 0 <= j < i + 1 && (#[trigger] out@[k]) == input@[j] by {
                if out@[k] == x {
                    assert(out@[k] == input@[i as int]);
                } else {
                    let j0 = choose|j0: int| 0 <= j0 < pre.len() && out@[k] == pre[j0];
                    let j = choose|j: int| 0 <= j < i && pre[j0] == input@[j];
                    assert(out@[k] == input@[j]);
                }
            }
        }
        i = i + 1;
    }
    out
}



/// Copies a vector of components.
pub fn clone_vec_i32(v: &Vec<i32>) -> (r: Vec<i32>)
    ensures
        r@ == v@,
{
    let mut r: Vec<i32> = Vec::new();
    let mut i: usize = 0;
    while i < v.len()
        invariant
            0 <= i <= v@.len(),
            r@ == v@.take(i as int),
        decreases v@.len() - i,
    {
        r.push(v[i]);
        proof {
            assert(v@.take(i as int).push(v@[i as int]) =~= v@.take(i as int + 1));
        }
        i = i + 1;
    }
    proof {
        assert(v@.take(v@.len() as int) =~= v@);
    }
    r
}

/// Offers one candidate to the running result set: admitted when the filter
/// accepts it, growing the set up to `ef` entries and then displacing a
/// farther one.
fn admit_result(
    recs: &Vec<Record>,
    results: &mut Vec<Scored>,
    c: Scored,
    ef: usize,
    m: DistanceMetric,
    qn: i128,
    filter: Option<&Filter>,
    Ghost(q): Ghost<Seq<i32>>,
)
    requires
        ef >= 1,
        0 <= qn <= MAX_DOT_ABS,
        scored_ok(recs@, q, c),
        old(results)@.len() <= ef,
        forall|k: int| 0 <= k < old(results)@.len() ==> scored_ok(recs@, q, #[trigger] old(results)@[k]),
        forall|k: int| 0 <= k < old(results)@.len()
            ==> admits(recs@, filter, (#[trigger] old(results)@[k]).slot as int),
        distinct_slots(old(results)@),
        forall|k: int| 0 <= k < old(results)@.len() ==> (#[trigger] old(results)@[k]).slot != c.slot,
    ensures
        final(results)@.len() <= ef,
        final(results)@.len() >= old(results)@.len(),
        forall|k: int| 0 <= k < final(results)@.len()
            ==> scored_ok(recs@, q, #[trigger] final(results)@[k]),
        forall|k: int| 0 <= k < final(results)@.len()
            ==> admits(recs@, filter, (#[trigger] final(results)@[k]).slot as int),
        distinct_slots(final(results)@),
        filter is None ==> final(results)@.len() >= 1,
        forall|k: int| 0 <= k < final(results)@.len() ==> (#[trigger] final(results)@[k]) == c
            || exists|j: int| 0 <= j < old(results)@.len()
                && final(results)@[k] == old(results)@[j],
{
    let ok: bool = match filter {
        Option::Some(f) => {
            let meta_ref = recs[c.slot].meta.as_ref();
            let r = eval(f, meta_ref);
            proof {
                assert(crate::filter::meta_opt_view(meta_ref)
                    == meta_view(recs@[c.slot as int].meta));
            }
            r
        },
        Option::None => true,
    };
    if !ok {
        return;
    }
    let ghost pre = results@;
    if results.len() < ef {
        results.push(c);
        proof {
            assert forall|k: int| 0 <= k < results@.len()
                implies ((#[trigger] results@[k]) == c
                    || exists|j: int| 0 <= j < pre.len() && results@[k] == pre[j]) by {
                assert(results@ == pre.push(c));
                if k < pre.len() {
                    assert(pre.push(c)[k] == pre[k]);
                } else {
                    assert(pre.push(c)[k] == c);
                }
            }
            assert forall|k1: int, k2: int| 0 <= k1 < k2 < results@.len()
                implies results@[k1].slot != results@[k2].slot by {
                assert(results@ == pre.push(c));
                if k2 == pre.len() {
                    assert(pre.push(c)[k1] == pre[k1] && pre.push(c)[k2] == c);
                } else {
                    assert(pre.push(c)[k1] == pre[k1] && pre.push(c)[k2] == pre[k2]);
                }
            }
        }
    } else {
        // pick some entry to consider displacing: scan for a farthest one
        let mut wi: usize = 0;
        let mut j: usize = 1;
        while j < results.len()
            invariant
                results@ == pre,
                pre.len() >= 1,
                0 <= wi < pre.len(),
                1 <= j <= pre.len(),
                0 <= qn <= MAX_DOT_ABS,
                forall|k: int| 0 <= k < pre.len() ==> scored_ok(recs@, q, #[trigger] pre[k]),
                forall|k: int| 0 <= k < pre.len() ==> key_in_range((#[trigger] pre[k]).key@),
            decreases pre.len() - j,
        {
            if !key_le_exec(m, qn, &results[j].key, &results[wi].key) {
                wi = j;
            }
            j = j + 1;
        }
        if key_le_exec(m, qn, &c.key, &results[wi].key) {
            results.set(wi, c);
            proof {
                assert forall|k: int| 0 <= k < results@.len()
                    implies ((#[trigger] results@[k]) == c
                        || exists|jj: int| 0 <= jj < pre.len() && results@[k] == pre[jj]) by {
                    if k != wi {
                        assert(results@[k] == pre[k]);
                    }
                }
                assert forall|k1: int, k2: int| 0 <= k1 < k2 < results@.len()
                    implies results@[k1].slot != results@[k2].slot by {
                    if k1 != wi && k2 != wi {
                        assert(results@[k1] == pre[k1] && results@[k2] == pre[k2]);
                    } else if k1 == wi {
                        assert(results@[k2] == pre[k2]);
                    } else {
                        assert(results@[k1] == pre[k1]);
                    }
                }
            }
        }
    }
}

/// Runs the beam search over one layer: repeatedly expands the closest
/// unexpanded candidate, offering every newly seen neighbour to the result
/// set. Nodes failing the filter are still expanded, but never admitted.
#[verifier::loop_isolation(false)]
#[verifier::rlimit(100)]
pub fn search_layer(
    recs: &Vec<Record>,
    g: &HnswGraph,
    q: &Vec<i32>,
    qn: i128,
    m: DistanceMetric,
    eps: Vec<Scored>,
    ef: usize,
    l: usize,
    filter: Option<&Filter>,
) -> (res: Vec<Scored>)
    requires
        g.wf(),
        aligned(*g, recs@, q@.len() as int),
        q@.len() <= MAX_DIM,
        bounded(q@, COMP_LIMIT as int),
        qn as int == dot_s(q@, q@),
        0 <= qn <= MAX_DOT_ABS,
        ef >= 1,
        recs@.len() < usize::MAX,
        forall|k: int| 0 <= k < eps@.len() ==> scored_ok(recs@, q@, #[trigger] eps@[k]),
        forall|k: int| 0 <= k < eps@.len() ==> l <= g.top_of((#[trigger] eps@[k]).slot as int),
        distinct_slots(eps@),
    ensures
        forall|k: int| 0 <= k < res@.len() ==> scored_ok(recs@, q@, #[trigger] res@[k]),
        forall|k: int| 0 <= k < res@.len()
            ==> admits(recs@, filter, (#[trigger] res@[k]).slot as int),
        forall|k: int| 0 <= k < res@.len() ==> l <= g.top_of((#[trigger] res@[k]).slot as int),
        distinct_slots(res@),
        res@.len() <= ef,
        (filter is None && eps@.len() >= 1) ==> res@.len() >= 1,
{
    let n = recs.len();
    let mut visited: Vec<bool> = Vec::new();
    let mut t: usize = 0;
    while t < n
        invariant
            visited@.len() == t <= n,
            forall|u: int| 0 <= u < t ==> !(#[trigger] visited@[u]),
        decreases n - t,
    {
        visited.push(false);
        t = t + 1;
    }
    let mut cands: Vec<Scored> = Vec::new();
    let mut results: Vec<Scored> = Vec::new();
    let mut i: usize = 0;
    while i < eps.len()
        invariant
            0 <= i <= eps@.len(),
            visited@.len() == n,
            forall|k: int| 0 <= k < cands@.len() ==> scored_ok(recs@, q@, #[trigger] cands@[k]),
            forall|k: int| 0 <= k < cands@.len()
                ==> l <= g.top_of((#[trigger] cands@[k]).slot as int),
            forall|k: int| 0 <= k < results@.len() ==> scored_ok(recs@, q@, #[trigger] results@[k]),
            forall|k: int| 0 <= k < results@.len()
                ==> admits(recs@, filter, (#[trigger] results@[k]).slot as int),
            forall|k: int| 0 <= k < results@.len()
                ==> l <= g.top_of((#[trigger] results@[k]).slot as int),
            forall|k: int| 0 <= k < results@.len()
                ==> visited@[(#[trigger] results@[k]).slot as int],
            distinct_slots(results@),
            results@.len() <= ef,
            forall|x: int| 0 <= x < n ==> ((#[trigger] visited@[x])
                <==> exists|j: int| 0 <= j < i && (#[trigger] eps@[j]).slot == x),
            filter is None && i >= 1 && eps@.len() >= 1 ==> results@.len() >= 1,
        decreases eps@.len() - i,
    {
        let e = eps[i];
        if !visited[e.slot] {
            visited.set(e.slot, true);
            cands.push(e);
            proof {
                assert forall|k: int| 0 <= k < results@.len()
                    implies (#[trigger] results@[k]).slot != e.slot by {
                    assert(visited@[results@[k].slot as int]);
                }
            }
            admit_result(recs, &mut results, e, ef, m, qn, filter, Ghost(q@));
            proof {
                assert forall|x: int| 0 <= x < n
                    implies ((#[trigger] visited@[x])
                        <==> exists|j: int| 0 <= j < i + 1 && (#[trigger] eps@[j]).slot == x) by {
                    if x == e.slot {
                        assert(eps@[i as int].slot == x);
                    }
                }
            }
        } else {
            proof {
                // a seed cannot have been seen already: the seeds are distinct
                // and nothing else marks slots during seeding
                let j = choose|j: int| 0 <= j < i && (#[trigger] eps@[j]).slot == e.slot as int;
                assert(eps@[j].slot == eps@[i as int].slot);
                assert(false);
            }
        }
        i = i + 1;
    }
    let mut fuel: usize = n + 1;
    while fuel > 0 && cands.len() > 0
        invariant
            visited@.len() == n,
            forall|k: int| 0 <= k < cands@.len() ==> scored_ok(recs@, q@, #[trigger] cands@[k]),
            forall|k: int| 0 <= k < cands@.len()
                ==> l <= g.top_of((#[trigger] cands@[k]).slot as int),
            forall|k: int| 0 <= k < results@.len() ==> scored_ok(recs@, q@, #[trigger] results@[k]),
            forall|k: int| 0 <= k < results@.len()
                ==> admits(recs@, filter, (#[trigger] results@[k]).slot as int),
            forall|k: int| 0 <= k < results@.len()
                ==> l <= g.top_of((#[trigger] results@[k]).slot as int),
            forall|k: int| 0 <= k < results@.len()
                ==> visited@[(#[trigger] results@[k]).slot as int],
            distinct_slots(results@),
            results@.len() <= ef,
            filter is None && eps@.len() >= 1 ==> results@.len() >= 1,
        decreases fuel,
    {
        fuel = fuel - 1;
        // extract the closest candidate
        let mut bi: usize = 0;
        let mut j: usize = 1;
        while j < cands.len()
            invariant
                cands@.len() >= 1,
                0 <= bi < cands@.len(),
                1 <= j <= cands@.len(),
                forall|k: int| 0 <= k < cands@.len() ==> scored_ok(recs@, q@, #[trigger] cands@[k]),
            decreases cands@.len() - j,
        {
            if key_le_exec(m, qn, &cands[j].key, &cands[bi].key) {
                bi = j;
            }
            j = j + 1;
        }
        let ghost pc = cands@;
        let best = cands.swap_remove(bi);
        proof {
            assert forall|k: int| 0 <= k < cands@.len()
                implies scored_ok(recs@, q@, #[trigger] cands@[k])
                    && l <= g.top_of(cands@[k].slot as int) by {
                if k == bi && k < pc.len() - 1 {
                    assert(cands@[k] == pc[pc.len() - 1]);
                } else {
                    assert(cands@[k] == pc[k]);
                }
            }
        }
        // when the result set is full and the best candidate is farther than
        // every held result, the beam is done
        if results.len() == ef {
            let mut wi: usize = 0;
            let mut j2: usize = 1;
            while j2 < results.len()
                invariant
                    results@.len() >= 1,
                    0 <= wi < results@.len(),
                    1 <= j2 <= results@.len(),
                    forall|k: int| 0 <= k < results@.len()
                        ==> scored_ok(recs@, q@, #[trigger] results@[k]),
                decreases results@.len() - j2,
            {
                if !key_le_exec(m, qn, &results[j2].key, &results[wi].key) {
                    wi = j2;
                }
                j2 = j2 + 1;
            }
            if !key_le_exec(m, qn, &best.key, &results[wi].key) {
                break;
            }
        }
        // expand the chosen node's neighbours at this layer
        if l <= g.tops[best.slot] {
            proof {
                assert(g.node_at(best.slot as int));
                assert(g.list_ok(best.slot as int, l as int));
            }
            let row = &g.nb[best.slot];
            let list = &row[l];
            let mut k2: usize = 0;
            while k2 < list.len()
                invariant
                    list@ == g.nbs(best.slot as int, l as int),
                    0 <= k2 <= list@.len(),
                    visited@.len() == n,
                    forall|k: int| 0 <= k < cands@.len()
                        ==> scored_ok(recs@, q@, #[trigger] cands@[k]),
                    forall|k: int| 0 <= k < cands@.len()
                        ==> l <= g.top_of((#[trigger] cands@[k]).slot as int),
                    forall|k: int| 0 <= k < results@.len()
                        ==> scored_ok(recs@, q@, #[trigger] results@[k]),
                    forall|k: int| 0 <= k < results@.len()
                        ==> admits(recs@, filter, (#[trigger] results@[k]).slot as int),
                    forall|k: int| 0 <= k < results@.len()
                        ==> l <= g.top_of((#[trigger] results@[k]).slot as int),
                    forall|k: int| 0 <= k < results@.len()
                        ==> visited@[(#[trigger] results@[k]).slot as int],
                    distinct_slots(results@),
                    results@.len() <= ef,
                    filter is None && eps@.len() >= 1 ==> results@.len() >= 1,
                decreases list@.len() - k2,
            {
                let nbi = list[k2];
                proof {
                    assert(g.nbs(best.slot as int, l as int)[k2 as int] == nbi);
                    assert(g.node_at(nbi as int));
                    assert(l <= g.top_of(nbi as int));
                    assert(recs@[nbi as int].live);
                }
                if !visited[nbi] {
                    visited.set(nbi, true);
                    let key = score(q, &recs[nbi].vec);
                    let sc = Scored { slot: nbi, key };
                    proof {
                        assert(scored_ok(recs@, q@, sc));
                        assert forall|k: int| 0 <= k < results@.len()
                            implies (#[trigger] results@[k]).slot != sc.slot by {
                            assert(visited@[results@[k].slot as int]);
                        }
                    }
                    admit_result(recs, &mut results, sc, ef, m, qn, filter, Ghost(q@));
                    cands.push(sc);
                }
                k2 = k2 + 1;
            }
        }
    }
    results
}


/// Greedy descent: walks from `start` down to layer `down_to + 1`, keeping
/// the closest node found, and returns the entry for layer `down_to`.
#[verifier::loop_isolation(false)]
pub fn descend(
    recs: &Vec<Record>,
    g: &HnswGraph,
    q: &Vec<i32>,
    qn: i128,
    m: DistanceMetric,
    start: Scored,
    from_layer: usize,
    down_to: usize,
) -> (e: Scored)
    requires
        g.wf(),
        aligned(*g, recs@, q@.len() as int),
        q@.len() <= MAX_DIM,
        bounded(q@, COMP_LIMIT as int),
        qn as int == dot_s(q@, q@),
        0 <= qn <= MAX_DOT_ABS,
        recs@.len() < usize::MAX,
        scored_ok(recs@, q@, start),
        down_to <= from_layer,
        from_layer <= g.top_of(start.slot as int),
    ensures
        scored_ok(recs@, q@, e),
        down_to <= g.top_of(e.slot as int),
{
    let mut cur = start;
    let mut lv = from_layer;
    while lv > down_to
        invariant
            down_to <= lv <= from_layer,
            scored_ok(recs@, q@, cur),
            lv <= g.top_of(cur.slot as int),
        decreases lv,
    {
        let mut eps: Vec<Scored> = Vec::new();
        eps.push(cur);
        let r = search_layer(recs, g, q, qn, m, eps, 1, lv, Option::None);
        cur = r[0];
        lv = lv - 1;
    }
    cur
}

/// Selects up to `maxn` diverse neighbours from candidates sorted by
/// closeness: a candidate joins only when it sits closer to the base vector
/// than to every neighbour already chosen, the rule that keeps links spread
/// out around the base.
#[verifier::loop_isolation(false)]
pub fn select_neighbors(
    recs: &Vec<Record>,
    base: &Vec<i32>,
    cands: Vec<Scored>,
    maxn: usize,
    m: DistanceMetric,
    qn: i128,
    Ghost(keep): Ghost<spec_fn(Scored) -> bool>,
) -> (sel: Vec<Scored>)
    requires
        base@.len() <= MAX_DIM,
        bounded(base@, COMP_LIMIT as int),
        qn as int == dot_s(base@, base@),
        0 <= qn <= MAX_DOT_ABS,
        forall|k: int| 0 <= k < cands@.len() ==> scored_ok(recs@, base@, #[trigger] cands@[k]),
        forall|k: int| 0 <= k < cands@.len() ==> keep(#[trigger] cands@[k]),
        forall|k: int| 0 <= k < cands@.len()
            ==> recs@[(#[trigger] cands@[k]).slot as int].vec@.len() == base@.len()
                && bounded(recs@[cands@[k].slot as int].vec@, COMP_LIMIT as int),
        distinct_slots(cands@),
    ensures
        sel@.len() <= maxn,
        forall|k: int| 0 <= k < sel@.len() ==> scored_ok(recs@, base@, #[trigger] sel@[k]),
        forall|k: int| 0 <= k < sel@.len() ==> keep(#[trigger] sel@[k]),
        distinct_slots(sel@),
{
    let ghost both = |s: Scored| scored_ok(recs@, base@, s) && keep(s)
        && recs@[s.slot as int].vec@.len() == base@.len()
        && bounded(recs@[s.slot as int].vec@, COMP_LIMIT as int);
    proof {
        assert forall|k: int| 0 <= k < cands@.len() implies both(#[trigger] cands@[k]) by {}
    }
    let sorted = sort_scored(cands, m, qn, Ghost(both));
    let mut sel: Vec<Scored> = Vec::new();
    let mut i: usize = 0;
    while i < sorted.len()
        invariant
            0 <= i <= sorted@.len(),
            sel@.len() <= maxn,
            forall|k: int| 0 <= k < sel@.len() ==> both(#[trigger] sel@[k]),
            forall|k: int| 0 <= k < sel@.len()
                ==> exists|j: int| 0 <= j < i && (#[trigger] sel@[k]) == sorted@[j],
            distinct_slots(sel@),
        decreases sorted@.len() - i,
    {
        let c = sorted[i];
        proof {
            assert(both(sorted@[i as int]));
        }
        if sel.len() < maxn {
            // keep the candidate only if it is closer to the base than to
            // every neighbour selected so far
            let cvec = &recs[c.slot].vec;
            proof {
                assert(both(c));
            }
            let to_base = score(cvec, base);
            let cn = c.key.nsq;
            proof {
                assert(c.key@.nsq == dot_s(recs@[c.slot as int].vec@, recs@[c.slot as int].vec@));
            }
            let mut diverse: bool = true;
            let mut t: usize = 0;
            while t < sel.len()
                invariant
                    0 <= t <= sel@.len(),
                    forall|k: int| 0 <= k < sel@.len() ==> both(#[trigger] sel@[k]),
                    both(c),
                decreases sel@.len() - t,
            {
                let svec = &recs[sel[t].slot].vec;
                proof {
                    assert(both(sel@[t as int]));
                }
                let to_s = score(cvec, svec);
                if key_le_exec(m, cn, &to_s, &to_base) {
                    diverse = false;
                    t = sel.len();
                } else {
                    t = t + 1;
                }
            }
            if diverse {
                proof {
                    assert forall|k1: int, k2: int| 0 <= k1 < k2 < sel@.len() + 1
                        implies (if k1 < sel@.len() { sel@[k1] } else { c }).slot
                            != (if k2 < sel@.len() { sel@[k2] } else { c }).slot by {
                        if k2 == sel@.len() {
                            let j = choose|j: int| 0 <= j < i && sel@[k1] == sorted@[j];
                            assert(sorted@[j].slot != sorted@[i as int].slot);
                        }
                    }
                }
                let ghost presel = sel@;
                sel.push(c);
                proof {
                    assert forall|k1: int, k2: int| 0 <= k1 < k2 < sel@.len()
                        implies sel@[k1].slot != sel@[k2].slot by {
                        assert(sel@ == presel.push(c));
                        assert(presel.push(c)[k1] == (if k1 < presel.len() { presel[k1] } else { c }));
                        assert(presel.push(c)[k2] == (if k2 < presel.len() { presel[k2] } else { c }));
                    }
                    assert forall|k: int| 0 <= k < sel@.len()
                        implies exists|j: int| 0 <= j < i + 1 && (#[trigger] sel@[k]) == sorted@[j] by {
                        assert(sel@ == presel.push(c));
                        assert(presel.push(c)[k] == (if k < presel.len() { presel[k] } else { c }));
                        if k < presel.len() {
                            let j = choose|j: int| 0 <= j < i && presel[k] == sorted@[j];
                            assert(sel@[k] == sorted@[j]);
                        } else {
                            assert(sel@[k] == sorted@[i as int]);
                        }
                    }
                }
            }
        }
        i = i + 1;
    }
    sel
}

/// Copies a candidate list.
fn clone_scored(v: &Vec<Scored>) -> (r: Vec<Scored>)
    ensures
        r@ == v@,
{
    let mut r: Vec<Scored> = Vec::new();
    let mut i: usize = 0;
    while i < v.len()
        invariant
            0 <= i <= v@.len(),
            r@ == v@.take(i as int),
        decreases v@.len() - i,
    {
        r.push(v[i]);
        proof {
            assert(v@.take(i as int).push(v@[i as int]) =~= v@.take(i as int + 1));
        }
        i = i + 1;
    }
    proof {
        assert(v@.take(v@.len() as int) =~= v@);
    }
    r
}

/// Places the record in slot `i` into the graph at top layer `lvl` and
/// links it: a greedy descent to the new node's top, then one beam per
/// layer, a diverse selection of up to `m` neighbours, and symmetric,
/// cap-respecting edges, pruning a full neighbour first.
#[verifier::loop_isolation(false)]
#[verifier::rlimit(100)]
pub fn graph_insert(
    g: &mut HnswGraph,
    recs: &Vec<Record>,
    i: usize,
    lvl: usize,
    efc: usize,
    m: DistanceMetric,
)
    requires
        old(g).wf(),
        aligned_except(*old(g), recs@, recs@[i as int].vec@.len() as int, i as int),
        recs@.len() < usize::MAX,
        0 <= i < recs@.len(),
        recs@[i as int].live,
        recs@[i as int].vec@.len() <= MAX_DIM,
        !old(g).node_at(i as int),
        lvl <= MAX_LEVEL,
        efc >= 1,
    ensures
        final(g).wf(),
        final(g).n() == old(g).n(),
        final(g).m == old(g).m,
        final(g).m_max0 == old(g).m_max0,
        final(g).node_at(i as int),
        forall|j: int| 0 <= j < old(g).n() && j != i
            ==> (final(g).node_at(j) <==> old(g).node_at(j)),
        aligned(*final(g), recs@, recs@[i as int].vec@.len() as int),
{
    let ghost dim = recs@[i as int].vec@.len() as int;
    let prev_ep: Option<usize> = g.ep;
    g.add_node(i, lvl);
    proof {
        assert(aligned(*g, recs@, dim)) by {
            assert forall|t: int| 0 <= t < recs@.len()
                implies (g.node_at(t) <==> (#[trigger] recs@[t]).live) by {
                if t != i {
                    assert(old(g).node_at(t) <==> recs@[t].live);
                }
            }
        }
    }
    let e: usize;
    match prev_ep {
        Option::None => {
            return;
        },
        Option::Some(e0) => {
            e = e0;
        },
    }
    proof {
        assert(old(g).node_at(e as int));
        assert(recs@[e as int].live) by {
            assert(e as int != i as int || !old(g).node_at(e as int));
        }
        assert(e != i);
        assert(g.node_at(e as int));
        assert(g.top_of(e as int) == old(g).top_of(e as int));
    }
    let q = clone_vec_i32(&recs[i].vec);
    let self_key = score(&q, &q);
    let qn: i128 = self_key.dot;
    proof {
        crate::metric::lemma_self_dot_nonneg(q@);
    }
    let ekey = score(&q, &recs[e].vec);
    let cur = Scored { slot: e, key: ekey };
    let etop = g.tops[e];
    let start_layer: usize = if lvl < etop { lvl } else { etop };
    let cur2 = descend(recs, g, &q, qn, m, cur, etop, start_layer);
    let ghost g0 = *g;
    let mut eps: Vec<Scored> = Vec::new();
    eps.push(cur2);
    let mut l: usize = start_layer;
    loop
        invariant
            g.wf(),
            g.same_nodes(g0),
            aligned(*g, recs@, dim),
            g.node_at(i as int),
            g.top_of(i as int) == lvl,
            0 <= l <= start_layer,
            start_layer <= lvl,
            l <= g.top_of(i as int),
            q@ == recs@[i as int].vec@,
            q@.len() == dim,
            bounded(q@, COMP_LIMIT as int),
            qn as int == dot_s(q@, q@),
            0 <= qn <= MAX_DOT_ABS,
            recs@.len() < usize::MAX,
            forall|k: int| 0 <= k < eps@.len() ==> scored_ok(recs@, q@, #[trigger] eps@[k]),
            forall|k: int| 0 <= k < eps@.len() ==> l <= g.top_of((#[trigger] eps@[k]).slot as int),
            distinct_slots(eps@),
        decreases l,
    {
        let res = search_layer(recs, g, &q, qn, m, eps, efc, l, Option::None);
        let res2 = clone_scored(&res);
        let ghost lkeep = |s: Scored| l <= g0.top_of(s.slot as int);
        proof {
            assert forall|k: int| 0 <= k < res@.len() implies lkeep(#[trigger] res@[k]) by {}
            assert forall|k: int| 0 <= k < res@.len()
                implies recs@[(#[trigger] res@[k]).slot as int].vec@.len() == q@.len()
                    && bounded(recs@[res@[k].slot as int].vec@, COMP_LIMIT as int) by {}
        }
        let sel = select_neighbors(recs, &q, res, g.m, m, qn, Ghost(lkeep));
        let mut t: usize = 0;
        while t < sel.len()
            invariant
                g.wf(),
                g.same_nodes(g0),
                aligned(*g, recs@, dim),
                g.node_at(i as int),
                g.top_of(i as int) == lvl,
                0 <= l <= start_layer <= lvl,
                0 <= t <= sel@.len(),
                q@ == recs@[i as int].vec@,
                q@.len() == dim,
                bounded(q@, COMP_LIMIT as int),
                qn as int == dot_s(q@, q@),
                0 <= qn <= MAX_DOT_ABS,
                recs@.len() < usize::MAX,
                forall|k: int| 0 <= k < sel@.len() ==> scored_ok(recs@, q@, #[trigger] sel@[k]),
                forall|k: int| 0 <= k < sel@.len()
                    ==> l <= g.top_of((#[trigger] sel@[k]).slot as int),
            decreases sel@.len() - t,
        {
            let nsl = sel[t].slot;
            if nsl != i {
                proof {
                    assert(scored_ok(recs@, q@, sel@[t as int]));
                    assert(g.node_at(nsl as int));
                    assert(l <= g.top_of(nsl as int));
                    assert(g.list_ok(i as int, l as int));
                    assert(g.list_ok(nsl as int, l as int));
                }
                let capl: usize = if l == 0 { g.m_max0 } else { g.m };
                let already = contains_usize(&g.nb[i][l], nsl);
                if !already && g.nb[i][l].len() < capl {
                    if g.nb[nsl][l].len() >= capl {
                        // make room: prune the full neighbour to one under
                        // the cap, preferring its most diverse links
                        let nvec = clone_vec_i32(&recs[nsl].vec);
                        let nself = score(&nvec, &nvec);
                        let nqn: i128 = nself.dot;
                        proof {
                            crate::metric::lemma_self_dot_nonneg(nvec@);
                        }
                        let mut ncands: Vec<Scored> = Vec::new();
                        let mut u: usize = 0;
                        let ghost nlist = g.nbs(nsl as int, l as int);
                        while u < g.nb[nsl][l].len()
                            invariant
                                nlist == g.nbs(nsl as int, l as int),
                                0 <= u <= nlist.len(),
                                nsl < g.nb@.len(),
                                l < g.nb@[nsl as int]@.len(),
                                ncands@.len() == u,
                                forall|k: int| 0 <= k < u
                                    ==> (#[trigger] ncands@[k]).slot == nlist[k],
                                forall|k: int| 0 <= k < u
                                    ==> scored_ok(recs@, nvec@, #[trigger] ncands@[k]),
                            decreases nlist.len() - u,
                        {
                            let nb_slot = g.nb[nsl][l][u];
                            proof {
                                assert(nlist[u as int] == nb_slot);
                                assert(g.node_at(nb_slot as int));
                            }
                            let kk = score(&nvec, &recs[nb_slot].vec);
                            ncands.push(Scored { slot: nb_slot, key: kk });
                            u = u + 1;
                        }
                        proof {
                            assert forall|k1: int, k2: int| 0 <= k1 < k2 < ncands@.len()
                                implies ncands@[k1].slot != ncands@[k2].slot by {
                                assert(ncands@[k1].slot == nlist[k1]);
                                assert(ncands@[k2].slot == nlist[k2]);
                            }
                            assert forall|k: int| 0 <= k < ncands@.len()
                                implies recs@[(#[trigger] ncands@[k]).slot as int].vec@.len()
                                    == nvec@.len()
                                    && bounded(recs@[ncands@[k].slot as int].vec@,
                                        COMP_LIMIT as int) by {
                                assert(g.node_at(ncands@[k].slot as int));
                            }
                        }
                        let ghost anykeep = |s: Scored| true;
                        let ksel = select_neighbors(recs, &nvec, ncands, capl - 1, m, nqn,
                            Ghost(anykeep));
                        let mut keepv: Vec<usize> = Vec::new();
                        let mut w: usize = 0;
                        while w < ksel.len()
                            invariant
                                0 <= w <= ksel@.len(),
                                keepv@.len() == w,
                            decreases ksel@.len() - w,
                        {
                            keepv.push(ksel[w].slot);
                            w = w + 1;
                        }
                        let ghost gpre = *g;
                        g.prune(nsl, l, &keepv, capl - 1);
                        proof {
                            assert(g.same_nodes(gpre));
                            // the new node's list was not touched: it held no
                            // edge to the pruned node
                            assert(!g.nbs(i as int, l as int).contains(nsl)) by {
                                if g.nbs(i as int, l as int).contains(nsl) {
                                    assert(gpre.nbs(i as int, l as int).contains(nsl));
                                }
                            }
                            assert(g.nbs(i as int, l as int).len() < capl) by {
                                assert(g.nbs(i as int, l as int).len()
                                    <= gpre.nbs(i as int, l as int).len());
                            }
                        }
                    }
                    proof {
                        assert(!g.has_edge(i, nsl, l as int));
                        assert(g.nbs(nsl as int, l as int).len() < g.cap(l as int));
                        assert(g.nbs(i as int, l as int).len() < g.cap(l as int));
                    }
                    g.add_edge(i, nsl, l);
                }
            }
            t = t + 1;
        }
        eps = res2;
        proof {
            assert forall|k: int| 0 <= k < eps@.len()
                implies scored_ok(recs@, q@, #[trigger] eps@[k]) by {}
        }
        if l == 0 {
            break;
        }
        l = l - 1;
    }
    if lvl > etop {
        g.set_ep(i);
    }
}

} // verus!
