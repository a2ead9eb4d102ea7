//! The layered proximity graph that backs each collection's index.
//!
//! Slots are indices into the collection's record store. The well-formedness
//! predicate `wf` carries the structural guarantees of the index: every
//! neighbour list points at live nodes of sufficient layer, holds no
//! duplicates and respects the degree caps, every edge is bidirectional,
//! and the entry point exists exactly when a node does. Every mutating
//! primitive preserves `wf`, so the guarantees hold after any sequence of
//! inserts and deletes.

use vstd::prelude::*;
use crate::config::{MAX_DEGREE, MAX_LEVEL};

verus! {

/// No element appears twice.
pub open spec fn distinct(s: Seq<usize>) -> bool {
    forall|k1: int, k2: int| 0 <= k1 < k2 < s.len() ==> s[k1] != s[k2]
}

/// Removing position `k` by swapping in the last element keeps the elements
/// distinct and drops exactly `s[k]`.
pub proof fn lemma_swap_remove(s: Seq<usize>, k: int)
    requires
        distinct(s),
        0 <= k < s.len(),
    ensures
        ({
            let t = s.update(k, s.last()).drop_last();
            &&& t.len() == s.len() - 1
            &&& distinct(t)
            &&& forall|x: usize| t.contains(x) <==> (s.contains(x) && x != s[k])
        }),
{
    let t = s.update(k, s.last()).drop_last();
    assert forall|x: usize| t.contains(x) implies (s.contains(x) && x != s[k]) by {
        let i = choose|i: int| 0 <= i < t.len() && t[i] == x;
        if i == k {
            assert(s[s.len() - 1] == x);
        } else {
            assert(s[i] == x);
        }
    }
    assert forall|x: usize| s.contains(x) && x != s[k] implies t.contains(x) by {
        let i = choose|i: int| 0 <= i < s.len() && s[i] == x;
        if i == s.len() - 1 {
            assert(k < s.len() - 1);
            assert(t[k] == x);
        } else {
            assert(t[i] == x);
        }
    }
}

/// Appending an element makes the list contain exactly it and what it held.
pub proof fn lemma_push_contains(s: Seq<usize>, x: usize, y: usize)
    ensures
        s.push(x).contains(y) <==> (s.contains(y) || x == y),
{
    if s.push(x).contains(y) {
        let i = choose|i: int| 0 <= i < s.push(x).len() && s.push(x)[i] == y;
        if i < s.len() {
            assert(s[i] == y);
        }
    }
    if s.contains(y) {
        let i = choose|i: int| 0 <= i < s.len() && s[i] == y;
        assert(s.push(x)[i] == y);
    }
    if x == y {
        assert(s.push(x)[s.len() as int] == y);
    }
}

/// Whether `x` stands in `v`.
pub fn contains_usize(v: &Vec<usize>, x: usize) -> (r: bool)
    ensures
        r == v@.contains(x),
{
    let mut k: usize = 0;
    while k < v.len()
        invariant
            0 <= k <= v@.len(),
            forall|j: int| 0 <= j < k ==> v@[j] != x,
        decreases v@.len() - k,
    {
        if v[k] == x {
            return true;
        }
        k = k + 1;
    }
    proof {
        if v@.contains(x) {
            let j = choose|j: int| 0 <= j < v@.len() && v@[j] == x;
            assert(false);
        }
    }
    false
}

/// The adjacency state of one collection's index.
pub struct HnswGraph {
    /// Whether the slot currently holds a node.
    pub alive: Vec<bool>,
    /// The node's top layer; meaningful only while alive.
    pub tops: Vec<usize>,
    /// Neighbour lists: `nb[i][l]` is node `i`'s list at layer `l`,
    /// for `l <= tops[i]`.
    pub nb: Vec<Vec<Vec<usize>>>,
    /// The node every search starts from, if any node exists.
    pub ep: Option<usize>,
    /// Target degree; the cap above layer 0.
    pub m: usize,
    /// Degree cap at layer 0.
    pub m_max0: usize,
}

impl HnswGraph {
    /// Number of slots.
    pub open spec fn n(self) -> int {
        self.alive@.len() as int
    }

    /// Slot `i` holds a node.
    pub open spec fn node_at(self, i: int) -> bool {
        0 <= i < self.n() && self.alive@[i]
    }

    /// The top layer of the node in slot `i`.
    pub open spec fn top_of(self, i: int) -> int {
        self.tops@[i] as int
    }

    /// The neighbour list of slot `i` at layer `l`.
    pub open spec fn nbs(self, i: int, l: int) -> Seq<usize> {
        self.nb@[i]@[l]@
    }

    /// The degree cap at layer `l`.
    pub open spec fn cap(self, l: int) -> int {
        if l == 0 {
            self.m_max0 as int
        } else {
            self.m as int
        }
    }

    /// The arrays agree in length, the knobs are in range, and every node
    /// has one neighbour list per layer up to its top.
    pub open spec fn shape_ok(self) -> bool {
        &&& self.tops@.len() == self.alive@.len()
        &&& self.nb@.len() == self.alive@.len()
        &&& 2 <= self.m <= self.m_max0 <= MAX_DEGREE
        &&& forall|i: int| 0 <= i < self.n() && self.alive@[i]
            ==> (#[trigger] self.nb@[i])@.len() == self.tops@[i] + 1
        &&& forall|i: int| 0 <= i < self.n() && self.alive@[i]
            ==> #[trigger] self.tops@[i] <= MAX_LEVEL
    }

    /// One neighbour list is sound: within the cap, no duplicates, no self
    /// loop, and every entry is a live node reaching this layer.
    pub open spec fn list_ok(self, i: int, l: int) -> bool {
        let s = self.nbs(i, l);
        &&& s.len() <= self.cap(l)
        &&& forall|k: int| 0 <= k < s.len()
            ==> self.node_at(#[trigger] s[k] as int) && l <= self.top_of(s[k] as int)
                && s[k] as int != i
        &&& distinct(s)
    }

    /// Every list of every live node is sound.
    pub open spec fn lists_ok(self) -> bool {
        forall|i: int, l: int| self.node_at(i) && 0 <= l <= self.top_of(i)
            ==> #[trigger] self.list_ok(i, l)
    }

    /// Node `b` stands in node `a`'s list at layer `l`.
    pub open spec fn has_edge(self, a: usize, b: usize, l: int) -> bool {
        &&& self.node_at(a as int)
        &&& 0 <= l <= self.top_of(a as int)
        &&& self.nbs(a as int, l).contains(b)
    }

    /// Every edge is stored in both directions.
    pub open spec fn sym_ok(self) -> bool {
        forall|a: usize, b: usize, l: int| #[trigger] self.has_edge(a, b, l)
            ==> self.has_edge(b, a, l)
    }

    /// The entry point is a live node, and is absent only when no node is.
    pub open spec fn ep_ok(self) -> bool {
        match self.ep {
            Option::Some(e) => self.node_at(e as int),
            Option::None => forall|i: int| 0 <= i < self.n() ==> !self.node_at(i),
        }
    }

    /// The index invariant.
    pub open spec fn wf(self) -> bool {
        &&& self.shape_ok()
        &&& self.lists_ok()
        &&& self.sym_ok()
        &&& self.ep_ok()
    }

    /// Slots, liveness, tops, entry point and knobs agree with `other`;
    /// only neighbour lists may differ.
    pub open spec fn same_nodes(self, other: HnswGraph) -> bool {
        &&& self.alive@ == other.alive@
        &&& self.tops@ == other.tops@
        &&& self.ep == other.ep
        &&& self.m == other.m
        &&& self.m_max0 == other.m_max0
        &&& self.nb@.len() == other.nb@.len()
        &&& forall|i: int| 0 <= i < self.nb@.len()
            ==> (#[trigger] self.nb@[i])@.len() == other.nb@[i]@.len()
    }

    /// An empty graph over no slots.
    pub fn new(m: usize, m_max0: usize) -> (g: HnswGraph)
        requires
            2 <= m <= m_max0 <= MAX_DEGREE,
        ensures
            g.wf(),
            g.n() == 0,
            g.ep is None,
            g.m == m,
            g.m_max0 == m_max0,
    {
        HnswGraph { alive: Vec::new(), tops: Vec::new(), nb: Vec::new(), ep: Option::None, m, m_max0 }
    }

    /// Appends one empty slot, returning its index.
    pub fn grow(&mut self) -> (i: usize)
        requires
            old(self).wf(),
            old(self).n() < usize::MAX,
        ensures
            final(self).wf(),
            i as int == old(self).n(),
            final(self).n() == old(self).n() + 1,
            !final(self).node_at(i as int),
            final(self).ep == old(self).ep,
            final(self).m == old(self).m,
            final(self).m_max0 == old(self).m_max0,
            forall|j: int| 0 <= j < old(self).n()
                ==> (final(self).node_at(j) <==> old(self).node_at(j)),
            forall|j: int| old(self).node_at(j) ==> final(self).top_of(j) == old(self).top_of(j),
            forall|j: int, l: int| old(self).node_at(j) && 0 <= l <= old(self).top_of(j)
                ==> final(self).nbs(j, l) == old(self).nbs(j, l),
    {
        let i = self.alive.len();
        self.alive.push(false);
        self.tops.push(0);
        self.nb.push(Vec::new());
        proof {
            assert(self.nb@[i as int]@.len() == 0);
            assert forall|j: int, l: int| self.node_at(j) && 0 <= l <= self.top_of(j)
                implies #[trigger] self.list_ok(j, l) by {
                assert(old(self).list_ok(j, l));
                assert(self.nbs(j, l) == old(self).nbs(j, l));
            }
            assert forall|a: usize, b: usize, l: int| #[trigger] self.has_edge(a, b, l)
                implies self.has_edge(b, a, l) by {
                assert(old(self).has_edge(a, b, l));
                assert(old(self).has_edge(b, a, l));
            }
            assert(self.shape_ok());
            match self.ep {
                Option::Some(e) => {
                    assert(old(self).node_at(e as int));
                },
                Option::None => {
                    assert forall|j: int| 0 <= j < self.n() implies !self.node_at(j) by {
                        if j < old(self).n() {
                            assert(!old(self).node_at(j));
                        }
                    }
                },
            }
        }
        i
    }

    /// Places a node with top layer `top` in the empty slot `i`, with empty
    /// neighbour lists at every layer. The node claims the entry point when
    /// there was none.
    pub fn add_node(&mut self, i: usize, top: usize)
        requires
            old(self).wf(),
            0 <= i < old(self).n(),
            !old(self).node_at(i as int),
            top <= MAX_LEVEL,
        ensures
            final(self).wf(),
            final(self).n() == old(self).n(),
            final(self).node_at(i as int),
            final(self).top_of(i as int) == top,
            forall|l: int| 0 <= l <= top ==> final(self).nbs(i as int, l) == Seq::<usize>::empty(),
            final(self).ep == (if old(self).ep is None { Option::Some(i) } else { old(self).ep }),
            final(self).m == old(self).m,
            final(self).m_max0 == old(self).m_max0,
            forall|j: int| 0 <= j < old(self).n() && j != i
                ==> (final(self).node_at(j) <==> old(self).node_at(j)),
            forall|j: int| old(self).node_at(j) && j != i
                ==> final(self).top_of(j) == old(self).top_of(j),
            forall|j: int, l: int| old(self).node_at(j) && j != i && 0 <= l <= old(self).top_of(j)
                ==> final(self).nbs(j, l) == old(self).nbs(j, l),
    {
        let mut lists: Vec<Vec<usize>> = Vec::new();
        let mut l: usize = 0;
        while l < top + 1
            invariant
                0 <= l <= top + 1,
                top <= MAX_LEVEL,
                lists@.len() == l,
                forall|k: int| 0 <= k < l ==> (#[trigger] lists@[k])@.len() == 0,
            decreases top + 1 - l,
        {
            lists.push(Vec::new());
            l = l + 1;
        }
        self.alive.set(i, true);
        self.tops.set(i, top);
        self.nb.set(i, lists);
        if self.ep.is_none() {
            self.ep = Option::Some(i);
        }
        proof {
            let g = *self;
            let og = *old(self);
            assert forall|j: int, lv: int| g.node_at(j) && 0 <= lv <= g.top_of(j)
                implies #[trigger] g.list_ok(j, lv) by {
                if j == i {
                    assert(g.nbs(j, lv).len() == 0);
                } else {
                    assert(og.list_ok(j, lv));
                    assert(g.nbs(j, lv) == og.nbs(j, lv));
                    assert forall|k: int| 0 <= k < g.nbs(j, lv).len()
                        implies g.node_at(#[trigger] g.nbs(j, lv)[k] as int)
                            && lv <= g.top_of(g.nbs(j, lv)[k] as int)
                            && g.nbs(j, lv)[k] as int != j by {
                        assert(og.node_at(og.nbs(j, lv)[k] as int));
                    }
                }
            }
            assert forall|a: usize, b: usize, lv: int| #[trigger] g.has_edge(a, b, lv)
                implies g.has_edge(b, a, lv) by {
                if a as int == i {
                    assert(g.nbs(i as int, lv).len() == 0);
                    assert(false);
                } else {
                    assert(og.has_edge(a, b, lv));
                    assert(og.has_edge(b, a, lv));
                    assert(b as int != i);
                    assert(g.nbs(b as int, lv) == og.nbs(b as int, lv));
                }
            }
            match g.ep {
                Option::Some(e) => {
                    assert(g.node_at(e as int));
                },
                Option::None => {
                    assert(false);
                },
            }
        }
    }

    /// Connects `a` and `b` in both directions at layer `l`. Neither side
    /// may already hold the edge or be at its cap.
    pub fn add_edge(&mut self, a: usize, b: usize, l: usize)
        requires
            old(self).wf(),
            old(self).node_at(a as int),
            old(self).node_at(b as int),
            a != b,
            l <= old(self).top_of(a as int),
            l <= old(self).top_of(b as int),
            !old(self).has_edge(a, b, l as int),
            old(self).nbs(a as int, l as int).len() < old(self).cap(l as int),
            old(self).nbs(b as int, l as int).len() < old(self).cap(l as int),
        ensures
            final(self).wf(),
            final(self).same_nodes(*old(self)),
            final(self).nbs(a as int, l as int) == old(self).nbs(a as int, l as int).push(b),
            final(self).nbs(b as int, l as int) == old(self).nbs(b as int, l as int).push(a),
            forall|i: int, lv: int| old(self).node_at(i) && 0 <= lv <= old(self).top_of(i)
                && !(i == a && lv == l) && !(i == b && lv == l)
                ==> final(self).nbs(i, lv) == old(self).nbs(i, lv),
    {
        proof {
            if old(self).nbs(b as int, l as int).contains(a) {
                assert(old(self).has_edge(b, a, l as int));
                assert(old(self).has_edge(a, b, l as int));
            }
        }
        self.nb[a][l].push(b);
        self.nb[b][l].push(a);
        proof {
            let g = *self;
            let og = *old(self);
            assert(g.nbs(a as int, l as int) == og.nbs(a as int, l as int).push(b));
            assert(g.nbs(b as int, l as int) == og.nbs(b as int, l as int).push(a));
            assert forall|i: int, lv: int| og.node_at(i) && 0 <= lv <= og.top_of(i)
                && !(i == a && lv == l) && !(i == b && lv == l)
                implies g.nbs(i, lv) == og.nbs(i, lv) by {
            }
            // every old edge survives
            assert forall|x: usize, y: usize, lv: int| og.has_edge(x, y, lv)
                implies #[trigger] g.has_edge(x, y, lv) by {
                if x == a && lv == l {
                    lemma_push_contains(og.nbs(a as int, lv), b, y);
                } else if x == b && lv == l {
                    lemma_push_contains(og.nbs(b as int, lv), a, y);
                }
            }
            // a new edge is one of the two added or an old one
            assert forall|x: usize, y: usize, lv: int| #[trigger] g.has_edge(x, y, lv)
                implies og.has_edge(x, y, lv) || (x == a && y == b && lv == l)
                    || (x == b && y == a && lv == l) by {
                if x == a && lv == l {
                    lemma_push_contains(og.nbs(a as int, lv), b, y);
                } else if x == b && lv == l {
                    lemma_push_contains(og.nbs(b as int, lv), a, y);
                }
            }
            assert forall|j: int, lv: int| g.node_at(j) && 0 <= lv <= g.top_of(j)
                implies #[trigger] g.list_ok(j, lv) by {
                assert(og.list_ok(j, lv));
                if j == a && lv == l {
                    let s = og.nbs(a as int, lv);
                    assert forall|k: int| 0 <= k < s.push(b).len()
                        implies g.node_at(#[trigger] s.push(b)[k] as int)
                            && lv <= g.top_of(s.push(b)[k] as int) && s.push(b)[k] as int != j by {
                        if k < s.len() {
                            assert(s.push(b)[k] == s[k]);
                        } else {
                            assert(s.push(b)[k] == b);
                        }
                    }
                    assert(distinct(s.push(b))) by {
                        assert forall|k1: int, k2: int| 0 <= k1 < k2 < s.push(b).len()
                            implies s.push(b)[k1] != s.push(b)[k2] by {
                            if k2 == s.len() {
                                if s[k1] == b {
                                    assert(s.contains(b));
                                }
                            }
                        }
                    }
                } else if j == b && lv == l {
                    let s = og.nbs(b as int, lv);
                    assert forall|k: int| 0 <= k < s.push(a).len()
                        implies g.node_at(#[trigger] s.push(a)[k] as int)
                            && lv <= g.top_of(s.push(a)[k] as int) && s.push(a)[k] as int != j by {
                        if k < s.len() {
                            assert(s.push(a)[k] == s[k]);
                        } else {
                            assert(s.push(a)[k] == a);
                        }
                    }
                    assert(distinct(s.push(a))) by {
                        assert forall|k1: int, k2: int| 0 <= k1 < k2 < s.push(a).len()
                            implies s.push(a)[k1] != s.push(a)[k2] by {
                            if k2 == s.len() {
                                if s[k1] == a {
                                    assert(s.contains(a));
                                }
                            }
                        }
                    }
                } else {
                    assert(g.nbs(j, lv) == og.nbs(j, lv));
                    assert forall|k: int| 0 <= k < g.nbs(j, lv).len()
                        implies g.node_at(#[trigger] g.nbs(j, lv)[k] as int)
                            && lv <= g.top_of(g.nbs(j, lv)[k] as int)
                            && g.nbs(j, lv)[k] as int != j by {
                        assert(og.node_at(og.nbs(j, lv)[k] as int));
                    }
                }
            }
            assert forall|x: usize, y: usize, lv: int| #[trigger] g.has_edge(x, y, lv)
                implies g.has_edge(y, x, lv) by {
                if og.has_edge(x, y, lv) {
                    assert(og.has_edge(y, x, lv));
                } else if x == a && y == b && lv == l {
                    lemma_push_contains(og.nbs(b as int, lv), a, a);
                    assert(g.nbs(b as int, lv).contains(a));
                } else {
                    lemma_push_contains(og.nbs(a as int, lv), b, b);
                    assert(g.nbs(a as int, lv).contains(b));
                }
            }
        }
    }

    /// Finds where `b` stands in `a`'s list at layer `l`.
    fn find_pos(&self, a: usize, b: usize, l: usize) -> (k: usize)
        requires
            a < self.nb@.len(),
            l < self.nb@[a as int]@.len(),
            self.nbs(a as int, l as int).contains(b),
        ensures
            k < self.nbs(a as int, l as int).len(),
            self.nbs(a as int, l as int)[k as int] == b,
    {
        let mut k: usize = 0;
        let row = &self.nb[a];
        let list = &row[l];
        while k < list.len()
            invariant
                0 <= k <= list@.len(),
                list@ == self.nbs(a as int, l as int),
                self.nbs(a as int, l as int).contains(b),
                forall|j: int| 0 <= j < k ==> list@[j] != b,
            decreases list@.len() - k,
        {
            if list[k] == b {
                return k;
            }
            k = k + 1;
        }
        proof {
            let j = choose|j: int| 0 <= j < list@.len() && list@[j] == b;
            assert(false);
        }
        0
    }

    /// Removes the edge between `a` and `b` at layer `l`, in both
    /// directions.
    pub fn remove_edge(&mut self, a: usize, b: usize, l: usize)
        requires
            old(self).wf(),
            old(self).has_edge(a, b, l as int),
        ensures
            final(self).wf(),
            final(self).same_nodes(*old(self)),
            final(self).nbs(a as int, l as int).len()
                == old(self).nbs(a as int, l as int).len() - 1,
            final(self).nbs(b as int, l as int).len()
                == old(self).nbs(b as int, l as int).len() - 1,
            forall|x: usize| final(self).nbs(a as int, l as int).contains(x)
                <==> (old(self).nbs(a as int, l as int).contains(x) && x != b),
            forall|x: usize| final(self).nbs(b as int, l as int).contains(x)
                <==> (old(self).nbs(b as int, l as int).contains(x) && x != a),
            forall|i: int, lv: int| old(self).node_at(i) && 0 <= lv <= old(self).top_of(i)
                && !(i == a && lv == l) && !(i == b && lv == l)
                ==> final(self).nbs(i, lv) == old(self).nbs(i, lv),
    {
        proof {
            assert(old(self).has_edge(b, a, l as int));
            assert(old(self).list_ok(a as int, l as int));
            assert(old(self).list_ok(b as int, l as int));
            if a == b {
                let s = old(self).nbs(a as int, l as int);
                let j = choose|j: int| 0 <= j < s.len() && s[j] == b;
                assert(s[j] as int != a as int);
                assert(false);
            }
        }
        let ka = self.find_pos(a, b, l);
        let kb = self.find_pos(b, a, l);
        self.nb[a][l].swap_remove(ka);
        self.nb[b][l].swap_remove(kb);
        proof {
            let g = *self;
            let og = *old(self);
            let sa = og.nbs(a as int, l as int);
            let sb = og.nbs(b as int, l as int);
            lemma_swap_remove(sa, ka as int);
            lemma_swap_remove(sb, kb as int);
            assert(g.nbs(a as int, l as int) == sa.update(ka as int, sa.last()).drop_last());
            assert(g.nbs(b as int, l as int) == sb.update(kb as int, sb.last()).drop_last());
            assert forall|i: int, lv: int| og.node_at(i) && 0 <= lv <= og.top_of(i)
                && !(i == a && lv == l) && !(i == b && lv == l)
                implies g.nbs(i, lv) == og.nbs(i, lv) by {
            }
            // edges now are exactly the old ones minus the two directions
            assert forall|x: usize, y: usize, lv: int| #[trigger] g.has_edge(x, y, lv)
                implies og.has_edge(x, y, lv) && !(x == a && y == b && lv == l)
                    && !(x == b && y == a && lv == l) by {
                if x == a && lv == l {
                    assert(g.nbs(a as int, lv).contains(y));
                    assert(sa.contains(y) && y != b);
                } else if x == b && lv == l {
                    assert(sb.contains(y) && y != a);
                } else {
                    assert(g.nbs(x as int, lv) == og.nbs(x as int, lv));
                }
            }
            assert forall|x: usize, y: usize, lv: int| og.has_edge(x, y, lv)
                && !(x == a && y == b && lv == l) && !(x == b && y == a && lv == l)
                implies #[trigger] g.has_edge(x, y, lv) by {
                if x == a && lv == l {
                    assert(sa.contains(y) && y != b);
                } else if x == b && lv == l {
                    assert(sb.contains(y) && y != a);
                } else {
                    assert(g.nbs(x as int, lv) == og.nbs(x as int, lv));
                }
            }
            assert forall|j: int, lv: int| g.node_at(j) && 0 <= lv <= g.top_of(j)
                implies #[trigger] g.list_ok(j, lv) by {
                assert(og.list_ok(j, lv));
                let s = g.nbs(j, lv);
                if j == a && lv == l {
                    assert(distinct(s));
                } else if j == b && lv == l {
                    assert(distinct(s));
                } else {
                    assert(s == og.nbs(j, lv));
                }
                assert forall|k: int| 0 <= k < s.len()
                    implies g.node_at(#[trigger] s[k] as int) && lv <= g.top_of(s[k] as int)
                        && s[k] as int != j by {
                    assert(s.contains(s[k]));
                    assert(og.nbs(j, lv).contains(s[k]));
                    let k0 = choose|k0: int| 0 <= k0 < og.nbs(j, lv).len()
                        && og.nbs(j, lv)[k0] == s[k];
                    assert(og.node_at(og.nbs(j, lv)[k0] as int));
                }
            }
            assert forall|x: usize, y: usize, lv: int| #[trigger] g.has_edge(x, y, lv)
                implies g.has_edge(y, x, lv) by {
                assert(og.has_edge(x, y, lv));
                assert(og.has_edge(y, x, lv));
            }
        }
    }

    /// Shrinks node `n`'s list at layer `l` to at most `target` entries,
    /// dropping entries outside `keep` first; every drop removes the edge in
    /// both directions.
    pub fn prune(&mut self, n: usize, l: usize, keep: &Vec<usize>, target: usize)
        requires
            old(self).wf(),
            old(self).node_at(n as int),
            l <= old(self).top_of(n as int),
        ensures
            final(self).wf(),
            final(self).same_nodes(*old(self)),
            final(self).nbs(n as int, l as int).len() <= target,
            forall|x: usize| final(self).nbs(n as int, l as int).contains(x)
                ==> old(self).nbs(n as int, l as int).contains(x),
            forall|i: int, lv: int| old(self).node_at(i) && 0 <= lv <= old(self).top_of(i)
                && lv != l ==> final(self).nbs(i, lv) == old(self).nbs(i, lv),
            forall|i: int, x: usize| old(self).node_at(i) && i != n
                && l <= old(self).top_of(i) && final(self).nbs(i, l as int).contains(x)
                ==> old(self).nbs(i, l as int).contains(x),
            forall|i: int| old(self).node_at(i) && i != n && l <= old(self).top_of(i)
                ==> final(self).nbs(i, l as int).len() <= old(self).nbs(i, l as int).len(),
    {
        loop
            invariant
                self.wf(),
                self.same_nodes(*old(self)),
                self.node_at(n as int),
                l <= self.top_of(n as int),
                forall|x: usize| self.nbs(n as int, l as int).contains(x)
                    ==> old(self).nbs(n as int, l as int).contains(x),
                forall|i: int, lv: int| old(self).node_at(i) && 0 <= lv <= old(self).top_of(i)
                    && lv != l ==> self.nbs(i, lv) == old(self).nbs(i, lv),
                forall|i: int, x: usize| old(self).node_at(i) && i != n
                    && l <= old(self).top_of(i) && self.nbs(i, l as int).contains(x)
                    ==> old(self).nbs(i, l as int).contains(x),
                forall|i: int| old(self).node_at(i) && i != n && l <= old(self).top_of(i)
                    ==> self.nbs(i, l as int).len() <= old(self).nbs(i, l as int).len(),
            ensures
                self.nbs(n as int, l as int).len() <= target,
            decreases self.nbs(n as int, l as int).len(),
        {
            let len = self.nb[n][l].len();
            if len <= target {
                break;
            }
            let mut victim: usize = self.nb[n][l][0];
            proof {
                assert(self.nbs(n as int, l as int).contains(victim));
            }
            let mut k: usize = 0;
            while k < len
                invariant
                    0 <= k <= len,
                    len == self.nbs(n as int, l as int).len(),
                    l < self.nb@[n as int]@.len(),
                    n < self.nb@.len(),
                    self.nbs(n as int, l as int).contains(victim),
                decreases len - k,
            {
                let e = self.nb[n][l][k];
                if !contains_usize(keep, e) {
                    victim = e;
                    proof {
                        assert(self.nbs(n as int, l as int).contains(victim));
                    }
                    k = len;
                } else {
                    k = k + 1;
                }
            }
            proof {
                assert(self.has_edge(n, victim, l as int));
            }
            self.remove_edge(n, victim, l);
        }
    }

    /// Detaches the node in slot `i` from every neighbour at every layer,
    /// frees the slot, and moves the entry point off it when it sat there:
    /// onto one of its former neighbours at its top layer when it had any,
    /// else onto any remaining node, else to none.
    pub fn remove_node(&mut self, i: usize)
        requires
            old(self).wf(),
            old(self).node_at(i as int),
        ensures
            final(self).wf(),
            final(self).n() == old(self).n(),
            final(self).m == old(self).m,
            final(self).m_max0 == old(self).m_max0,
            !final(self).node_at(i as int),
            old(self).ep == Option::Some(i)
                && old(self).nbs(i as int, old(self).top_of(i as int)).len() > 0
                ==> (final(self).ep matches Option::Some(e)
                    && old(self).nbs(i as int, old(self).top_of(i as int)).contains(e)),
            old(self).ep != Option::Some(i) ==> final(self).ep == old(self).ep,
            forall|j: int| 0 <= j < old(self).n() && j != i
                ==> (final(self).node_at(j) <==> old(self).node_at(j)),
            forall|j: int| old(self).node_at(j) && j != i
                ==> final(self).top_of(j) == old(self).top_of(j),
            forall|j: int, lv: int, x: usize| old(self).node_at(j) && j != i
                && 0 <= lv <= old(self).top_of(j)
                ==> (final(self).nbs(j, lv).contains(x)
                    <==> (old(self).nbs(j, lv).contains(x) && x != i)),
    {
        // remember an ex-neighbour at the top layer before detaching: the
        // entry point is promoted onto it if this node held the entry point
        let top = self.tops[i];
        let mut cand: usize = 0;
        let mut have_cand: bool = false;
        if self.nb[i][top].len() > 0 {
            cand = self.nb[i][top][0];
            have_cand = true;
            proof {
                assert(self.list_ok(i as int, top as int));
                assert(self.nbs(i as int, top as int)[0] == cand);
                assert(self.node_at(cand as int));
                assert(cand != i);
                assert(self.nbs(i as int, top as int).contains(cand));
            }
        }
        // detach every layer, one edge at a time
        let mut l: usize = 0;
        while l <= top
            invariant
                0 <= l <= top + 1,
                self.wf(),
                self.same_nodes(*old(self)),
                self.node_at(i as int),
                top == self.top_of(i as int),
                forall|lv: int| 0 <= lv < l ==> self.nbs(i as int, lv).len() == 0,
                forall|x: usize, y: usize, lv: int| x != i && y != i
                    ==> (#[trigger] self.has_edge(x, y, lv) <==> old(self).has_edge(x, y, lv)),
            decreases top + 1 - l,
        {
            while self.nb[i][l].len() > 0
                invariant
                    self.wf(),
                    self.same_nodes(*old(self)),
                    self.node_at(i as int),
                    top == self.top_of(i as int),
                    l <= top,
                    forall|lv: int| 0 <= lv < l ==> self.nbs(i as int, lv).len() == 0,
                    forall|x: usize, y: usize, lv: int| x != i && y != i
                        ==> (#[trigger] self.has_edge(x, y, lv) <==> old(self).has_edge(x, y, lv)),
                decreases self.nbs(i as int, l as int).len(),
            {
                let last = self.nb[i][l].len() - 1;
                let j = self.nb[i][l][last];
                let ghost pre = *self;
                proof {
                    assert(pre.list_ok(i as int, l as int));
                    assert(pre.nbs(i as int, l as int)[last as int] as int != i as int);
                    assert(j != i);
                    assert(self.nbs(i as int, l as int).contains(j));
                    assert(self.has_edge(i, j, l as int));
                }
                self.remove_edge(i, j, l);
                proof {
                    assert forall|x: usize, y: usize, lv: int| x != i && y != i
                        implies (#[trigger] self.has_edge(x, y, lv)
                            <==> old(self).has_edge(x, y, lv)) by {
                        assert(pre.has_edge(x, y, lv) <==> old(self).has_edge(x, y, lv));
                        if x == j && lv == l {
                            assert(self.nbs(j as int, lv).contains(y)
                                <==> (pre.nbs(j as int, lv).contains(y) && y != i));
                            assert(self.has_edge(x, y, lv) <==> pre.has_edge(x, y, lv));
                        } else {
                            if pre.node_at(x as int) && 0 <= lv <= pre.top_of(x as int) {
                                assert(self.nbs(x as int, lv) == pre.nbs(x as int, lv));
                            }
                            assert(self.has_edge(x, y, lv) <==> pre.has_edge(x, y, lv));
                        }
                    }
                }
            }
            l = l + 1;
        }
        proof {
            vstd::std_specs::vec::axiom_spec_len(&self.alive);
            // nothing points at the detached node any more
            assert forall|j: usize, lv: int| self.node_at(j as int) && 0 <= lv <= self.top_of(
                j as int,
            ) implies !(#[trigger] self.nbs(j as int, lv).contains(i)) by {
                if self.nbs(j as int, lv).contains(i) {
                    assert(self.has_edge(j, i, lv));
                    assert(self.has_edge(i, j, lv));
                    assert(self.nbs(i as int, lv).contains(j));
                    assert(self.nbs(i as int, lv).len() == 0);
                }
            }
        }
        let ghost mid = *self;
        self.alive.set(i, false);
        proof {
            vstd::std_specs::vec::axiom_spec_len(&self.alive);
            let g = *self;
            assert forall|j: int, lv: int| g.node_at(j) && 0 <= lv <= g.top_of(j)
                implies #[trigger] g.list_ok(j, lv) by {
                assert(mid.list_ok(j, lv));
                assert(g.nbs(j, lv) == mid.nbs(j, lv));
                assert(!mid.nbs(j as int, lv).contains(i)) by {
                    assert(mid.node_at(j) && 0 <= lv <= mid.top_of(j));
                    assert((j as usize) as int == j);
                }
                assert forall|k: int| 0 <= k < g.nbs(j, lv).len()
                    implies g.node_at(#[trigger] g.nbs(j, lv)[k] as int)
                        && lv <= g.top_of(g.nbs(j, lv)[k] as int)
                        && g.nbs(j, lv)[k] as int != j by {
                    assert(mid.node_at(mid.nbs(j, lv)[k] as int));
                    assert(mid.nbs(j, lv).contains(mid.nbs(j, lv)[k]));
                }
            }
            assert forall|x: usize, y: usize, lv: int| #[trigger] self.has_edge(x, y, lv)
                implies self.has_edge(y, x, lv) by {
                assert(mid.has_edge(x, y, lv));
                assert(mid.has_edge(y, x, lv));
                assert(y as int != i as int && x as int != i as int);
            }
        }
        let ghost g2 = *self;
        // move the entry point off the slot if it sat there
        let mut is_ep: bool = false;
        match self.ep {
            Option::Some(e) => {
                if e == i {
                    is_ep = true;
                }
            },
            Option::None => {},
        }
        if is_ep {
            let mut new_ep: Option<usize> = Option::None;
            if have_cand {
                proof {
                    assert(mid.node_at(cand as int)) by {
                        assert(old(self).node_at(cand as int));
                    }
                    assert(g2.node_at(cand as int)) by {
                        assert(cand as int != i as int);
                    }
                }
                new_ep = Option::Some(cand);
            }
            let n_slots = self.alive.len();
            let mut j: usize = if have_cand {
                n_slots
            } else {
                0
            };
            while j < n_slots
                invariant
                    0 <= j <= n_slots,
                    *self == g2,
                    n_slots == self.n(),
                    have_cand ==> j == n_slots && new_ep == Option::Some(cand),
                    match new_ep {
                        Option::Some(e) => self.node_at(e as int),
                        Option::None => forall|t: int| 0 <= t < j ==> !self.node_at(t),
                    },
                decreases n_slots - j,
            {
                if self.alive[j] {
                    new_ep = Option::Some(j);
                    j = n_slots;
                } else {
                    j = j + 1;
                }
            }
            self.ep = new_ep;
            proof {
                match self.ep {
                    Option::Some(e) => {
                        assert(self.node_at(e as int));
                    },
                    Option::None => {
                        assert forall|t: int| 0 <= t < self.n() implies !self.node_at(t) by {
                            assert(!g2.node_at(t));
                        }
                    },
                }
            }
        } else {
            proof {
                match self.ep {
                    Option::Some(e) => {
                        assert(old(self).ep == Option::Some(e));
                        assert(old(self).node_at(e as int));
                        assert(e != i);
                        assert(self.node_at(e as int));
                    },
                    Option::None => {
                        assert(old(self).ep is None);
                        assert(!old(self).node_at(i as int));
                    },
                }
            }
        }
        proof {
            let g = *self;
            assert(g.alive@ == g2.alive@ && g.tops@ == g2.tops@ && g.nb@ == g2.nb@
                && g.m == g2.m && g.m_max0 == g2.m_max0);
            assert(g.shape_ok());
            assert forall|jj: int, lv: int| g.node_at(jj) && 0 <= lv <= g.top_of(jj)
                implies #[trigger] g.list_ok(jj, lv) by {
                assert(g2.list_ok(jj, lv));
                assert(g.nbs(jj, lv) == g2.nbs(jj, lv));
                assert forall|k: int| 0 <= k < g.nbs(jj, lv).len()
                    implies g.node_at(#[trigger] g.nbs(jj, lv)[k] as int)
                        && lv <= g.top_of(g.nbs(jj, lv)[k] as int)
                        && g.nbs(jj, lv)[k] as int != jj by {
                    assert(g2.node_at(g2.nbs(jj, lv)[k] as int));
                }
            }
            assert forall|x: usize, y: usize, lv: int| #[trigger] g.has_edge(x, y, lv)
                implies g.has_edge(y, x, lv) by {
                assert(g2.has_edge(x, y, lv));
                assert(g2.has_edge(y, x, lv));
            }
            assert(g.ep_ok()) by {
                match g.ep {
                    Option::Some(e) => {
                        assert(g.node_at(e as int));
                    },
                    Option::None => {},
                }
            }
            // the per-neighbour characterisation
            assert forall|j: int, lv: int, x: usize| old(self).node_at(j) && j != i
                && 0 <= lv <= old(self).top_of(j)
                implies (g.nbs(j, lv).contains(x)
                    <==> (old(self).nbs(j, lv).contains(x) && x != i)) by {
                vstd::std_specs::vec::axiom_spec_len(&old(self).alive);
                let ju = j as usize;
                assert(ju as int == j);
                assert(g.nbs(j, lv) == g2.nbs(j, lv) && g2.nbs(j, lv) == mid.nbs(j, lv));
                assert(mid.node_at(j) && mid.top_of(j) == old(self).top_of(j));
                if x == i {
                    assert(!mid.nbs(j, lv).contains(i));
                } else {
                    assert(mid.has_edge(ju, x, lv) <==> old(self).has_edge(ju, x, lv));
                    assert(mid.nbs(j, lv).contains(x) <==> mid.has_edge(ju, x, lv));
                    assert(old(self).nbs(j, lv).contains(x)
                        <==> old(self).has_edge(ju, x, lv));
                }
            }
        }
    }

    /// Law: after any sequence of mutations, edges are bidirectional, and
    /// both ends of every edge are live.
    pub proof fn lemma_bidirectional(self, a: usize, b: usize, l: int)
        requires
            self.wf(),
        ensures
            self.has_edge(a, b, l) <==> self.has_edge(b, a, l),
            self.has_edge(a, b, l) ==> self.node_at(a as int) && self.node_at(b as int),
    {
        if self.has_edge(a, b, l) {
            assert(self.has_edge(b, a, l));
        }
        if self.has_edge(b, a, l) {
            assert(self.has_edge(a, b, l));
        }
        if self.has_edge(a, b, l) {
            assert(self.list_ok(a as int, l));
            let s = self.nbs(a as int, l);
            let k = choose|k: int| 0 <= k < s.len() && s[k] == b;
            assert(self.node_at(s[k] as int));
        }
    }

    /// Law: every live node's degree respects the caps, `m_max0` at layer 0
    /// and `m` above.
    pub proof fn lemma_degree_cap(self, i: int, l: int)
        requires
            self.wf(),
            self.node_at(i),
            0 <= l <= self.top_of(i),
        ensures
            l == 0 ==> self.nbs(i, l).len() <= self.m_max0,
            l > 0 ==> self.nbs(i, l).len() <= self.m,
    {
        assert(self.list_ok(i, l));
    }

    /// Law: no vacated slot appears in any live node's neighbour list.
    pub proof fn lemma_no_dead_neighbors(self, i: int, l: int, k: int)
        requires
            self.wf(),
            self.node_at(i),
            0 <= l <= self.top_of(i),
            0 <= k < self.nbs(i, l).len(),
        ensures
            self.node_at(self.nbs(i, l)[k] as int),
    {
        assert(self.list_ok(i, l));
    }

    /// Moves the entry point onto the live node `e`.
    pub fn set_ep(&mut self, e: usize)
        requires
            old(self).wf(),
            old(self).node_at(e as int),
        ensures
            final(self).wf(),
            final(self).ep == Option::Some(e),
            *final(self) == (HnswGraph { ep: Option::Some(e), ..*old(self) }),
    {
        self.ep = Option::Some(e);
        proof {
            let g = *self;
            assert forall|j: int, lv: int| g.node_at(j) && 0 <= lv <= g.top_of(j)
                implies #[trigger] g.list_ok(j, lv) by {
                assert(old(self).list_ok(j, lv));
            }
            assert forall|a: usize, b: usize, lv: int| #[trigger] g.has_edge(a, b, lv)
                implies g.has_edge(b, a, lv) by {
                assert(old(self).has_edge(a, b, lv));
                assert(old(self).has_edge(b, a, lv));
            }
        }
    }
}

} // verus!
