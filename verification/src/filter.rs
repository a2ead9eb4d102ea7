//! The metadata filter: a predicate tree evaluated against one record.
//!
//! Leaves test the value a path reaches; `And`, `Or` and `Not` combine
//! subtrees. A missing path, or a type mismatch, makes a leaf false; the
//! evaluator never fails.

use vstd::prelude::*;
use crate::meta::{lookup, lookup_path, path_view, MetaV, MetaValue};

verus! {

/// Bounds for a `Range` leaf; a bound left `None` does not constrain.
#[derive(Debug, Clone, Copy)]
pub struct RangeSpec {
    pub gt: Option<i64>,
    pub gte: Option<i64>,
    pub lt: Option<i64>,
    pub lte: Option<i64>,
}

/// A filter tree. Paths are lists of segments, as in `meta::lookup_path`.
#[derive(Debug)]
pub enum Filter {
    /// The path reaches a value with the given model.
    Eq(Vec<String>, MetaValue),
    /// The path reaches a value whose model is among the listed ones.
    In(Vec<String>, Vec<MetaValue>),
    /// The path reaches a number within the bounds.
    Range(Vec<String>, RangeSpec),
    /// The path reaches any value at all.
    Exists(Vec<String>),
    /// Every subtree holds; an empty list holds.
    And(Vec<Filter>),
    /// At least one subtree holds; an empty list fails.
    Or(Vec<Filter>),
    /// The subtree fails.
    Not(Box<Filter>),
}

/// Looks up a path in a record that may be absent.
pub open spec fn lookup_opt(m: Option<MetaV>, p: Seq<Seq<char>>) -> Option<MetaV> {
    match m {
        Option::Some(v) => lookup_path(v, p),
        Option::None => Option::None,
    }
}

/// A number satisfies the bounds of a `Range` leaf.
pub open spec fn range_ok(r: RangeSpec, x: int) -> bool {
    &&& match r.gt {
        Option::Some(g) => x > g,
        Option::None => true,
    }
    &&& match r.gte {
        Option::Some(g) => x >= g,
        Option::None => true,
    }
    &&& match r.lt {
        Option::Some(g) => x < g,
        Option::None => true,
    }
    &&& match r.lte {
        Option::Some(g) => x <= g,
        Option::None => true,
    }
}

/// Whether filter `f` accepts the record `m`.
pub open spec fn eval_filter(f: Filter, m: Option<MetaV>) -> bool
    decreases f,
{
    match f {
        Filter::Eq(p, v) => match lookup_opt(m, path_view(p@)) {
            Option::Some(x) => x == v@,
            Option::None => false,
        },
        Filter::In(p, vs) => match lookup_opt(m, path_view(p@)) {
            Option::Some(x) => exists|i: int| 0 <= i < vs@.len() && x == (#[trigger] vs@[i])@,
            Option::None => false,
        },
        Filter::Range(p, r) => match lookup_opt(m, path_view(p@)) {
            Option::Some(MetaV::Int(x)) => range_ok(r, x),
            _ => false,
        },
        Filter::Exists(p) => lookup_opt(m, path_view(p@)) is Some,
        Filter::And(fs) => forall|i: int| 0 <= i < fs@.len()
            ==> eval_filter(#[trigger] fs@[i], m),
        Filter::Or(fs) => exists|i: int| 0 <= i < fs@.len()
            && eval_filter(#[trigger] fs@[i], m),
        Filter::Not(g) => !eval_filter(*g, m),
    }
}

/// The model of a record that may be absent.
pub open spec fn meta_opt_view(m: Option<&MetaValue>) -> Option<MetaV> {
    match m {
        Option::Some(v) => Option::Some(v@),
        Option::None => Option::None,
    }
}

/// Evaluates the filter against one record; absent metadata fails every
/// leaf but satisfies `Not` and empty `And` as the model says.
#[verifier::loop_isolation(false)]
pub fn eval(f: &Filter, m: Option<&MetaValue>) -> (r: bool)
    ensures
        r == eval_filter(*f, meta_opt_view(m)),
    decreases *f,
{
    match f {
        Filter::Eq(p, v) => match m {
            Option::Some(mv) => match lookup(mv, p) {
                Option::Some(x) => x.same_as(v),
                Option::None => false,
            },
            Option::None => false,
        },
        Filter::In(p, vs) => match m {
            Option::Some(mv) => match lookup(mv, p) {
                Option::Some(x) => {
                    let mut i: usize = 0;
                    let mut hit: bool = false;
                    while i < vs.len()
                        invariant
                            0 <= i <= vs@.len(),
                            hit <==> (exists|j: int| 0 <= j < i && x@ == (#[trigger] vs@[j])@),
                        decreases vs@.len() - i,
                    {
                        if x.same_as(&vs[i]) {
                            hit = true;
                        }
                        i = i + 1;
                    }
                    hit
                },
                Option::None => false,
            },
            Option::None => false,
        },
        Filter::Range(p, r) => match m {
            Option::Some(mv) => match lookup(mv, p) {
                Option::Some(x) => match x {
                    MetaValue::Int(n) => {
                        let mut ok: bool = true;
                        match r.gt {
                            Option::Some(g) => {
                                if !(*n > g) {
                                    ok = false;
                                }
                            },
                            Option::None => {},
                        }
                        match r.gte {
                            Option::Some(g) => {
                                if !(*n >= g) {
                                    ok = false;
                                }
                            },
                            Option::None => {},
                        }
                        match r.lt {
                            Option::Some(g) => {
                                if !(*n < g) {
                                    ok = false;
                                }
                            },
                            Option::None => {},
                        }
                        match r.lte {
                            Option::Some(g) => {
                                if !(*n <= g) {
                                    ok = false;
                                }
                            },
                            Option::None => {},
                        }
                        ok
                    },
                    _ => false,
                },
                Option::None => false,
            },
            Option::None => false,
        },
        Filter::Exists(p) => match m {
            Option::Some(mv) => lookup(mv, p).is_some(),
            Option::None => false,
        },
        Filter::And(fs) => {
            let mut i: usize = 0;
            let mut all: bool = true;
            while i < fs.len()
                invariant
                    0 <= i <= fs@.len(),
                    all <==> (forall|j: int| 0 <= j < i ==> eval_filter(#[trigger] fs@[j],
                        meta_opt_view(m))),
                decreases fs@.len() - i,
            {
                proof {
                    assert(decreases_to!(*f => f->And_0));
                    vstd::std_specs::vec::axiom_vec_index_decreases(*fs, i as int);
                    assert(decreases_to!(*f => fs[i as int]));
                }
                if !eval(&fs[i], m) {
                    all = false;
                }
                i = i + 1;
            }
            all
        },
        Filter::Or(fs) => {
            let mut i: usize = 0;
            let mut any: bool = false;
            while i < fs.len()
                invariant
                    0 <= i <= fs@.len(),
                    any <==> (exists|j: int| 0 <= j < i && eval_filter(#[trigger] fs@[j],
                        meta_opt_view(m))),
                decreases fs@.len() - i,
            {
                proof {
                    assert(decreases_to!(*f => f->Or_0));
                    vstd::std_specs::vec::axiom_vec_index_decreases(*fs, i as int);
                    assert(decreases_to!(*f => fs[i as int]));
                }
                if eval(&fs[i], m) {
                    any = true;
                }
                i = i + 1;
            }
            any
        },
        Filter::Not(g) => !eval(&*g, m),
    }
}

} // verus!
