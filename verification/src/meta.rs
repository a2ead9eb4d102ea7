//! JSON-like metadata records and path lookup into them.
//!
//! A record is modelled by the spec-level `MetaV`; the executable carrier is
//! `MetaValue`. Numbers are fixed-point integers, like vector components.
//! A path is a list of segments; a segment selects an object field by name,
//! or an array element when it spells a decimal index.

use vstd::prelude::*;

verus! {

/// The mathematical model of a metadata value.
pub enum MetaV {
    Null,
    Bool(bool),
    Int(int),
    Str(Seq<char>),
    Arr(Seq<MetaV>),
    Obj(Seq<(Seq<char>, MetaV)>),
}

/// A metadata value: null, boolean, fixed-point number, string, array, or
/// object with ordered fields. The first field wins when names repeat.
#[derive(Debug)]
pub enum MetaValue {
    Null,
    Bool(bool),
    Int(i64),
    Str(String),
    Arr(Vec<MetaValue>),
    Obj(Vec<(String, MetaValue)>),
}

/// The model of a metadata value.
pub open spec fn mview(m: MetaValue) -> MetaV
    decreases m,
{
    match m {
        MetaValue::Null => MetaV::Null,
        MetaValue::Bool(b) => MetaV::Bool(b),
        MetaValue::Int(i) => MetaV::Int(i as int),
        MetaValue::Str(s) => MetaV::Str(s@),
        MetaValue::Arr(items) => MetaV::Arr(
            Seq::new(
                items@.len(),
                |i: int| if 0 <= i < items@.len() { mview(items@[i]) } else { MetaV::Null },
            ),
        ),
        MetaValue::Obj(fields) => MetaV::Obj(
            Seq::new(
                fields@.len(),
                |i: int| if 0 <= i < fields@.len() {
                    (fields@[i].0@, mview(fields@[i].1))
                } else {
                    (Seq::empty(), MetaV::Null)
                },
            ),
        ),
    }
}

impl View for MetaValue {
    type V = MetaV;

    open spec fn view(&self) -> MetaV {
        mview(*self)
    }
}

impl MetaValue {
    /// A deep copy of the value.
    #[verifier::loop_isolation(false)]
    pub fn duplicate(&self) -> (r: MetaValue)
        ensures
            r@ == self@,
        decreases *self,
    {
        match self {
            MetaValue::Null => MetaValue::Null,
            MetaValue::Bool(b) => MetaValue::Bool(*b),
            MetaValue::Int(i) => MetaValue::Int(*i),
            MetaValue::Str(s) => MetaValue::Str(s.clone()),
            MetaValue::Arr(items) => {
                let mut out: Vec<MetaValue> = Vec::new();
                let mut i: usize = 0;
                while i < items.len()
                    invariant
                        0 <= i <= items@.len(),
                        out@.len() == i,
                        forall|j: int| 0 <= j < i ==> mview(#[trigger] out@[j]) == mview(items@[j]),
                    decreases items@.len() - i,
                {
                    proof {
                        assert(decreases_to!(*self => self->Arr_0));
                        vstd::std_specs::vec::axiom_vec_index_decreases(*items, i as int);
                        assert(decreases_to!(*self => items[i as int]));
                    }
                    let c = items[i].duplicate();
                    out.push(c);
                    i = i + 1;
                }
                let r = MetaValue::Arr(out);
                proof {
                    assert(r@->Arr_0 =~= self@->Arr_0);
                }
                r
            },
            MetaValue::Obj(fields) => {
                let mut out: Vec<(String, MetaValue)> = Vec::new();
                let mut i: usize = 0;
                while i < fields.len()
                    invariant
                        0 <= i <= fields@.len(),
                        out@.len() == i,
                        forall|j: int| 0 <= j < i ==> (#[trigger] out@[j]).0@ == fields@[j].0@
                            && mview(out@[j].1) == mview(fields@[j].1),
                    decreases fields@.len() - i,
                {
                    proof {
                        assert(decreases_to!(*self => self->Obj_0));
                        vstd::std_specs::vec::axiom_vec_index_decreases(*fields, i as int);
                        assert(decreases_to!(*self => fields[i as int]));
                    }
                    let k = fields[i].0.clone();
                    let c = fields[i].1.duplicate();
                    out.push((k, c));
                    i = i + 1;
                }
                let r = MetaValue::Obj(out);
                proof {
                    assert(r@->Obj_0 =~= self@->Obj_0);
                }
                r
            },
        }
    }

    /// Decides whether two values have the same model.
    #[verifier::loop_isolation(false)]
    pub fn same_as(&self, other: &MetaValue) -> (r: bool)
        ensures
            r == (self@ == other@),
        decreases *self,
    {
        match (self, other) {
            (MetaValue::Null, MetaValue::Null) => true,
            (MetaValue::Bool(a), MetaValue::Bool(b)) => a == b,
            (MetaValue::Int(a), MetaValue::Int(b)) => a == b,
            (MetaValue::Str(a), MetaValue::Str(b)) => *a == *b,
            (MetaValue::Arr(xs), MetaValue::Arr(ys)) => {
                if xs.len() != ys.len() {
                    assert(self@->Arr_0.len() != other@->Arr_0.len());
                    false
                } else {
                    let mut i: usize = 0;
                    let mut ok: bool = true;
                    while i < xs.len()
                        invariant
                            0 <= i <= xs@.len(),
                            ok <==> (forall|j: int| 0 <= j < i
                                ==> mview(#[trigger] xs@[j]) == mview(ys@[j])),
                        decreases xs@.len() - i,
                    {
                        proof {
                            assert(decreases_to!(*self => self->Arr_0));
                            vstd::std_specs::vec::axiom_vec_index_decreases(*xs, i as int);
                            assert(decreases_to!(*self => xs[i as int]));
                        }
                        if !xs[i].same_as(&ys[i]) {
                            ok = false;
                        }
                        i = i + 1;
                    }
                    proof {
                        let sa = self@->Arr_0;
                        let sb = other@->Arr_0;
                        if ok {
                            assert(sa =~= sb);
                        } else {
                            let j = choose|j: int| 0 <= j < xs@.len()
                                && mview(xs@[j]) != mview(ys@[j]);
                            assert(sa[j] != sb[j]);
                        }
                    }
                    ok
                }
            },
            (MetaValue::Obj(xs), MetaValue::Obj(ys)) => {
                if xs.len() != ys.len() {
                    assert(self@->Obj_0.len() != other@->Obj_0.len());
                    false
                } else {
                    let mut i: usize = 0;
                    let mut ok: bool = true;
                    while i < xs.len()
                        invariant
                            0 <= i <= xs@.len(),
                            ok <==> (forall|j: int| 0 <= j < i
                                ==> (#[trigger] xs@[j]).0@ == ys@[j].0@
                                    && mview(xs@[j].1) == mview(ys@[j].1)),
                        decreases xs@.len() - i,
                    {
                        proof {
                            assert(decreases_to!(*self => self->Obj_0));
                            vstd::std_specs::vec::axiom_vec_index_decreases(*xs, i as int);
                            assert(decreases_to!(*self => xs[i as int]));
                        }
                        if !(xs[i].0 == ys[i].0) || !xs[i].1.same_as(&ys[i].1) {
                            ok = false;
                        }
                        i = i + 1;
                    }
                    proof {
                        let sa = self@->Obj_0;
                        let sb = other@->Obj_0;
                        if ok {
                            assert(sa =~= sb);
                        } else {
                            let j = choose|j: int| 0 <= j < xs@.len()
                                && !(xs@[j].0@ == ys@[j].0@ && mview(xs@[j].1) == mview(ys@[j].1));
                            assert(sa[j] != sb[j]);
                        }
                    }
                    ok
                }
            },
            _ => {
                assert(self@ != other@);
                false
            },
        }
    }
}

/// The first field named `k`, if any.
pub open spec fn obj_find(fs: Seq<(Seq<char>, MetaV)>, k: Seq<char>) -> Option<MetaV>
    decreases fs.len(),
{
    if fs.len() == 0 {
        Option::None
    } else if fs[0].0 == k {
        Option::Some(fs[0].1)
    } else {
        obj_find(fs.drop_first(), k)
    }
}

/// Every character is a decimal digit, and there is at least one.
pub open spec fn is_digits(s: Seq<char>) -> bool {
    s.len() > 0 && forall|i: int| 0 <= i < s.len() ==> '0' <= #[trigger] s[i] <= '9'
}

/// The value of a decimal digit string.
pub open spec fn digits_val(s: Seq<char>) -> int
    decreases s.len(),
{
    if s.len() == 0 {
        0
    } else {
        digits_val(s.drop_last()) * 10 + (s.last() as int - '0' as int)
    }
}

/// The value of a digit string is never negative.
pub proof fn lemma_digits_val_nonneg(s: Seq<char>)
    requires
        forall|i: int| 0 <= i < s.len() ==> '0' <= #[trigger] s[i] <= '9',
    ensures
        digits_val(s) >= 0,
    decreases s.len(),
{
    if s.len() > 0 {
        assert(forall|i: int| 0 <= i < s.drop_last().len()
            ==> '0' <= #[trigger] s.drop_last()[i] <= '9');
        lemma_digits_val_nonneg(s.drop_last());
    }
}

/// Dropping trailing digits never increases the value.
pub proof fn lemma_digits_val_prefix(s: Seq<char>, i: int)
    requires
        forall|j: int| 0 <= j < s.len() ==> '0' <= #[trigger] s[j] <= '9',
        0 <= i <= s.len(),
    ensures
        digits_val(s.take(i)) <= digits_val(s),
    decreases s.len() - i,
{
    if i == s.len() {
        assert(s.take(i) =~= s);
    } else {
        lemma_digits_val_prefix(s, i + 1);
        let t = s.take(i + 1);
        assert(t.drop_last() =~= s.take(i));
        assert(forall|j: int| 0 <= j < t.len() ==> '0' <= #[trigger] t[j] <= '9');
        lemma_digits_val_nonneg(s.take(i));
        assert(digits_val(s.take(i)) <= digits_val(s.take(i)) * 10 + (t.last() as int - '0' as int));
    }
}

/// Navigates a path of segments from a value: object segments select a field
/// by name; array segments must spell a decimal index in range. Anything
/// else misses.
pub open spec fn lookup_path(m: MetaV, p: Seq<Seq<char>>) -> Option<MetaV>
    decreases p.len(),
{
    if p.len() == 0 {
        Option::Some(m)
    } else {
        match m {
            MetaV::Obj(fs) => match obj_find(fs, p[0]) {
                Option::Some(v) => lookup_path(v, p.drop_first()),
                Option::None => Option::None,
            },
            MetaV::Arr(xs) => {
                if is_digits(p[0]) && digits_val(p[0]) < xs.len() {
                    lookup_path(xs[digits_val(p[0])], p.drop_first())
                } else {
                    Option::None
                }
            },
            _ => Option::None,
        }
    }
}

/// The models of a list of path segments.
pub open spec fn path_view(p: Seq<String>) -> Seq<Seq<char>> {
    Seq::new(p.len(), |i: int| p[i]@)
}

/// Parses `seg` as a decimal array index smaller than `len`.
#[verifier::loop_isolation(false)]
fn parse_index(seg: &String, len: usize) -> (r: Option<usize>)
    ensures
        match r {
            Option::Some(i) => is_digits(seg@) && digits_val(seg@) == i && i < len,
            Option::None => !(is_digits(seg@) && digits_val(seg@) < len),
        },
{
    let s = seg.as_str();
    let n = s.unicode_len();
    if n == 0 {
        return Option::None;
    }
    let mut acc: u128 = 0;
    let mut i: usize = 0;
    proof {
        assert(seg@.take(0) =~= Seq::<char>::empty());
    }
    while i < n
        invariant
            0 <= i <= n,
            forall|j: int| 0 <= j < i ==> '0' <= #[trigger] seg@[j] <= '9',
            acc == digits_val(seg@.take(i as int)),
            acc <= u64::MAX,
        decreases n - i,
    {
        let c = s.get_char(i);
        let d = c as u32;
        if d < 48 || d > 57 {
            proof {
                assert(!('0' <= seg@[i as int] <= '9'));
            }
            return Option::None;
        }
        proof {
            let t = seg@.take(i as int + 1);
            assert(t.drop_last() =~= seg@.take(i as int));
            assert(t.last() == seg@[i as int]);
            lemma_digits_val_nonneg(seg@.take(i as int));
        }
        acc = acc * 10 + ((d - 48) as u128);
        i = i + 1;
        if acc > u64::MAX as u128 {
            proof {
                if is_digits(seg@) && digits_val(seg@) < len {
                    lemma_digits_val_prefix(seg@, i as int);
                }
            }
            return Option::None;
        }
    }
    proof {
        assert(seg@.take(n as int) =~= seg@);
    }
    if acc < len as u128 {
        Option::Some(acc as usize)
    } else {
        Option::None
    }
}

/// Follows `path` into `m`, returning the value it reaches.
#[verifier::loop_isolation(false)]
pub fn lookup<'a>(m: &'a MetaValue, path: &Vec<String>) -> (r: Option<&'a MetaValue>)
    ensures
        match r {
            Option::Some(v) => lookup_path(m@, path_view(path@)) == Option::Some(v@),
            Option::None => lookup_path(m@, path_view(path@)) is None,
        },
{
    let mut cur: &MetaValue = m;
    let mut i: usize = 0;
    proof {
        assert(path_view(path@).skip(0) =~= path_view(path@));
    }
    while i < path.len()
        invariant
            0 <= i <= path@.len(),
            lookup_path(m@, path_view(path@)) == lookup_path(cur@, path_view(path@).skip(i as int)),
        decreases path@.len() - i,
    {
        let ghost rest = path_view(path@).skip(i as int);
        proof {
            assert(rest.len() > 0);
            assert(rest[0] == path@[i as int]@);
            assert(rest.drop_first() =~= path_view(path@).skip(i as int + 1));
        }
        let seg = &path[i];
        match cur {
            MetaValue::Obj(fields) => {
                let ghost fsv = cur@->Obj_0;
                let mut j: usize = 0;
                let mut found: Option<&MetaValue> = Option::None;
                proof {
                    assert(fsv.skip(0) =~= fsv);
                }
                while j < fields.len()
                    invariant
                        0 <= j <= fields@.len(),
                        found is Some ==> j == fields@.len(),
                        match found {
                            Option::Some(v) => obj_find(fsv, seg@) == Option::Some(v@),
                            Option::None => obj_find(fsv, seg@) == obj_find(
                                fsv.skip(j as int),
                                seg@,
                            ),
                        },
                    decreases fields@.len() - j,
                {
                    proof {
                        assert(fsv.skip(j as int)[0] == fsv[j as int]);
                        assert(fsv.skip(j as int).drop_first() =~= fsv.skip(j as int + 1));
                    }
                    if fields[j].0 == *seg {
                        proof {
                            assert(fsv[j as int].0 == seg@);
                            assert(fsv[j as int].1 == mview(fields@[j as int].1));
                            assert(obj_find(fsv.skip(j as int), seg@)
                                == Option::Some(fsv[j as int].1));
                        }
                        found = Option::Some(&fields[j].1);
                        j = fields.len();
                    } else {
                        j = j + 1;
                    }
                }
                match found {
                    Option::Some(v) => {
                        cur = v;
                    },
                    Option::None => {
                        proof {
                            assert(fsv.skip(fields@.len() as int)
                                =~= Seq::<(Seq<char>, MetaV)>::empty());
                        }
                        return Option::None;
                    },
                }
            },
            MetaValue::Arr(items) => {
                match parse_index(seg, items.len()) {
                    Option::Some(idx) => {
                        proof {
                            assert(cur@->Arr_0[idx as int] == mview(items@[idx as int]));
                        }
                        cur = &items[idx];
                    },
                    Option::None => {
                        return Option::None;
                    },
                }
            },
            _ => {
                return Option::None;
            },
        }
        i = i + 1;
    }
    proof {
        assert(path_view(path@).skip(path@.len() as int) =~= Seq::<Seq<char>>::empty());
    }
    Option::Some(cur)
}

} // verus!
