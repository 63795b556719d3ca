use crate::errors::{Error, Kind};
use serde_yaml::{Mapping, Number, Value};
use vstd::prelude::*;
use vstd::string::StrSliceExecFns;
use vstd::string::StringExecFns;

verus! {

/// A YAML number. A float is held by the bits of its `f64`; floats compare as
/// `f64` values do, except that all NaNs are equal.
#[derive(Clone, Copy, Debug, PartialEq, Eq)]
pub enum YamlNumber {
    PosInt(u64),
    NegInt(i64),
    Float(u64),
}

/// A YAML value.
#[derive(Debug, PartialEq, Eq)]
pub enum YamlValue {
    Null,
    Bool(bool),
    Number(YamlNumber),
    String(String),
    Sequence(Vec<YamlValue>),
    Mapping(Vec<(YamlValue, YamlValue)>),
    Tagged(String, Box<YamlValue>),
}

/// The mathematical value of a YAML value.
pub enum YamlV {
    Null,
    Bool(bool),
    Number(YamlNumber),
    String(Seq<char>),
    Sequence(Seq<YamlV>),
    Mapping(Seq<(YamlV, YamlV)>),
    Tagged(Seq<char>, Box<YamlV>),
}

pub open spec fn values_view(s: Seq<YamlValue>) -> Seq<YamlV>
    decreases s,
{
    if s.len() == 0 {
        Seq::empty()
    } else {
        values_view(s.drop_last()).push(s.last().view())
    }
}

pub open spec fn entries_view(s: Seq<(YamlValue, YamlValue)>) -> Seq<(YamlV, YamlV)>
    decreases s,
{
    if s.len() == 0 {
        Seq::empty()
    } else {
        entries_view(s.drop_last()).push((s.last().0.view(), s.last().1.view()))
    }
}

impl YamlValue {
    pub open spec fn view(&self) -> YamlV
        decreases self,
    {
        match self {
            YamlValue::Null => YamlV::Null,
            YamlValue::Bool(b) => YamlV::Bool(*b),
            YamlValue::Number(n) => YamlV::Number(*n),
            YamlValue::String(s) => YamlV::String(s@),
            YamlValue::Sequence(s) => YamlV::Sequence(values_view(s@)),
            YamlValue::Mapping(m) => YamlV::Mapping(entries_view(m@)),
            YamlValue::Tagged(t, v) => YamlV::Tagged(t@, Box::new(v.view())),
        }
    }
}

pub proof fn lemma_values_view(s: Seq<YamlValue>)
    ensures
        values_view(s).len() == s.len(),
        forall|i: int| 0 <= i < s.len() ==> #[trigger] values_view(s)[i] == s[i].view(),
    decreases s.len(),
{
    if s.len() > 0 {
        lemma_values_view(s.drop_last());
    }
}

pub proof fn lemma_entries_view(s: Seq<(YamlValue, YamlValue)>)
    ensures
        entries_view(s).len() == s.len(),
        forall|i: int|
            0 <= i < s.len() ==> #[trigger] entries_view(s)[i] == (s[i].0.view(), s[i].1.view()),
    decreases s.len(),
{
    if s.len() > 0 {
        lemma_entries_view(s.drop_last());
    }
}

/// The value under its tags.
pub open spec fn untag(v: YamlV) -> YamlV
    decreases v,
{
    match v {
        YamlV::Tagged(_, inner) => untag(*inner),
        _ => v,
    }
}

/// The `f64` of the bits `a` is a NaN.
pub open spec fn float_is_nan(a: u64) -> bool {
    a % 0x8000_0000_0000_0000 > 0x7ff0_0000_0000_0000
}

/// The `f64` of the bits `a` is a zero, of either sign.
pub open spec fn float_is_zero(a: u64) -> bool {
    a % 0x8000_0000_0000_0000 == 0
}

/// Two floats, given by their bits, are equal: as `f64` values, or as NaNs.
pub open spec fn float_eq(a: u64, b: u64) -> bool {
    ||| a == b
    ||| float_is_nan(a) && float_is_nan(b)
    ||| float_is_zero(a) && float_is_zero(b)
}

/// Equality of YAML numbers.
pub open spec fn number_eq(x: YamlNumber, y: YamlNumber) -> bool {
    match (x, y) {
        (YamlNumber::PosInt(a), YamlNumber::PosInt(b)) => a == b,
        (YamlNumber::NegInt(a), YamlNumber::NegInt(b)) => a == b,
        (YamlNumber::Float(a), YamlNumber::Float(b)) => float_eq(a, b),
        _ => false,
    }
}

/// The text by which a tag is compared: its text, or `!` for the tag `!`,
/// which is held with its leading `!` taken off.
pub open spec fn tag_key(t: Seq<char>) -> Seq<char> {
    if t.len() == 0 {
        seq!['!']
    } else {
        t
    }
}

/// Equality of YAML values: numbers as numbers, tags by their text, sequences
/// item by item, and mappings of equal size in any order, each entry of `a`
/// finding its key in `b` with an equal value.
pub open spec fn yaml_eq(a: YamlV, b: YamlV) -> bool
    decreases a, 0int,
{
    match (a, b) {
        (YamlV::Null, YamlV::Null) => true,
        (YamlV::Bool(x), YamlV::Bool(y)) => x == y,
        (YamlV::Number(x), YamlV::Number(y)) => number_eq(x, y),
        (YamlV::String(x), YamlV::String(y)) => x == y,
        (YamlV::Sequence(xs), YamlV::Sequence(ys)) => xs.len() == ys.len() && items_eq(
            xs,
            ys,
            xs.len() as int,
        ),
        (YamlV::Mapping(xm), YamlV::Mapping(ym)) => xm.len() == ym.len() && entries_eq(
            xm,
            ym,
            xm.len() as int,
        ),
        (YamlV::Tagged(s, x), YamlV::Tagged(t, y)) => tag_key(s) == tag_key(t) && yaml_eq(*x, *y),
        _ => false,
    }
}

/// The first `n` items of `xs` and `ys` are pairwise equal.
pub open spec fn items_eq(xs: Seq<YamlV>, ys: Seq<YamlV>, n: int) -> bool
    decreases xs, n,
{
    if n <= 0 {
        true
    } else if n > xs.len() || n > ys.len() {
        false
    } else {
        items_eq(xs, ys, n - 1) && yaml_eq(xs[n - 1], ys[n - 1])
    }
}

/// Each of the first `n` entries of `xm` finds its key in `ym` with an equal
/// value.
pub open spec fn entries_eq(xm: Seq<(YamlV, YamlV)>, ym: Seq<(YamlV, YamlV)>, n: int) -> bool
    decreases xm, n,
{
    if n <= 0 {
        true
    } else if n > xm.len() {
        false
    } else {
        let j = key_index(ym, xm[n - 1].0, 0);
        entries_eq(xm, ym, n - 1) && 0 <= j < ym.len() && yaml_eq(xm[n - 1].1, ym[j].1)
    }
}

/// The index of the first entry of `m` from `i` on whose key equals `k`, or -1.
pub open spec fn key_index(m: Seq<(YamlV, YamlV)>, k: YamlV, i: int) -> int
    decreases k, m.len() - i,
{
    if i < 0 || i >= m.len() {
        -1
    } else if yaml_eq(k, m[i].0) {
        i
    } else {
        key_index(m, k, i + 1)
    }
}

/// The value of the key `k` in the mapping `m`.
pub open spec fn map_get(m: Seq<(YamlV, YamlV)>, k: YamlV) -> Option<YamlV> {
    let i = key_index(m, k, 0);
    if 0 <= i < m.len() {
        Some(m[i].1)
    } else {
        None
    }
}

/// Extends a value when possible or defaults to overwrite: mappings are merged
/// recursively, sequences are concatenated, other values are replaced.
pub open spec fn extend_value(p: YamlV, o: YamlV) -> YamlV
    decreases o, 0int,
{
    match (p, o) {
        (YamlV::Mapping(pm), YamlV::Mapping(om)) => YamlV::Mapping(extend_mapping(pm, om)),
        (YamlV::Sequence(ps), YamlV::Sequence(os)) => YamlV::Sequence(ps + os),
        _ => o,
    }
}

/// Extends a mapping by the entries of another, in order: the value of a known
/// key is extended, an unknown key is appended.
pub open spec fn extend_mapping(pm: Seq<(YamlV, YamlV)>, om: Seq<(YamlV, YamlV)>) -> Seq<
    (YamlV, YamlV),
>
    decreases om, om.len(),
{
    if om.len() == 0 {
        pm
    } else {
        extend_mapping(extend_entry(pm, om[0]), om.drop_first())
    }
}

/// Extends a mapping by one entry.
pub open spec fn extend_entry(pm: Seq<(YamlV, YamlV)>, e: (YamlV, YamlV)) -> Seq<(YamlV, YamlV)>
    decreases e, 0int,
{
    let i = key_index(pm, e.0, 0);
    if 0 <= i < pm.len() {
        pm.update(i, (pm[i].0, extend_value(pm[i].1, e.1)))
    } else {
        pm.push(e)
    }
}

proof fn lemma_key_index(m: Seq<(YamlV, YamlV)>, k: YamlV, i: int)
    requires
        0 <= i <= m.len(),
    ensures
        key_index(m, k, i) == -1 || i <= key_index(m, k, i) < m.len(),
        key_index(m, k, i) != -1 ==> yaml_eq(k, m[key_index(m, k, i)].0),
        key_index(m, k, i) == -1 ==> forall|j: int| i <= j < m.len() ==> !yaml_eq(k, #[trigger] m[j].0),
    decreases m.len() - i,
{
    if i < m.len() && !yaml_eq(k, m[i].0) {
        lemma_key_index(m, k, i + 1);
    }
}

impl YamlValue {
    /// Returns a copy of the value.
    pub fn duplicate(&self) -> (r: YamlValue)
        ensures
            r@ == self@,
        decreases self,
    {
        match self {
            YamlValue::Null => YamlValue::Null,
            YamlValue::Bool(b) => YamlValue::Bool(*b),
            YamlValue::Number(n) => YamlValue::Number(*n),
            YamlValue::String(s) => YamlValue::String(s.clone()),
            YamlValue::Sequence(s) => {
                let mut r: Vec<YamlValue> = Vec::new();
                let mut i: usize = 0;
                #[verifier::loop_isolation(false)]
                while i < s.len()
                    invariant
                        i <= s.len(),
                        r.len() == i,
                        forall|j: int| 0 <= j < i ==> #[trigger] r@[j].view() == s@[j].view(),
                    decreases s.len() - i,
                {
                    proof {
                        assert(decreases_to!(*self => *s));
                        assert(decreases_to!(*s => s@));
                        assert(decreases_to!(s@ => s@[i as int]));
                    }
                    r.push(s[i].duplicate());
                    i = i + 1;
                }
                proof {
                    lemma_values_view(r@);
                    lemma_values_view(s@);
                    assert(values_view(r@) =~= values_view(s@));
                }
                YamlValue::Sequence(r)
            },
            YamlValue::Mapping(m) => {
                let mut r: Vec<(YamlValue, YamlValue)> = Vec::new();
                let mut i: usize = 0;
                #[verifier::loop_isolation(false)]
                while i < m.len()
                    invariant
                        i <= m.len(),
                        r.len() == i,
                        forall|j: int|
                            0 <= j < i ==> #[trigger] r@[j].0.view() == m@[j].0.view()
                                && r@[j].1.view() == m@[j].1.view(),
                    decreases m.len() - i,
                {
                    proof {
                        assert(decreases_to!(*self => *m));
                        assert(decreases_to!(*m => m@));
                        assert(decreases_to!(m@ => m@[i as int]));
                        assert(decreases_to!(m@[i as int] => m@[i as int].0));
                        assert(decreases_to!(m@[i as int] => m@[i as int].1));
                    }
                    let k = m[i].0.duplicate();
                    let v = m[i].1.duplicate();
                    r.push((k, v));
                    i = i + 1;
                }
                proof {
                    lemma_entries_view(r@);
                    lemma_entries_view(m@);
                    assert(entries_view(r@) =~= entries_view(m@));
                }
                YamlValue::Mapping(r)
            },
            YamlValue::Tagged(t, v) => YamlValue::Tagged(t.clone(), Box::new((&**v).duplicate())),
        }
    }

    /// Returns the value under its tags.
    pub fn untag_ref(&self) -> (r: &YamlValue)
        ensures
            r@ == untag(self@),
        decreases self,
    {
        match self {
            YamlValue::Tagged(_, v) => (&**v).untag_ref(),
            _ => self,
        }
    }
}

/// Compares two floats given by their bits, as `f64` values, all NaNs being
/// equal.
fn float_bits_eq(a: u64, b: u64) -> (r: bool)
    ensures
        r == float_eq(a, b),
{
    let ma = a % 0x8000_0000_0000_0000u64;
    let mb = b % 0x8000_0000_0000_0000u64;
    a == b || (ma > 0x7ff0_0000_0000_0000u64 && mb > 0x7ff0_0000_0000_0000u64) || (ma == 0 && mb
        == 0)
}

/// Tells whether a text is the single character `!`.
fn is_bang(t: &String) -> (r: bool)
    ensures
        r == (t@ == seq!['!']),
{
    let s = t.as_str();
    if s.unicode_len() == 1 {
        let c = s.get_char(0);
        proof {
            if c == '!' {
                assert(t@ =~= seq!['!']);
            }
        }
        c == '!'
    } else {
        false
    }
}

/// Compares two tags by their text.
fn tag_same(s: &String, t: &String) -> (r: bool)
    ensures
        r == (tag_key(s@) == tag_key(t@)),
{
    let se = s.as_str().is_empty();
    let te = t.as_str().is_empty();
    if se && te {
        true
    } else if se {
        is_bang(t)
    } else if te {
        is_bang(s)
    } else {
        *s == *t
    }
}

/// Compares two YAML values: numbers as numbers, tags by their text,
/// sequences item by item, and mappings of equal size in any order.
pub fn value_eq(a: &YamlValue, b: &YamlValue) -> (r: bool)
    ensures
        r == yaml_eq(a@, b@),
    decreases a, 0int,
{
    match (a, b) {
        (YamlValue::Null, YamlValue::Null) => true,
        (YamlValue::Bool(x), YamlValue::Bool(y)) => *x == *y,
        (YamlValue::Number(x), YamlValue::Number(y)) => match (x, y) {
            (YamlNumber::PosInt(p), YamlNumber::PosInt(q)) => *p == *q,
            (YamlNumber::NegInt(p), YamlNumber::NegInt(q)) => *p == *q,
            (YamlNumber::Float(p), YamlNumber::Float(q)) => float_bits_eq(*p, *q),
            _ => false,
        },
        (YamlValue::String(x), YamlValue::String(y)) => *x == *y,
        (YamlValue::Sequence(x), YamlValue::Sequence(y)) => {
            proof {
                lemma_values_view(x@);
                lemma_values_view(y@);
            }
            let ghost xs = values_view(x@);
            let ghost ys = values_view(y@);
            if x.len() != y.len() {
                return false;
            }
            let mut i: usize = 0;
            #[verifier::loop_isolation(false)]
            while i < x.len()
                invariant
                    i <= x.len(),
                    items_eq(xs, ys, i as int),
                decreases x.len() - i,
            {
                proof {
                    assert(decreases_to!(*a => *x));
                    assert(decreases_to!(*x => x@));
                    assert(decreases_to!(x@ => x@[i as int]));
                }
                if !value_eq(&x[i], &y[i]) {
                    assert(!items_eq(xs, ys, i + 1));
                    proof {
                        lemma_items_eq_prefix(xs, ys, i + 1, xs.len() as int);
                    }
                    return false;
                }
                i = i + 1;
            }
            true
        },
        (YamlValue::Mapping(x), YamlValue::Mapping(y)) => {
            proof {
                lemma_entries_view(x@);
                lemma_entries_view(y@);
            }
            let ghost xm = entries_view(x@);
            let ghost ym = entries_view(y@);
            if x.len() != y.len() {
                return false;
            }
            let mut i: usize = 0;
            #[verifier::loop_isolation(false)]
            while i < x.len()
                invariant
                    i <= x.len(),
                    entries_eq(xm, ym, i as int),
                decreases x.len() - i,
            {
                proof {
                    assert(decreases_to!(*a => *x));
                    assert(decreases_to!(*x => x@));
                    assert(decreases_to!(x@ => x@[i as int]));
                    assert(decreases_to!(x@[i as int] => x@[i as int].0));
                    assert(decreases_to!(x@[i as int] => x@[i as int].1));
                }
                proof {
                    lemma_key_index(ym, x@[i as int].0@, 0);
                    assert(xm[i as int] == (x@[i as int].0@, x@[i as int].1@));
                }
                let same = match mapping_index(y, &x[i].0) {
                    Some(j) => {
                        assert(ym[j as int] == (y@[j as int].0@, y@[j as int].1@));
                        value_eq(&x[i].1, &y[j].1)
                    },
                    None => false,
                };
                assert(same == (0 <= key_index(ym, xm[i as int].0, 0) < ym.len() && yaml_eq(
                    xm[i as int].1,
                    ym[key_index(ym, xm[i as int].0, 0)].1,
                )));
                if !same {
                    assert(!entries_eq(xm, ym, i + 1));
                    proof {
                        lemma_entries_eq_prefix(xm, ym, i + 1, xm.len() as int);
                    }
                    return false;
                }
                i = i + 1;
            }
            true
        },
        (YamlValue::Tagged(s, x), YamlValue::Tagged(t, y)) => tag_same(s, t) && value_eq(&**x, &**y),
        _ => false,
    }
}

proof fn lemma_items_eq_prefix(xs: Seq<YamlV>, ys: Seq<YamlV>, n: int, k: int)
    requires
        0 <= n <= k,
        !items_eq(xs, ys, n),
    ensures
        !items_eq(xs, ys, k),
    decreases k - n,
{
    if n < k {
        lemma_items_eq_prefix(xs, ys, n, k - 1);
    }
}

proof fn lemma_entries_eq_prefix(xm: Seq<(YamlV, YamlV)>, ym: Seq<(YamlV, YamlV)>, n: int, k: int)
    requires
        0 <= n <= k,
        !entries_eq(xm, ym, n),
    ensures
        !entries_eq(xm, ym, k),
    decreases k - n,
{
    if n < k {
        lemma_entries_eq_prefix(xm, ym, n, k - 1);
    }
}

/// Returns the index of the first entry of the mapping whose key equals `k`.
fn mapping_index(m: &Vec<(YamlValue, YamlValue)>, k: &YamlValue) -> (r: Option<usize>)
    ensures
        match r {
            Some(i) => key_index(entries_view(m@), k@, 0) == i,
            None => key_index(entries_view(m@), k@, 0) == -1,
        },
    decreases k, 1int,
{
    proof {
        lemma_entries_view(m@);
    }
    let mut i: usize = 0;
    while i < m.len()
        invariant
            i <= m.len(),
            entries_view(m@).len() == m.len(),
            forall|j: int| 0 <= j < m.len() ==> #[trigger] entries_view(m@)[j] == (m@[j].0@, m@[j].1@),
            key_index(entries_view(m@), k@, 0) == key_index(entries_view(m@), k@, i as int),
        decreases m.len() - i,
    {
        if value_eq(k, &m[i].0) {
            return Some(i);
        }
        i = i + 1;
    }
    None
}

/// Returns the value of the key `k` in the mapping.
pub fn mapping_get<'a>(m: &'a Vec<(YamlValue, YamlValue)>, k: &YamlValue) -> (r: Option<
    &'a YamlValue,
>)
    ensures
        match r {
            Some(v) => map_get(entries_view(m@), k@) == Some(v@),
            None => map_get(entries_view(m@), k@) is None,
        },
{
    proof {
        lemma_entries_view(m@);
        lemma_key_index(entries_view(m@), k@, 0);
    }
    match mapping_index(m, k) {
        Some(i) => Some(&m[i].1),
        None => None,
    }
}

/// Extends a value when possible or defaults to overwrite.
fn deep_extend_value(prev: &mut YamlValue, other: YamlValue)
    ensures
        final(prev)@ == extend_value(old(prev)@, other@),
    decreases other, 1int,
{
    if let YamlValue::Mapping(pm) = prev {
        if let YamlValue::Mapping(om) = other {
            deep_extend_mapping(pm, om);
            return ;
        }
    } else if let YamlValue::Sequence(ps) = prev {
        if let YamlValue::Sequence(os) = other {
            deep_extend_sequence(ps, os);
            return ;
        }
    }
    *prev = other;
}

/// Extends a mapping recursively.
fn deep_extend_mapping(prev: &mut Vec<(YamlValue, YamlValue)>, other: Vec<(YamlValue, YamlValue)>)
    ensures
        entries_view(final(prev)@) == extend_mapping(entries_view(old(prev)@), entries_view(other@)),
    decreases other, 0int,
{
    let ghost all = other;
    let ghost om = entries_view(other@);
    let mut rest = other;
    let ghost mut done: int = 0;
    while rest.len() > 0
        invariant
            0 <= done <= all@.len(),
            all == other,
            rest@ == all@.subrange(done, all@.len() as int),
            extend_mapping(entries_view(prev@), entries_view(rest@)) == extend_mapping(
                entries_view(old(prev)@),
                om,
            ),
        decreases rest.len(),
    {
        let ghost p0 = prev@;
        let ghost r0 = rest@;
        proof {
            lemma_entries_view(r0);
            lemma_entries_view(p0);
            lemma_entries_view(r0.drop_first());
            assert(entries_view(r0.drop_first()) =~= entries_view(r0).drop_first());
            assert(decreases_to!(all => all@));
            assert(decreases_to!(all@ => all@[done]));
            assert(decreases_to!(all@[done] => all@[done].1));
        }
        let ghost d0 = done;
        let (k, ov) = rest.remove(0);
        proof {
            assert(r0[0] == all@[d0]);
            assert(ov == all@[d0].1);
            assert(decreases_to!(all => ov));
            assert(rest@ =~= r0.drop_first());
            done = done + 1;
            assert(rest@ =~= all@.subrange(done, all@.len() as int));
        }
        let found = mapping_index(prev, &k);
        proof {
            lemma_key_index(entries_view(p0), k@, 0);
        }
        match found {
            Some(i) => {
                let mut entry = prev.remove(i);
                deep_extend_value(&mut entry.1, ov);
                prev.insert(i, entry);
                proof {
                    lemma_entries_view(prev@);
                    assert(entries_view(prev@) =~= extend_entry(
                        entries_view(p0),
                        entries_view(r0)[0],
                    ));
                }
            },
            None => {
                prev.push((k, ov));
                proof {
                    lemma_entries_view(prev@);
                    assert(entries_view(prev@) =~= extend_entry(
                        entries_view(p0),
                        entries_view(r0)[0],
                    ));
                }
            },
        }
    }
    proof {
        assert(entries_view(rest@) =~= Seq::empty());
    }
}

/// Extends a sequence by concatenation.
fn deep_extend_sequence(prev: &mut Vec<YamlValue>, other: Vec<YamlValue>)
    ensures
        values_view(final(prev)@) == values_view(old(prev)@) + values_view(other@),
{
    let mut other = other;
    let ghost p = prev@;
    let ghost o = other@;
    prev.append(&mut other);
    proof {
        lemma_values_view(prev@);
        lemma_values_view(p);
        lemma_values_view(o);
        assert(values_view(prev@) =~= values_view(p) + values_view(o));
    }
}


/// The text of a value that is a string under its tags.
pub open spec fn str_of(v: YamlV) -> Option<Seq<char>> {
    match untag(v) {
        YamlV::String(s) => Some(s),
        _ => None,
    }
}

/// The truth value of a value that is a boolean under its tags.
pub open spec fn bool_of(v: YamlV) -> Option<bool> {
    match untag(v) {
        YamlV::Bool(b) => Some(b),
        _ => None,
    }
}

/// The integer of a value that is a number under its tags and fits in an `i64`.
pub open spec fn int_of(v: YamlV) -> Option<int> {
    match untag(v) {
        YamlV::Number(YamlNumber::PosInt(n)) => if n <= i64::MAX {
            Some(n as int)
        } else {
            None
        },
        YamlV::Number(YamlNumber::NegInt(n)) => Some(n as int),
        _ => None,
    }
}

/// The size of a value that is a non-negative integer under its tags.
pub open spec fn size_of(v: YamlV) -> Option<u64> {
    match untag(v) {
        YamlV::Number(YamlNumber::PosInt(n)) => Some(n),
        _ => None,
    }
}

/// The items of a value that is a sequence under its tags.
pub open spec fn seq_of(v: YamlV) -> Option<Seq<YamlV>> {
    match untag(v) {
        YamlV::Sequence(s) => Some(s),
        _ => None,
    }
}

/// The entries of a value that is a mapping under its tags.
pub open spec fn mapping_of(v: YamlV) -> Option<Seq<(YamlV, YamlV)>> {
    match untag(v) {
        YamlV::Mapping(m) => Some(m),
        _ => None,
    }
}

/// The texts of the items that are strings, in order.
pub open spec fn strings_of(s: Seq<YamlV>) -> Seq<Seq<char>>
    decreases s.len(),
{
    if s.len() == 0 {
        Seq::empty()
    } else {
        let r = strings_of(s.drop_last());
        match str_of(s.last()) {
            Some(t) => r.push(t),
            None => r,
        }
    }
}

/// The index of the first pair of `p` from `i` on whose key is `k`, or -1.
pub open spec fn text_key_index(p: Seq<(Seq<char>, Seq<char>)>, k: Seq<char>, i: int) -> int
    decreases p.len() - i,
{
    if i < 0 || i >= p.len() {
        -1
    } else if p[i].0 == k {
        i
    } else {
        text_key_index(p, k, i + 1)
    }
}

/// Sets the value of the key `k`: in place where the key is known, at the end
/// otherwise.
pub open spec fn text_put(p: Seq<(Seq<char>, Seq<char>)>, k: Seq<char>, v: Seq<char>) -> Seq<
    (Seq<char>, Seq<char>),
> {
    let i = text_key_index(p, k, 0);
    if 0 <= i < p.len() {
        p.update(i, (k, v))
    } else {
        p.push((k, v))
    }
}

/// The pairs of texts of the entries whose key and value are both strings;
/// a later entry sets the value of a key seen before.
pub open spec fn string_props(m: Seq<(YamlV, YamlV)>) -> Seq<(Seq<char>, Seq<char>)>
    decreases m.len(),
{
    if m.len() == 0 {
        Seq::empty()
    } else {
        let r = string_props(m.drop_last());
        match (str_of(m.last().0), str_of(m.last().1)) {
            (Some(k), Some(v)) => text_put(r, k, v),
            _ => r,
        }
    }
}

/// No entry of the mapping has a key equal to the key of an earlier entry.
pub open spec fn keys_distinct(m: Seq<(YamlV, YamlV)>) -> bool {
    forall|i: int, j: int| 0 <= i < j < m.len() ==> !yaml_eq(#[trigger] m[j].0, #[trigger] m[i].0)
}

proof fn lemma_text_key_index(p: Seq<(Seq<char>, Seq<char>)>, k: Seq<char>, i: int)
    requires
        0 <= i <= p.len(),
    ensures
        text_key_index(p, k, i) == -1 || i <= text_key_index(p, k, i) < p.len(),
        text_key_index(p, k, i) != -1 ==> p[text_key_index(p, k, i)].0 == k,
        text_key_index(p, k, i) == -1 ==> forall|j: int|
            i <= j < p.len() ==> #[trigger] p[j].0 != k,
    decreases p.len() - i,
{
    if i < p.len() && p[i].0 != k {
        lemma_text_key_index(p, k, i + 1);
    }
}

/// Extending a mapping whose keys are distinct keeps its keys distinct.
pub proof fn lemma_extend_keeps_keys_distinct(pm: Seq<(YamlV, YamlV)>, om: Seq<(YamlV, YamlV)>)
    requires
        keys_distinct(pm),
    ensures
        keys_distinct(extend_mapping(pm, om)),
    decreases om.len(),
{
    if om.len() > 0 {
        let e = om[0];
        lemma_key_index(pm, e.0, 0);
        let next = extend_entry(pm, e);
        assert(keys_distinct(next)) by {
            let i = key_index(pm, e.0, 0);
            if 0 <= i < pm.len() {
                assert forall|a: int, b: int| 0 <= a < b < next.len() implies !yaml_eq(
                    #[trigger] next[b].0,
                    #[trigger] next[a].0,
                ) by {
                    assert(next[a].0 == pm[a].0);
                    assert(next[b].0 == pm[b].0);
                }
            } else {
                assert forall|a: int, b: int| 0 <= a < b < next.len() implies !yaml_eq(
                    #[trigger] next[b].0,
                    #[trigger] next[a].0,
                ) by {
                    if b == pm.len() {
                        assert(next[a].0 == pm[a].0);
                    } else {
                        assert(next[a].0 == pm[a].0);
                        assert(next[b].0 == pm[b].0);
                    }
                }
            }
        }
        lemma_extend_keeps_keys_distinct(next, om.drop_first());
    }
}

/// A set of annotations: an ordered mapping from keys to values.
#[derive(Debug, PartialEq, Eq)]
pub struct Annotation {
    pub props: Vec<(YamlValue, YamlValue)>,
}

impl Annotation {
    /// The entries of the set.
    pub open spec fn view(&self) -> Seq<(YamlV, YamlV)> {
        entries_view(self.props@)
    }

    /// The value of the property named `name`.
    pub open spec fn prop(&self, name: Seq<char>) -> Option<YamlV> {
        map_get(self@, YamlV::String(name))
    }

    /// Returns an empty set.
    pub fn new() -> (r: Annotation)
        ensures
            r@ == Seq::<(YamlV, YamlV)>::empty(),
    {
        Annotation { props: Vec::new() }
    }

    /// Extends the set by consuming annotations from the other set.
    pub fn extend(&mut self, other: Self)
        ensures
            final(self)@ == extend_mapping(old(self)@, other@),
    {
        deep_extend_mapping(&mut self.props, other.props);
    }

    /// Returns the value of the property named `s`.
    fn lookup(&self, s: &str) -> (r: Option<&YamlValue>)
        ensures
            match r {
                Some(v) => self.prop(s@) == Some(v@),
                None => self.prop(s@) is None,
            },
    {
        let key = YamlValue::String(s.to_owned());
        mapping_get(&self.props, &key)
    }

    pub fn get_str(&self, s: &str) -> (r: Option<&str>)
        ensures
            match r {
                Some(t) => self.prop(s@) is Some && str_of(self.prop(s@).unwrap()) == Some(t@),
                None => self.prop(s@) is None || str_of(self.prop(s@).unwrap()) is None,
            },
    {
        match self.lookup(s) {
            Some(v) => match v.untag_ref() {
                YamlValue::String(t) => Some(t.as_str()),
                _ => None,
            },
            None => None,
        }
    }

    pub fn get_string(&self, s: &str) -> (r: Option<String>)
        ensures
            match r {
                Some(t) => self.prop(s@) is Some && str_of(self.prop(s@).unwrap()) == Some(t@),
                None => self.prop(s@) is None || str_of(self.prop(s@).unwrap()) is None,
            },
    {
        match self.get_str(s) {
            Some(t) => Some(t.to_owned()),
            None => None,
        }
    }

    pub fn get_bool(&self, s: &str) -> (r: Option<bool>)
        ensures
            match r {
                Some(b) => self.prop(s@) is Some && bool_of(self.prop(s@).unwrap()) == Some(b),
                None => self.prop(s@) is None || bool_of(self.prop(s@).unwrap()) is None,
            },
    {
        match self.lookup(s) {
            Some(v) => match v.untag_ref() {
                YamlValue::Bool(b) => Some(*b),
                _ => None,
            },
            None => None,
        }
    }

    pub fn get_int(&self, s: &str) -> (r: Option<i64>)
        ensures
            match r {
                Some(n) => self.prop(s@) is Some && int_of(self.prop(s@).unwrap()) == Some(
                    n as int,
                ),
                None => self.prop(s@) is None || int_of(self.prop(s@).unwrap()) is None,
            },
    {
        match self.lookup(s) {
            Some(v) => match v.untag_ref() {
                YamlValue::Number(YamlNumber::PosInt(n)) => if *n <= 0x7fff_ffff_ffff_ffffu64 {
                    Some(*n as i64)
                } else {
                    None
                },
                YamlValue::Number(YamlNumber::NegInt(n)) => Some(*n),
                _ => None,
            },
            None => None,
        }
    }

    /// Returns the value of the property named `s` as a size: a number that
    /// is a non-negative integer.
    pub fn get_size(&self, s: &str) -> (r: Option<u64>)
        ensures
            match r {
                Some(n) => self.prop(s@) is Some && size_of(self.prop(s@).unwrap()) == Some(n),
                None => self.prop(s@) is None || size_of(self.prop(s@).unwrap()) is None,
            },
    {
        match self.lookup(s) {
            Some(v) => match v.untag_ref() {
                YamlValue::Number(YamlNumber::PosInt(n)) => Some(*n),
                _ => None,
            },
            None => None,
        }
    }

    pub fn get_enum(&self, s: &str) -> (r: Option<Vec<String>>)
        ensures
            match r {
                Some(t) => self.prop(s@) is Some && seq_of(self.prop(s@).unwrap()) is Some
                    && t@.map_values(|x: String| x@) == strings_of(
                    seq_of(self.prop(s@).unwrap()).unwrap(),
                ),
                None => self.prop(s@) is None || seq_of(self.prop(s@).unwrap()) is None,
            },
    {
        match self.lookup(s) {
            Some(v) => match v.untag_ref() {
                YamlValue::Sequence(items) => {
                    proof {
                        lemma_values_view(items@);
                    }
                    let mut r: Vec<String> = Vec::new();
                    let mut i: usize = 0;
                    while i < items.len()
                        invariant
                            i <= items.len(),
                            values_view(items@).len() == items.len(),
                            forall|j: int|
                                0 <= j < items.len() ==> #[trigger] values_view(items@)[j]
                                    == items@[j]@,
                            r@.map_values(|x: String| x@) == strings_of(
                                values_view(items@).take(i as int),
                            ),
                        decreases items.len() - i,
                    {
                        let ghost before = values_view(items@).take(i as int);
                        proof {
                            assert(values_view(items@).take(i + 1).drop_last() =~= before);
                        }
                        match items[i].untag_ref() {
                            YamlValue::String(t) => {
                                r.push(t.clone());
                                assert(r@.map_values(|x: String| x@) =~= strings_of(
                                    values_view(items@).take(i + 1),
                                ));
                            },
                            _ => {},
                        }
                        i = i + 1;
                    }
                    proof {
                        assert(values_view(items@).take(items.len() as int) =~= values_view(
                            items@,
                        ));
                    }
                    Some(r)
                },
                _ => None,
            },
            None => None,
        }
    }

    /// Returns the pairs of strings of the mapping named `s`, a later entry
    /// setting the value of a key seen before.
    pub fn get_props(&self, s: &str) -> (r: Option<Vec<(String, String)>>)
        ensures
            match r {
                Some(t) => self.prop(s@) is Some && mapping_of(self.prop(s@).unwrap()) is Some
                    && t@.map_values(|x: (String, String)| (x.0@, x.1@)) == string_props(
                    mapping_of(self.prop(s@).unwrap()).unwrap(),
                ),
                None => self.prop(s@) is None || mapping_of(self.prop(s@).unwrap()) is None,
            },
    {
        match self.lookup(s) {
            Some(v) => match v.untag_ref() {
                YamlValue::Mapping(m) => Some(text_pairs(m)),
                _ => None,
            },
            None => None,
        }
    }
}

/// Returns the index of the first pair whose key is `k`.
fn text_index(r: &Vec<(String, String)>, k: &String) -> (j: Option<usize>)
    ensures
        match j {
            Some(j) => text_key_index(r@.map_values(|x: (String, String)| (x.0@, x.1@)), k@, 0)
                == j,
            None => text_key_index(r@.map_values(|x: (String, String)| (x.0@, x.1@)), k@, 0)
                == -1,
        },
{
    let ghost p = r@.map_values(|x: (String, String)| (x.0@, x.1@));
    let mut j: usize = 0;
    while j < r.len()
        invariant
            j <= r.len(),
            p == r@.map_values(|x: (String, String)| (x.0@, x.1@)),
            text_key_index(p, k@, 0) == text_key_index(p, k@, j as int),
        decreases r.len() - j,
    {
        if r[j].0 == *k {
            return Some(j);
        }
        j = j + 1;
    }
    None
}

impl Default for Annotation {
    /// An empty set.
    fn default() -> (r: Self)
        ensures
            r@ == Seq::<(YamlV, YamlV)>::empty(),
    {
        Annotation::new()
    }
}

/// Collects the pairs of strings of a mapping.
fn text_pairs(m: &Vec<(YamlValue, YamlValue)>) -> (r: Vec<(String, String)>)
    ensures
        r@.map_values(|x: (String, String)| (x.0@, x.1@)) == string_props(entries_view(m@)),
{
    proof {
        lemma_entries_view(m@);
    }
    let ghost mv = entries_view(m@);
    let mut r: Vec<(String, String)> = Vec::new();
    let mut i: usize = 0;
    while i < m.len()
        invariant
            i <= m.len(),
            mv == entries_view(m@),
            mv.len() == m.len(),
            forall|j: int| 0 <= j < m.len() ==> #[trigger] mv[j] == (m@[j].0@, m@[j].1@),
            r@.map_values(|x: (String, String)| (x.0@, x.1@)) == string_props(mv.take(i as int)),
        decreases m.len() - i,
    {
        let ghost before = r@.map_values(|x: (String, String)| (x.0@, x.1@));
        proof {
            assert(mv.take(i + 1).drop_last() =~= mv.take(i as int));
        }
        let k = m[i].0.untag_ref();
        let v = m[i].1.untag_ref();
        if let YamlValue::String(ks) = k {
            if let YamlValue::String(vs) = v {
                proof {
                    lemma_text_key_index(before, ks@, 0);
                }
                match text_index(&r, ks) {
                    Some(j) => {
                        r.set(j, (ks.clone(), vs.clone()));
                    },
                    None => {
                        r.push((ks.clone(), vs.clone()));
                    },
                }
                assert(r@.map_values(|x: (String, String)| (x.0@, x.1@)) =~= string_props(
                    mv.take(i + 1),
                ));
            }
        }
        i = i + 1;
    }
    proof {
        assert(mv.take(m.len() as int) =~= mv);
    }
    r
}


/// The entries of the annotations extended one by one, in order, from the first.
pub open spec fn compose_spec(anns: Seq<Seq<(YamlV, YamlV)>>) -> Seq<(YamlV, YamlV)>
    decreases anns.len(),
{
    if anns.len() <= 1 {
        if anns.len() == 1 {
            anns[0]
        } else {
            Seq::empty()
        }
    } else {
        extend_mapping(compose_spec(anns.drop_last()), anns.last())
    }
}

/// Composes the annotations of a sequence, in order: the first is extended
/// by each of the others. `None` when there are none.
pub fn compose_annotations(anns: Vec<Annotation>) -> (r: Option<Annotation>)
    ensures
        r is None <==> anns@.len() == 0,
        r matches Some(a) ==> a@ == compose_spec(anns@.map_values(|x: Annotation| x@)),
{
    let ghost views = anns@.map_values(|x: Annotation| x@);
    let n = anns.len();
    if n == 0 {
        return None;
    }
    let mut rest = anns;
    let mut acc = rest.remove(0);
    let mut i: usize = 1;
    proof {
        assert(views.take(1) =~= seq![views[0]]);
    }
    while i < n
        invariant
            1 <= i <= n,
            n == views.len(),
            rest@.len() == n - i,
            forall|j: int| 0 <= j < rest@.len() ==> #[trigger] rest@[j]@ == views[i + j],
            acc@ == compose_spec(views.take(i as int)),
        decreases n - i,
    {
        let ghost before = rest@;
        let other = rest.remove(0);
        proof {
            assert(before[0]@ == views[i as int]);
            assert(views.take(i + 1).drop_last() =~= views.take(i as int));
            assert forall|j: int| 0 <= j < rest@.len() implies #[trigger] rest@[j]@ == views[i + 1 + j] by {
                assert(rest@[j] == before[j + 1]);
            }
        }
        acc.extend(other);
        i = i + 1;
    }
    proof {
        assert(views.take(n as int) =~= views);
    }
    Some(acc)
}


/// The value type of `serde_yaml`, opaque to Verus.
#[verifier::external_type_specification]
#[verifier::external_body]
pub struct ExYamlValue(Value);

/// The number type of `serde_yaml`, opaque to Verus.
#[verifier::external_type_specification]
#[verifier::external_body]
pub struct ExYamlNumber(Number);

/// The mapping type of `serde_yaml`, opaque to Verus.
#[verifier::external_type_specification]
#[verifier::external_body]
pub struct ExYamlMapping(Mapping);

/// The entries of the mapping that `serde_yaml::from_str` parses from the
/// text, as library values; `None` when the text is not a YAML mapping.
pub uninterp spec fn yaml_mapping(text: Seq<char>) -> Option<Seq<(YamlV, YamlV)>>;

/// Converts a `serde_yaml` value, variant by variant: a float keeps its bits
/// and a tag its text without the leading `!`. Nothing is claimed of it.
#[verifier::external_body]
fn yaml_value(v: Value) -> YamlValue {
    match v {
        Value::Null => YamlValue::Null,
        Value::Bool(b) => YamlValue::Bool(b),
        Value::Number(n) => YamlValue::Number(yaml_number(n)),
        Value::String(s) => YamlValue::String(s),
        Value::Sequence(s) => YamlValue::Sequence(s.into_iter().map(yaml_value).collect()),
        Value::Mapping(m) => YamlValue::Mapping(yaml_entries(m)),
        Value::Tagged(t) => YamlValue::Tagged(t.tag.to_string().split_off(1), Box::new(yaml_value(t.value))),
    }
}

/// Converts a `serde_yaml` number: an integer that fits a `u64`, else one
/// that fits an `i64`, else the bits of the float. Nothing is claimed of it.
#[verifier::external_body]
fn yaml_number(n: Number) -> YamlNumber {
    match (n.as_u64(), n.as_i64(), n.as_f64()) {
        (Some(u), _, _) => YamlNumber::PosInt(u),
        (None, Some(i), _) => YamlNumber::NegInt(i),
        (None, None, f) => YamlNumber::Float(f.map_or(0, |x| x.to_bits())),
    }
}

/// Converts the entries of a `serde_yaml` mapping, in order. Nothing is
/// claimed of it.
#[verifier::external_body]
fn yaml_entries(m: Mapping) -> Vec<(YamlValue, YamlValue)> {
    m.into_iter().map(|(k, v)| (yaml_value(k), yaml_value(v))).collect()
}

/// `serde_yaml::from_str` into a `Mapping`: the entries, named by
/// `yaml_mapping`, or the parser's message when the text is not a mapping.
#[verifier::external_body]
fn parse_yaml_mapping(text: &str) -> (r: Result<Vec<(YamlValue, YamlValue)>, String>)
    ensures
        (r is Ok) == (yaml_mapping(text@) is Some),
        r matches Ok(m) ==> yaml_mapping(text@) == Some(entries_view(m@)),
{
    match serde_yaml::from_str::<Mapping>(text) {
        Ok(m) => Ok(yaml_entries(m)),
        Err(e) => Err(e.to_string()),
    }
}

/// The text of an annotation read as the entries of a YAML mapping.
pub open spec fn annotation_text(text: Seq<char>) -> Seq<char> {
    "{ "@ + text + " }"@
}

impl Annotation {
    /// Parses an annotation: the text holds the entries of a YAML mapping,
    /// without its braces.
    pub fn parse(text: &str) -> (r: Result<Annotation, Error>)
        ensures
            (r is Ok) == (yaml_mapping(annotation_text(text@)) is Some),
            r matches Ok(a) ==> yaml_mapping(annotation_text(text@)) == Some(a@),
            r matches Err(e) ==> e.kind is Yaml,
    {
        let braced = String::from_str("{ ").concat(text).concat(" }");
        assert(braced@ == annotation_text(text@));
        match parse_yaml_mapping(braced.as_str()) {
            Ok(props) => Ok(Annotation { props }),
            Err(msg) => Err(Error::new(Kind::Yaml(msg), "")),
        }
    }
}

} // verus!
