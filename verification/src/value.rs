//! The values that node properties hold.
//!
//! A property value is a JSON-like value: null, a boolean, a number, a
//! string, an array of values or a mapping from names to values. `Value` is
//! the executable type and `Json` its mathematical model; `Props` is a
//! mapping from names to values that keeps its entries in the order of their
//! names.
//!
//! Two values are equal when they have the same shape and equal parts, with
//! one subtlety taken from IEEE 754: a floating-point zero equals the zero of
//! the other sign. So equality (`json_eq`) is a little coarser than identity
//! of models (`==` on `Json`).

use crate::key::{compare_keys, key_lt, lemma_key_lt_irreflexive, lemma_key_lt_transitive, KeyOrder};
use vstd::prelude::*;
use vstd::std_specs::cmp::PartialEqSpecImpl;

verus! {

/// A JSON number.
///
/// A floating-point number is held by the 64 bits of its IEEE 754 double
/// representation.
#[derive(Clone, Copy, Debug)]
pub enum Number {
    /// A non-negative integer.
    PosInt(u64),
    /// A negative integer.
    NegInt(i64),
    /// The bits of a finite double.
    Float(u64),
}

/// Everything but the sign bit of a double.
pub const MAGNITUDE_MASK: u64 = 0x7fff_ffff_ffff_ffff;

/// The exponent bits of a double; all of them are set in an infinity or a NaN.
pub const EXPONENT_MASK: u64 = 0x7ff0_0000_0000_0000;

/// Whether `bits` represent a finite double.
pub open spec fn bits_finite(bits: u64) -> bool {
    bits & EXPONENT_MASK != EXPONENT_MASK
}

/// Equality of two finite doubles given by their bits: the bits agree, or
/// both are zeros (of either sign).
pub open spec fn bits_eq(a: u64, b: u64) -> bool {
    a == b || (a & MAGNITUDE_MASK == 0 && b & MAGNITUDE_MASK == 0)
}

/// Equality of numbers. An integer never equals a float, and a non-negative
/// integer never equals a negative one.
pub open spec fn number_eq(a: Number, b: Number) -> bool {
    match (a, b) {
        (Number::PosInt(x), Number::PosInt(y)) => x == y,
        (Number::NegInt(x), Number::NegInt(y)) => x == y,
        (Number::Float(x), Number::Float(y)) => bits_eq(x, y),
        _ => false,
    }
}

impl Number {
    /// A number is well formed when a `NegInt` is negative and a `Float` is
    /// finite. The constructors below give well-formed numbers only.
    pub open spec fn wf(self) -> bool {
        match self {
            Number::PosInt(_) => true,
            Number::NegInt(i) => i < 0,
            Number::Float(bits) => bits_finite(bits),
        }
    }

    /// The number `v`.
    pub fn from_u64(v: u64) -> (r: Number)
        ensures
            r == Number::PosInt(v),
    {
        Number::PosInt(v)
    }

    /// The number `v`: a `NegInt` if it is negative, else a `PosInt`.
    pub fn from_i64(v: i64) -> (r: Number)
        ensures
            r.wf(),
            v < 0 ==> r == Number::NegInt(v),
            v >= 0 ==> r == Number::PosInt(v as u64),
    {
        if v < 0 {
            Number::NegInt(v)
        } else {
            Number::PosInt(v as u64)
        }
    }

    /// The double with the given bits, if it is finite.
    pub fn from_f64_bits(bits: u64) -> (r: Option<Number>)
        ensures
            r == if bits_finite(bits) {
                Some(Number::Float(bits))
            } else {
                None
            },
    {
        if bits & EXPONENT_MASK != EXPONENT_MASK {
            Some(Number::Float(bits))
        } else {
            None
        }
    }
}

impl PartialEq for Number {
    fn eq(&self, other: &Number) -> (r: bool) {
        match (self, other) {
            (Number::PosInt(x), Number::PosInt(y)) => *x == *y,
            (Number::NegInt(x), Number::NegInt(y)) => *x == *y,
            (Number::Float(x), Number::Float(y)) => {
                *x == *y || (*x & MAGNITUDE_MASK == 0 && *y & MAGNITUDE_MASK == 0)
            },
            _ => false,
        }
    }
}

impl PartialEqSpecImpl for Number {
    open spec fn obeys_eq_spec() -> bool {
        true
    }

    open spec fn eq_spec(&self, other: &Number) -> bool {
        number_eq(*self, *other)
    }
}

impl Eq for Number {

}

/// The mathematical model of a value.
pub enum Json {
    Null,
    Bool(bool),
    Number(Number),
    String(Seq<char>),
    Array(Seq<Json>),
    /// The entries of a mapping, in the order of their names.
    Object(Seq<(Seq<char>, Json)>),
}

/// A JSON-like value.
#[derive(Debug)]
pub enum Value {
    Null,
    Bool(bool),
    Number(Number),
    String(String),
    Array(Vec<Value>),
    Object(Props),
}

/// A mapping from names to values, kept in the order of the names.
#[derive(Debug)]
pub struct Props {
    entries: Vec<(String, Value)>,
}

/// The models of the values of `items`, in order.
pub open spec fn values_view(items: Seq<Value>) -> Seq<Json>
    decreases items,
{
    Seq::new(
        items.len(),
        |i: int|
            if 0 <= i < items.len() {
                items[i].view()
            } else {
                Json::Null
            },
    )
}

/// The models of a sequence of values with one more value.
pub proof fn lemma_values_view_push(items: Seq<Value>, item: Value)
    ensures
        values_view(items.push(item)) == values_view(items).push(item@),
{
    assert(values_view(items.push(item)) =~= values_view(items).push(item@));
}

/// The models of the entries of `entries`, in order.
pub open spec fn entries_view(entries: Seq<(String, Value)>) -> Seq<(Seq<char>, Json)>
    decreases entries,
{
    Seq::new(
        entries.len(),
        |i: int|
            if 0 <= i < entries.len() {
                (entries[i].0@, entries[i].1.view())
            } else {
                (Seq::empty(), Json::Null)
            },
    )
}

impl View for Value {
    type V = Json;

    open spec fn view(&self) -> Json
        decreases self,
    {
        match self {
            Value::Null => Json::Null,
            Value::Bool(b) => Json::Bool(*b),
            Value::Number(n) => Json::Number(*n),
            Value::String(s) => Json::String(s@),
            Value::Array(items) => Json::Array(values_view(items@)),
            Value::Object(props) => Json::Object(props.view()),
        }
    }
}

impl View for Props {
    type V = Seq<(Seq<char>, Json)>;

    closed spec fn view(&self) -> Seq<(Seq<char>, Json)>
        decreases self,
    {
        entries_view(self.entries@)
    }
}

/// Equality of values: same shape, equal parts. Arrays and mappings are
/// compared entry by entry, in order.
pub open spec fn json_eq(a: Json, b: Json) -> bool
    decreases a,
{
    match (a, b) {
        (Json::Null, Json::Null) => true,
        (Json::Bool(x), Json::Bool(y)) => x == y,
        (Json::Number(x), Json::Number(y)) => number_eq(x, y),
        (Json::String(x), Json::String(y)) => x == y,
        (Json::Array(x), Json::Array(y)) => {
            &&& x.len() == y.len()
            &&& forall|i: int| 0 <= i < x.len() ==> json_eq(#[trigger] x[i], y[i])
        },
        (Json::Object(x), Json::Object(y)) => entries_eq(x, y),
        _ => false,
    }
}

/// Equality of two sequences of entries: the same names in the same order,
/// with equal values.
pub open spec fn entries_eq(x: Seq<(Seq<char>, Json)>, y: Seq<(Seq<char>, Json)>) -> bool
    decreases x,
{
    &&& x.len() == y.len()
    &&& forall|i: int|
        0 <= i < x.len() ==> (#[trigger] x[i]).0 == y[i].0 && json_eq(x[i].1, y[i].1)
}

/// Every value equals itself.
pub proof fn lemma_json_eq_reflexive(a: Json)
    ensures
        json_eq(a, a),
    decreases a,
{
    match a {
        Json::Array(x) => {
            assert forall|i: int| 0 <= i < x.len() implies json_eq(#[trigger] x[i], x[i]) by {
                lemma_json_eq_reflexive(x[i]);
            }
        },
        Json::Object(x) => {
            assert forall|i: int| 0 <= i < x.len() implies (#[trigger] x[i]).0 == x[i].0
                && json_eq(x[i].1, x[i].1) by {
                lemma_json_eq_reflexive(x[i].1);
            }
            assert(entries_eq(x, x));
        },
        Json::Number(n) => {
            assert(number_eq(n, n));
        },
        _ => {},
    }
}

/// Equality of values is symmetric.
pub proof fn lemma_json_eq_symmetric(a: Json, b: Json)
    requires
        json_eq(a, b),
    ensures
        json_eq(b, a),
    decreases a,
{
    match (a, b) {
        (Json::Array(x), Json::Array(y)) => {
            assert forall|i: int| 0 <= i < y.len() implies json_eq(#[trigger] y[i], x[i]) by {
                lemma_json_eq_symmetric(x[i], y[i]);
            }
        },
        (Json::Object(x), Json::Object(y)) => {
            assert(entries_eq(x, y));
            assert forall|i: int| 0 <= i < y.len() implies (#[trigger] y[i]).0 == x[i].0
                && json_eq(y[i].1, x[i].1) by {
                lemma_json_eq_symmetric(x[i].1, y[i].1);
            }
            assert(entries_eq(y, x));
        },
        _ => {},
    }
}

/// Equality of values is transitive.
pub proof fn lemma_json_eq_transitive(a: Json, b: Json, c: Json)
    requires
        json_eq(a, b),
        json_eq(b, c),
    ensures
        json_eq(a, c),
    decreases a,
{
    match (a, b, c) {
        (Json::Array(x), Json::Array(y), Json::Array(z)) => {
            assert forall|i: int| 0 <= i < x.len() implies json_eq(#[trigger] x[i], z[i]) by {
                lemma_json_eq_transitive(x[i], y[i], z[i]);
            }
        },
        (Json::Object(x), Json::Object(y), Json::Object(z)) => {
            assert(entries_eq(x, y) && entries_eq(y, z));
            assert forall|i: int| 0 <= i < x.len() implies (#[trigger] x[i]).0 == z[i].0
                && json_eq(x[i].1, z[i].1) by {
                lemma_json_eq_transitive(x[i].1, y[i].1, z[i].1);
            }
            assert(entries_eq(x, z));
        },
        _ => {},
    }
}

/// Whether the names of `s` are in strictly increasing order.
pub open spec fn keys_sorted(s: Seq<(Seq<char>, Json)>) -> bool {
    forall|i: int, j: int| 0 <= i < j < s.len() ==> key_lt(#[trigger] s[i].0, #[trigger] s[j].0)
}

/// Whether `s` has an entry named `k`.
pub open spec fn has_key(s: Seq<(Seq<char>, Json)>, k: Seq<char>) -> bool {
    exists|i: int| 0 <= i < s.len() && (#[trigger] s[i]).0 == k
}

/// The mapping that the entries `s` stand for. Where a name occurs once, as
/// in any sorted sequence, it maps to the value of that entry.
pub open spec fn entries_map(s: Seq<(Seq<char>, Json)>) -> Map<Seq<char>, Json> {
    Map::new(
        |k: Seq<char>| has_key(s, k),
        |k: Seq<char>| s[choose|i: int| 0 <= i < s.len() && (#[trigger] s[i]).0 == k].1,
    )
}

/// Whether no name occurs twice in `s`.
pub open spec fn distinct_names(s: Seq<(Seq<char>, Json)>) -> bool {
    forall|i: int, j: int|
        0 <= i < s.len() && 0 <= j < s.len() && (#[trigger] s[i]).0 == (#[trigger] s[j]).0 ==> i
            == j
}

/// In a sorted sequence no name occurs twice.
pub proof fn lemma_sorted_keys_distinct(s: Seq<(Seq<char>, Json)>)
    requires
        keys_sorted(s),
    ensures
        distinct_names(s),
{
    assert forall|i: int, j: int|
        0 <= i < s.len() && 0 <= j < s.len() && (#[trigger] s[i]).0 == (#[trigger] s[j]).0
        implies i == j by {
        lemma_key_lt_irreflexive(s[i].0);
        if i < j {
            assert(key_lt(s[i].0, s[j].0));
        } else if j < i {
            assert(key_lt(s[j].0, s[i].0));
        }
    }
}

/// In a sorted sequence the entry at `i` is what its name maps to.
pub proof fn lemma_entry_in_map(s: Seq<(Seq<char>, Json)>, i: int)
    requires
        keys_sorted(s),
        0 <= i < s.len(),
    ensures
        entries_map(s).contains_key(s[i].0),
        entries_map(s)[s[i].0] == s[i].1,
{
    lemma_sorted_keys_distinct(s);
    let k = s[i].0;
    let j = choose|j: int| 0 <= j < s.len() && (#[trigger] s[j]).0 == k;
    assert(j == i);
}

/// The entries after the first of a sorted sequence stand for the mapping
/// without the first name.
proof fn lemma_rest_map(s: Seq<(Seq<char>, Json)>)
    requires
        keys_sorted(s),
        s.len() > 0,
    ensures
        keys_sorted(s.drop_first()),
        entries_map(s.drop_first()) == entries_map(s).remove(s[0].0),
{
    let rest = s.drop_first();
    let m = entries_map(s).remove(s[0].0);
    assert forall|i: int, j: int| 0 <= i < j < rest.len() implies key_lt(
        #[trigger] rest[i].0,
        #[trigger] rest[j].0,
    ) by {
        assert(rest[i] == s[i + 1] && rest[j] == s[j + 1]);
    }
    lemma_sorted_keys_distinct(s);
    assert forall|k: Seq<char>| entries_map(rest).contains_key(k) <==> m.contains_key(k) by {
        if has_key(rest, k) {
            let i = choose|i: int| 0 <= i < rest.len() && (#[trigger] rest[i]).0 == k;
            assert(s[i + 1].0 == k);
        }
        if has_key(s, k) && k != s[0].0 {
            let i = choose|i: int| 0 <= i < s.len() && (#[trigger] s[i]).0 == k;
            assert(rest[i - 1].0 == k);
        }
    }
    assert forall|k: Seq<char>| entries_map(rest).contains_key(k) implies entries_map(rest)[k]
        == m[k] by {
        let i = choose|i: int| 0 <= i < rest.len() && (#[trigger] rest[i]).0 == k;
        lemma_entry_in_map(rest, i);
        assert(s[i + 1] == rest[i]);
        lemma_entry_in_map(s, i + 1);
    }
    assert(entries_map(rest) =~= m);
}

/// The first entry of a sorted sequence has the least name.
proof fn lemma_first_is_least(s: Seq<(Seq<char>, Json)>, k: Seq<char>)
    requires
        keys_sorted(s),
        has_key(s, k),
    ensures
        s[0].0 == k || key_lt(s[0].0, k),
{
    let i = choose|i: int| 0 <= i < s.len() && (#[trigger] s[i]).0 == k;
    if i > 0 {
        assert(key_lt(s[0].0, s[i].0));
    }
}

/// A mapping has one sorted sequence of entries only: two sorted sequences
/// that stand for the same mapping are the same.
pub proof fn lemma_sorted_entries_unique(a: Seq<(Seq<char>, Json)>, b: Seq<(Seq<char>, Json)>)
    requires
        keys_sorted(a),
        keys_sorted(b),
        entries_map(a) == entries_map(b),
    ensures
        a == b,
    decreases a.len(),
{
    if a.len() == 0 {
        if b.len() > 0 {
            assert(has_key(b, b[0].0));
            assert(entries_map(a).contains_key(b[0].0));
        }
        assert(a =~= b);
    } else {
        assert(has_key(a, a[0].0));
        assert(entries_map(b).contains_key(a[0].0));
        assert(b.len() > 0);
        assert(has_key(b, b[0].0));
        assert(entries_map(a).contains_key(b[0].0));
        lemma_first_is_least(a, b[0].0);
        lemma_first_is_least(b, a[0].0);
        if a[0].0 != b[0].0 {
            lemma_key_lt_transitive(a[0].0, b[0].0, a[0].0);
            lemma_key_lt_irreflexive(a[0].0);
        }
        lemma_entry_in_map(a, 0);
        lemma_entry_in_map(b, 0);
        lemma_rest_map(a);
        lemma_rest_map(b);
        lemma_sorted_entries_unique(a.drop_first(), b.drop_first());
        assert(a =~= seq![a[0]] + a.drop_first());
        assert(b =~= seq![b[0]] + b.drop_first());
    }
}

/// Whether two values are equal, in the sense of `json_eq`.
fn value_eq(a: &Value, b: &Value) -> (r: bool)
    ensures
        r == json_eq(a@, b@),
    decreases a,
{
    match (a, b) {
        (Value::Null, Value::Null) => true,
        (Value::Bool(x), Value::Bool(y)) => *x == *y,
        (Value::Number(x), Value::Number(y)) => *x == *y,
        (Value::String(x), Value::String(y)) => *x == *y,
        (Value::Array(x), Value::Array(y)) => values_equal(x, y),
        (Value::Object(x), Value::Object(y)) => entries_equal(&x.entries, &y.entries),
        _ => false,
    }
}

/// Whether two sequences of values are equal, one by one.
fn values_equal(x: &Vec<Value>, y: &Vec<Value>) -> (r: bool)
    ensures
        r == json_eq(Json::Array(values_view(x@)), Json::Array(values_view(y@))),
    decreases x,
{
    if x.len() != y.len() {
        return false;
    }
    let mut i: usize = 0;
    while i < x.len()
        invariant
            i <= x.len(),
            x.len() == y.len(),
            forall|j: int| 0 <= j < i ==> json_eq(#[trigger] x@[j]@, y@[j]@),
        decreases x.len() - i,
    {
        if !value_eq(&x[i], &y[i]) {
            assert(!json_eq(values_view(x@)[i as int], values_view(y@)[i as int]));
            return false;
        }
        i += 1;
    }
    assert forall|j: int| 0 <= j < x.len() implies json_eq(
        #[trigger] values_view(x@)[j],
        values_view(y@)[j],
    ) by {
        assert(json_eq(x@[j]@, y@[j]@));
    }
    true
}

/// Whether two sequences of entries are equal, in the sense of `entries_eq`.
fn entries_equal(x: &Vec<(String, Value)>, y: &Vec<(String, Value)>) -> (r: bool)
    ensures
        r == entries_eq(entries_view(x@), entries_view(y@)),
    decreases x,
{
    if x.len() != y.len() {
        return false;
    }
    let mut i: usize = 0;
    while i < x.len()
        invariant
            i <= x.len(),
            x.len() == y.len(),
            forall|j: int|
                0 <= j < i ==> (#[trigger] x@[j]).0@ == y@[j].0@ && json_eq(x@[j].1@, y@[j].1@),
        decreases x.len() - i,
    {
        if x[i].0 != y[i].0 || !value_eq(&x[i].1, &y[i].1) {
            assert(entries_view(x@)[i as int].0 != entries_view(y@)[i as int].0 || !json_eq(
                entries_view(x@)[i as int].1,
                entries_view(y@)[i as int].1,
            ));
            return false;
        }
        i += 1;
    }
    assert forall|j: int| 0 <= j < x.len() implies (#[trigger] entries_view(x@)[j]).0
        == entries_view(y@)[j].0 && json_eq(entries_view(x@)[j].1, entries_view(y@)[j].1) by {
        assert(x@[j].0@ == y@[j].0@);
    }
    true
}

impl PartialEq for Value {
    fn eq(&self, other: &Value) -> (r: bool) {
        value_eq(self, other)
    }
}

impl PartialEqSpecImpl for Value {
    open spec fn obeys_eq_spec() -> bool {
        true
    }

    open spec fn eq_spec(&self, other: &Value) -> bool {
        json_eq(self@, other@)
    }
}

impl Eq for Value {

}

impl PartialEq for Props {
    fn eq(&self, other: &Props) -> (r: bool) {
        entries_equal(&self.entries, &other.entries)
    }
}

impl PartialEqSpecImpl for Props {
    open spec fn obeys_eq_spec() -> bool {
        true
    }

    open spec fn eq_spec(&self, other: &Props) -> bool {
        entries_eq(self@, other@)
    }
}

impl Eq for Props {

}

impl Default for Props {
    /// The empty mapping.
    fn default() -> (r: Props)
        ensures
            r@ == Seq::<(Seq<char>, Json)>::empty(),
            r.map() == Map::<Seq<char>, Json>::empty(),
    {
        Props::new()
    }
}

/// A copy of `v`.
fn value_clone(v: &Value) -> (r: Value)
    ensures
        r@ == v@,
    decreases v,
{
    match v {
        Value::Null => Value::Null,
        Value::Bool(b) => Value::Bool(*b),
        Value::Number(n) => Value::Number(*n),
        Value::String(s) => Value::String(s.clone()),
        Value::Array(items) => Value::Array(values_clone(items)),
        Value::Object(props) => {
            proof {
                use_type_invariant(props);
            }
            Value::Object(Props { entries: entries_clone(&props.entries) })
        },
    }
}

/// A copy of `items`.
fn values_clone(items: &Vec<Value>) -> (r: Vec<Value>)
    ensures
        values_view(r@) == values_view(items@),
    decreases items,
{
    let mut copy: Vec<Value> = Vec::new();
    let mut i: usize = 0;
    while i < items.len()
        invariant
            i <= items.len(),
            copy.len() == i,
            forall|j: int| 0 <= j < i ==> (#[trigger] copy@[j])@ == items@[j]@,
        decreases items.len() - i,
    {
        copy.push(value_clone(&items[i]));
        i += 1;
    }
    copy
}

/// A copy of `entries`.
fn entries_clone(entries: &Vec<(String, Value)>) -> (r: Vec<(String, Value)>)
    ensures
        entries_view(r@) == entries_view(entries@),
    decreases entries,
{
    let mut copy: Vec<(String, Value)> = Vec::new();
    let mut i: usize = 0;
    while i < entries.len()
        invariant
            i <= entries.len(),
            copy.len() == i,
            forall|j: int|
                0 <= j < i ==> (#[trigger] copy@[j]).0@ == entries@[j].0@ && copy@[j].1@
                    == entries@[j].1@,
        decreases entries.len() - i,
    {
        copy.push((entries[i].0.clone(), value_clone(&entries[i].1)));
        i += 1;
    }
    copy
}

impl Clone for Value {
    fn clone(&self) -> (r: Value)
        ensures
            r@ == self@,
    {
        value_clone(self)
    }
}

impl Clone for Props {
    fn clone(&self) -> (r: Props)
        ensures
            r@ == self@,
    {
        proof {
            use_type_invariant(self);
        }
        Props { entries: entries_clone(&self.entries) }
    }
}

/// A sequence has no entry named `k` when the entries before `p` have
/// smaller names and the entries from `p` on have greater ones.
proof fn lemma_absent(s: Seq<(Seq<char>, Json)>, p: int, k: Seq<char>)
    requires
        0 <= p <= s.len(),
        forall|j: int| 0 <= j < p ==> key_lt((#[trigger] s[j]).0, k),
        forall|j: int| p <= j < s.len() ==> key_lt(k, (#[trigger] s[j]).0),
    ensures
        !has_key(s, k),
{
    lemma_key_lt_irreflexive(k);
    if has_key(s, k) {
        let i = choose|i: int| 0 <= i < s.len() && (#[trigger] s[i]).0 == k;
        assert(i < p || p <= i);
    }
}

/// Replacing the value of the entry at `p` of a sorted sequence changes the
/// mapping at that entry's name only.
proof fn lemma_update_entry(s: Seq<(Seq<char>, Json)>, p: int, v: Json)
    requires
        keys_sorted(s),
        0 <= p < s.len(),
    ensures
        keys_sorted(s.update(p, (s[p].0, v))),
        entries_map(s.update(p, (s[p].0, v))) == entries_map(s).insert(s[p].0, v),
{
    let k = s[p].0;
    let t = s.update(p, (k, v));
    assert forall|i: int, j: int| 0 <= i < j < t.len() implies key_lt(
        #[trigger] t[i].0,
        #[trigger] t[j].0,
    ) by {
        assert(t[i].0 == s[i].0 && t[j].0 == s[j].0);
    }
    let m = entries_map(s).insert(k, v);
    assert forall|x: Seq<char>| entries_map(t).contains_key(x) <==> m.contains_key(x) by {
        if has_key(t, x) {
            let i = choose|i: int| 0 <= i < t.len() && (#[trigger] t[i]).0 == x;
            assert(s[i].0 == x);
        }
        if has_key(s, x) {
            let i = choose|i: int| 0 <= i < s.len() && (#[trigger] s[i]).0 == x;
            assert(t[i].0 == x);
        }
        if x == k {
            assert(t[p].0 == x);
        }
    }
    assert forall|x: Seq<char>| entries_map(t).contains_key(x) implies entries_map(t)[x]
        == m[x] by {
        let i = choose|i: int| 0 <= i < t.len() && (#[trigger] t[i]).0 == x;
        lemma_entry_in_map(t, i);
        if i != p {
            assert(s[i].0 == x);
            lemma_entry_in_map(s, i);
            lemma_sorted_keys_distinct(s);
        }
    }
    assert(entries_map(t) =~= m);
}

/// Putting a new entry at `p` of a sorted sequence, between the smaller
/// names and the greater ones, adds that entry to the mapping.
proof fn lemma_insert_entry(s: Seq<(Seq<char>, Json)>, p: int, k: Seq<char>, v: Json)
    requires
        keys_sorted(s),
        0 <= p <= s.len(),
        forall|j: int| 0 <= j < p ==> key_lt((#[trigger] s[j]).0, k),
        forall|j: int| p <= j < s.len() ==> key_lt(k, (#[trigger] s[j]).0),
    ensures
        keys_sorted(s.insert(p, (k, v))),
        !has_key(s, k),
        entries_map(s.insert(p, (k, v))) == entries_map(s).insert(k, v),
{
    let t = s.insert(p, (k, v));
    assert forall|i: int, j: int| 0 <= i < j < t.len() implies key_lt(
        #[trigger] t[i].0,
        #[trigger] t[j].0,
    ) by {
        if j < p {
            assert(t[i] == s[i] && t[j] == s[j]);
        } else if j == p {
            assert(t[i] == s[i]);
        } else if i < p {
            assert(t[i] == s[i] && t[j] == s[j - 1]);
        } else if i == p {
            assert(t[j] == s[j - 1]);
        } else {
            assert(t[i] == s[i - 1] && t[j] == s[j - 1]);
        }
    }
    lemma_absent(s, p, k);
    let m = entries_map(s).insert(k, v);
    assert forall|x: Seq<char>| entries_map(t).contains_key(x) <==> m.contains_key(x) by {
        if has_key(t, x) {
            let i = choose|i: int| 0 <= i < t.len() && (#[trigger] t[i]).0 == x;
            if i < p {
                assert(s[i].0 == x);
            } else if i > p {
                assert(s[i - 1].0 == x);
            }
        }
        if has_key(s, x) {
            let i = choose|i: int| 0 <= i < s.len() && (#[trigger] s[i]).0 == x;
            if i < p {
                assert(t[i].0 == x);
            } else {
                assert(t[i + 1].0 == x);
            }
        }
        if x == k {
            assert(t[p].0 == x);
        }
    }
    assert forall|x: Seq<char>| entries_map(t).contains_key(x) implies entries_map(t)[x]
        == m[x] by {
        let i = choose|i: int| 0 <= i < t.len() && (#[trigger] t[i]).0 == x;
        lemma_entry_in_map(t, i);
        if i < p {
            assert(s[i] == t[i]);
            lemma_entry_in_map(s, i);
        } else if i > p {
            assert(s[i - 1] == t[i]);
            lemma_entry_in_map(s, i - 1);
        }
    }
    assert(entries_map(t) =~= m);
}

impl Props {
    /// The entries are always in the strict order of their names.
    #[verifier::type_invariant]
    pub open spec fn ordered(self) -> bool {
        keys_sorted(self@)
    }

    /// The mapping from names to values that the entries stand for.
    pub open spec fn map(&self) -> Map<Seq<char>, Json> {
        entries_map(self@)
    }

    /// The empty mapping.
    pub fn new() -> (r: Props)
        ensures
            r@ == Seq::<(Seq<char>, Json)>::empty(),
            r.map() == Map::<Seq<char>, Json>::empty(),
    {
        let r = Props { entries: Vec::new() };
        r
    }

    /// The number of entries.
    pub fn len(&self) -> (n: usize)
        ensures
            n == self@.len(),
    {
        self.entries.len()
    }

    /// The name of the entry at `i`, counted in the order of the names.
    pub fn key(&self, i: usize) -> (k: &String)
        requires
            i < self@.len(),
        ensures
            k@ == self@[i as int].0,
    {
        &self.entries[i].0
    }

    /// The value of the entry at `i`, counted in the order of the names.
    pub fn value(&self, i: usize) -> (v: &Value)
        requires
            i < self@.len(),
        ensures
            v@ == self@[i as int].1,
    {
        &self.entries[i].1
    }

    /// The value that `key` maps to, if any.
    pub fn get(&self, key: &str) -> (r: Option<&Value>)
        ensures
            match r {
                Some(v) => self.map().contains_key(key@) && self.map()[key@] == v@,
                None => !self.map().contains_key(key@),
            },
    {
        proof {
            use_type_invariant(self);
        }
        let (i, found) = locate(&self.entries, key);
        assert(self@ == entries_view(self.entries@));
        if found {
            proof {
                lemma_entry_in_map(self@, i as int);
            }
            Some(&self.entries[i].1)
        } else {
            proof {
                lemma_absent(self@, i as int, key@);
            }
            None
        }
    }

    /// Maps `key` to `value`, and returns the value that `key` mapped to
    /// before, if any. The other entries stay as they are, and all are in
    /// the order of their names again.
    pub fn insert(&mut self, key: String, value: Value) -> (r: Option<Value>)
        ensures
            keys_sorted(final(self)@),
            final(self).map() == old(self).map().insert(key@, value@),
            match r {
                Some(v) => old(self).map().contains_key(key@) && old(self).map()[key@] == v@,
                None => !old(self).map().contains_key(key@),
            },
    {
        proof {
            use_type_invariant(&*self);
        }
        let ghost before = self@;
        let mut entries: Vec<(String, Value)> = Vec::new();
        core::mem::swap(&mut self.entries, &mut entries);
        assert(entries_view(entries@) == before);
        let (i, found) = locate(&entries, key.as_str());
        if found {
            proof {
                lemma_entry_in_map(before, i as int);
                lemma_update_entry(before, i as int, value@);
            }
            let mut entry = (key, value);
            core::mem::swap(&mut entries[i], &mut entry);
            assert(entries_view(entries@) =~= before.update(i as int, (key@, value@)));
            self.entries = entries;
            Some(entry.1)
        } else {
            proof {
                lemma_insert_entry(before, i as int, key@, value@);
            }
            entries.insert(i, (key, value));
            assert(entries_view(entries@) =~= before.insert(i as int, (key@, value@)));
            self.entries = entries;
            None
        }
    }
}

/// The place of `key` among sorted entries: the number of entries with a
/// smaller name. The second part of the result tells whether the entry at
/// that place is named `key`; if not, every entry from there on has a
/// greater name.
fn locate(entries: &Vec<(String, Value)>, key: &str) -> (r: (usize, bool))
    requires
        keys_sorted(entries_view(entries@)),
    ensures
        r.0 <= entries.len(),
        forall|j: int| 0 <= j < r.0 ==> key_lt((#[trigger] entries_view(entries@)[j]).0, key@),
        r.1 ==> r.0 < entries.len() && entries_view(entries@)[r.0 as int].0 == key@,
        !r.1 ==> forall|j: int|
            r.0 <= j < entries.len() ==> key_lt(key@, (#[trigger] entries_view(entries@)[j]).0),
{
    let ghost names = entries_view(entries@);
    let mut i: usize = 0;
    while i < entries.len()
        invariant
            i <= entries.len(),
            names == entries_view(entries@),
            keys_sorted(names),
            forall|j: int| 0 <= j < i ==> key_lt((#[trigger] names[j]).0, key@),
        decreases entries.len() - i,
    {
        match compare_keys(entries[i].0.as_str(), key) {
            KeyOrder::Less => {
                i += 1;
            },
            KeyOrder::Equal => {
                return (i, true);
            },
            KeyOrder::Greater => {
                proof {
                    lemma_later_keys_greater(names, i as int, key@);
                }
                return (i, false);
            },
        }
    }
    (i, false)
}

/// In a sorted sequence, a name that is smaller than the name at `p` is
/// smaller than every name from `p` on.
proof fn lemma_later_keys_greater(s: Seq<(Seq<char>, Json)>, p: int, k: Seq<char>)
    requires
        keys_sorted(s),
        0 <= p < s.len(),
        key_lt(k, s[p].0),
    ensures
        forall|j: int| p <= j < s.len() ==> key_lt(k, (#[trigger] s[j]).0),
{
    assert forall|j: int| p <= j < s.len() implies key_lt(k, (#[trigger] s[j]).0) by {
        if p < j {
            lemma_key_lt_transitive(k, s[p].0, s[j].0);
        }
    }
}

} // verus!
