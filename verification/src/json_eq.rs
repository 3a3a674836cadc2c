use vstd::prelude::*;
use crate::json::{
    entries_of, jsons_of, lemma_entries_of, lemma_jsons_of, lookup, str_eq, Json, JsonMap,
    JsonNumber, JsonValue,
};

verus! {

/// Whether two floats, given by their IEEE-754 bits, compare equal as
/// `f64` values: both zeros (of either sign), or the same bits that are not
/// a NaN.
pub open spec fn float_bits_eq(a: u64, b: u64) -> bool {
    ||| ((a & 0x7fff_ffff_ffff_ffffu64) == 0 && (b & 0x7fff_ffff_ffff_ffffu64) == 0)
    ||| (a == b && !((a & 0x7ff0_0000_0000_0000u64) == 0x7ff0_0000_0000_0000u64 && (a
        & 0x000f_ffff_ffff_ffffu64) != 0))
}

/// The value of an integer number.
pub open spec fn integer_value(n: JsonNumber) -> int {
    match n {
        JsonNumber::PosInt(u) => u as int,
        JsonNumber::NegInt(i) => i as int,
        JsonNumber::Float(_) => 0,
    }
}

/// Whether two numbers are equal: integers by their value, floats as `f64`
/// values, and never an integer and a float.
pub open spec fn number_eq(x: JsonNumber, y: JsonNumber) -> bool {
    match (x, y) {
        (JsonNumber::Float(a), JsonNumber::Float(b)) => float_bits_eq(a, b),
        (JsonNumber::Float(_), _) => false,
        (_, JsonNumber::Float(_)) => false,
        _ => integer_value(x) == integer_value(y),
    }
}

/// Whether two documents are equal: arrays element by element in order,
/// objects with the same number of entries where each key of the first
/// holds an equal value in the second, whatever the order of keys.
pub open spec fn json_eq(a: Json, b: Json) -> bool
    decreases a, 1int,
{
    match (a, b) {
        (Json::Null, Json::Null) => true,
        (Json::Bool(x), Json::Bool(y)) => x == y,
        (Json::Number(x), Json::Number(y)) => number_eq(x, y),
        (Json::Str(x), Json::Str(y)) => x == y,
        (Json::Array(xs), Json::Array(ys)) => all_eq(xs, ys),
        (Json::Object(es), Json::Object(fs)) => es.len() == fs.len() && entries_in(es, fs),
        _ => false,
    }
}

/// Whether two sequences of documents have the same length and equal
/// elements at each position.
pub open spec fn all_eq(xs: Seq<Json>, ys: Seq<Json>) -> bool
    decreases xs, 0int,
{
    if xs.len() == 0 {
        ys.len() == 0
    } else {
        &&& ys.len() > 0
        &&& all_eq(xs.drop_last(), ys.drop_last())
        &&& json_eq(xs.last(), ys.last())
    }
}

/// Whether each key of `es` holds, in `fs`, a value equal to its own.
pub open spec fn entries_in(es: Seq<(Seq<char>, Json)>, fs: Seq<(Seq<char>, Json)>) -> bool
    decreases es, 0int,
{
    if es.len() == 0 {
        true
    } else {
        &&& entries_in(es.drop_last(), fs)
        &&& match lookup(fs, es.last().0) {
            Some(v) => json_eq(es.last().1, v),
            None => false,
        }
    }
}

/// Equal sequences have equal prefixes.
proof fn lemma_all_eq_prefix(xs: Seq<Json>, ys: Seq<Json>, k: int)
    requires
        all_eq(xs, ys),
        0 <= k <= xs.len(),
    ensures
        xs.len() == ys.len(),
        all_eq(xs.take(k), ys.take(k)),
    decreases xs.len(),
{
    if xs.len() > 0 {
        lemma_all_eq_prefix(xs.drop_last(), ys.drop_last(), if k < xs.len() { k } else { 0 });
        if k == xs.len() {
            assert(xs.take(k) =~= xs);
            assert(ys.take(k) =~= ys);
        } else {
            assert(xs.drop_last().take(k) =~= xs.take(k));
            assert(ys.drop_last().take(k) =~= ys.take(k));
        }
    } else {
        assert(xs.take(k) =~= xs);
        assert(ys.take(k) =~= ys);
    }
}

/// Entries found in `fs` stay found when only a prefix of them is asked.
proof fn lemma_entries_in_prefix(es: Seq<(Seq<char>, Json)>, fs: Seq<(Seq<char>, Json)>, k: int)
    requires
        entries_in(es, fs),
        0 <= k <= es.len(),
    ensures
        entries_in(es.take(k), fs),
    decreases es.len(),
{
    if k == es.len() {
        assert(es.take(k) =~= es);
    } else {
        lemma_entries_in_prefix(es.drop_last(), fs, k);
        assert(es.drop_last().take(k) =~= es.take(k));
    }
}

/// Two sequences are element-wise equal exactly when they have the same
/// length and the elements at each index are equal.
proof fn lemma_all_eq_meaning(xs: Seq<Json>, ys: Seq<Json>)
    ensures
        all_eq(xs, ys) == (xs.len() == ys.len() && forall|i: int|
            0 <= i < xs.len() ==> json_eq(#[trigger] xs[i], ys[i])),
    decreases xs.len(),
{
    if xs.len() > 0 && ys.len() > 0 {
        let px = xs.drop_last();
        let py = ys.drop_last();
        lemma_all_eq_meaning(px, py);
        if xs.len() == ys.len() && forall|i: int|
            0 <= i < xs.len() ==> json_eq(#[trigger] xs[i], ys[i]) {
            assert forall|i: int| 0 <= i < px.len() implies json_eq(#[trigger] px[i], py[i]) by {
                assert(json_eq(xs[i], ys[i]));
            }
            assert(json_eq(xs[xs.len() - 1], ys[ys.len() - 1]));
        }
        if all_eq(xs, ys) {
            assert forall|i: int| 0 <= i < xs.len() implies json_eq(#[trigger] xs[i], ys[i]) by {
                if i < px.len() {
                    assert(json_eq(px[i], py[i]));
                }
            }
        }
    }
}

/// Each entry of `es` is found in `fs` with an equal value exactly when
/// this holds at every index of `es`.
proof fn lemma_entries_in_meaning(es: Seq<(Seq<char>, Json)>, fs: Seq<(Seq<char>, Json)>)
    ensures
        entries_in(es, fs) == forall|i: int|
            0 <= i < es.len() ==> (lookup(fs, (#[trigger] es[i]).0) matches Some(w) && json_eq(
                es[i].1,
                w,
            )),
    decreases es.len(),
{
    if es.len() > 0 {
        let p = es.drop_last();
        lemma_entries_in_meaning(p, fs);
        if forall|i: int|
            0 <= i < es.len() ==> (lookup(fs, (#[trigger] es[i]).0) matches Some(w) && json_eq(
                es[i].1,
                w,
            )) {
            assert forall|i: int| 0 <= i < p.len() implies (lookup(fs, (#[trigger] p[i]).0) matches Some(
                w,
            ) && json_eq(p[i].1, w)) by {
                assert(p[i] == es[i]);
            }
            assert(es.last() == es[es.len() - 1]);
        }
        if entries_in(es, fs) {
            assert forall|i: int| 0 <= i < es.len() implies (lookup(fs, (#[trigger] es[i]).0) matches Some(
                w,
            ) && json_eq(es[i].1, w)) by {
                if i < p.len() {
                    assert(p[i] == es[i]);
                }
            }
        }
    }
}

/// What equality of documents means, kind by kind: documents of different
/// kinds are never equal; booleans and strings are equal when they are the
/// same; arrays when they have the same length and equal elements at each
/// index; objects when they have the same number of entries and every key
/// of the first holds, in the second, a value equal to its own.
pub proof fn lemma_json_eq_meaning(a: Json, b: Json)
    ensures
        json_eq(a, b) ==> ((a is Null) == (b is Null) && (a is Bool) == (b is Bool) && (a is Number)
            == (b is Number) && (a is Str) == (b is Str) && (a is Array) == (b is Array) && (a is Object)
            == (b is Object)),
        a is Null && b is Null ==> json_eq(a, b),
        (a, b) matches (Json::Bool(x), Json::Bool(y)) ==> json_eq(a, b) == (x == y),
        (a, b) matches (Json::Str(x), Json::Str(y)) ==> json_eq(a, b) == (x == y),
        (a, b) matches (Json::Array(xs), Json::Array(ys)) ==> json_eq(a, b) == (xs.len()
            == ys.len() && forall|i: int| 0 <= i < xs.len() ==> json_eq(#[trigger] xs[i], ys[i])),
        (a, b) matches (Json::Object(es), Json::Object(fs)) ==> json_eq(a, b) == (es.len()
            == fs.len() && forall|i: int|
            0 <= i < es.len() ==> (lookup(fs, (#[trigger] es[i]).0) matches Some(w) && json_eq(
                es[i].1,
                w,
            ))),
{
    match (a, b) {
        (Json::Array(xs), Json::Array(ys)) => lemma_all_eq_meaning(xs, ys),
        (Json::Object(es), Json::Object(fs)) => lemma_entries_in_meaning(es, fs),
        _ => {},
    }
}

/// What equality of numbers means: integers are equal when their values
/// are, an integer never equals a float, and floats are equal as `f64`
/// values (both zeros, or the same bits that are not a NaN).
pub proof fn lemma_number_eq_meaning(x: JsonNumber, y: JsonNumber)
    ensures
        (x, y) matches (JsonNumber::PosInt(u), JsonNumber::PosInt(v)) ==> json_eq(
            Json::Number(x),
            Json::Number(y),
        ) == (u == v),
        (x, y) matches (JsonNumber::NegInt(u), JsonNumber::NegInt(v)) ==> json_eq(
            Json::Number(x),
            Json::Number(y),
        ) == (u == v),
        (x, y) matches (JsonNumber::PosInt(u), JsonNumber::NegInt(v)) ==> json_eq(
            Json::Number(x),
            Json::Number(y),
        ) == (u as int == v as int),
        (x, y) matches (JsonNumber::NegInt(u), JsonNumber::PosInt(v)) ==> json_eq(
            Json::Number(x),
            Json::Number(y),
        ) == (u as int == v as int),
        (x is Float) != (y is Float) ==> !json_eq(Json::Number(x), Json::Number(y)),
        (x, y) matches (JsonNumber::Float(a), JsonNumber::Float(b)) ==> json_eq(
            Json::Number(x),
            Json::Number(y),
        ) == ((a == b && !((a & 0x7ff0_0000_0000_0000u64) == 0x7ff0_0000_0000_0000u64 && (a
            & 0x000f_ffff_ffff_ffffu64) != 0)) || ((a & 0x7fff_ffff_ffff_ffffu64) == 0 && (b
            & 0x7fff_ffff_ffff_ffffu64) == 0)),
{
}

/// Whether two numbers are equal.
fn numbers_equal(x: &JsonNumber, y: &JsonNumber) -> (r: bool)
    ensures
        r == number_eq(*x, *y),
{
    match (x, y) {
        (JsonNumber::Float(a), JsonNumber::Float(b)) => {
            let a = *a;
            let b = *b;
            ((a & 0x7fff_ffff_ffff_ffffu64) == 0 && (b & 0x7fff_ffff_ffff_ffffu64) == 0) || (a == b
                && !((a & 0x7ff0_0000_0000_0000u64) == 0x7ff0_0000_0000_0000u64 && (a
                & 0x000f_ffff_ffff_ffffu64) != 0))
        },
        (JsonNumber::Float(_), _) => false,
        (_, JsonNumber::Float(_)) => false,
        (JsonNumber::PosInt(u), JsonNumber::PosInt(v)) => *u == *v,
        (JsonNumber::NegInt(i), JsonNumber::NegInt(j)) => *i == *j,
        (JsonNumber::PosInt(u), JsonNumber::NegInt(i)) => *i >= 0 && *u == *i as u64,
        (JsonNumber::NegInt(i), JsonNumber::PosInt(u)) => *i >= 0 && *u == *i as u64,
    }
}

/// Whether two documents are equal.
fn values_equal(a: &JsonValue, b: &JsonValue) -> (r: bool)
    ensures
        r == json_eq(a@, b@),
    decreases a@,
{
    match (a, b) {
        (JsonValue::Null, JsonValue::Null) => true,
        (JsonValue::Bool(x), JsonValue::Bool(y)) => *x == *y,
        (JsonValue::Number(x), JsonValue::Number(y)) => numbers_equal(x, y),
        (JsonValue::String(x), JsonValue::String(y)) => str_eq(x.as_str(), y.as_str()),
        (JsonValue::Array(xs), JsonValue::Array(ys)) => {
            proof {
                assert(decreases_to!(a@ => a@->Array_0));
            }
            items_equal(xs, ys)
        },
        (JsonValue::Object(m), JsonValue::Object(n)) => {
            proof {
                assert(decreases_to!(a@ => a@->Object_0));
            }
            maps_equal(m, n)
        },
        (JsonValue::Null, _) => false,
        (JsonValue::Bool(_), _) => false,
        (JsonValue::Number(_), _) => false,
        (JsonValue::String(_), _) => false,
        (JsonValue::Array(_), _) => false,
        (JsonValue::Object(_), _) => false,
    }
}

/// Whether two arrays have the same length and equal elements in order.
fn items_equal(xs: &Vec<JsonValue>, ys: &Vec<JsonValue>) -> (r: bool)
    ensures
        r == all_eq(jsons_of(xs@), jsons_of(ys@)),
    decreases jsons_of(xs@), 0int,
{
    proof {
        lemma_jsons_of(xs@);
        lemma_jsons_of(ys@);
    }
    let ghost px = jsons_of(xs@);
    let ghost py = jsons_of(ys@);
    if xs.len() != ys.len() {
        proof {
            if all_eq(px, py) {
                lemma_all_eq_prefix(px, py, 0);
            }
        }
        return false;
    }
    let n = xs.len();
    let mut i: usize = 0;
    assert(px.take(0) =~= Seq::<Json>::empty());
    assert(py.take(0) =~= Seq::<Json>::empty());
    while i < n
        invariant
            n == xs.len(),
            n == ys.len(),
            i <= n,
            px == jsons_of(xs@),
            py == jsons_of(ys@),
            px.len() == n,
            py.len() == n,
            forall|j: int| 0 <= j < n ==> #[trigger] px[j] == xs@[j]@,
            forall|j: int| 0 <= j < n ==> #[trigger] py[j] == ys@[j]@,
            all_eq(px.take(i as int), py.take(i as int)),
        decreases n - i,
    {
        assert(px.take(i + 1).drop_last() =~= px.take(i as int));
        assert(py.take(i + 1).drop_last() =~= py.take(i as int));
        assert(px.take(i + 1).last() == px[i as int]);
        assert(py.take(i + 1).last() == py[i as int]);
        proof {
            assert(decreases_to!(px => px[i as int]));
        }
        if !values_equal(&xs[i], &ys[i]) {
            proof {
                if all_eq(px, py) {
                    lemma_all_eq_prefix(px, py, i + 1);
                }
            }
            return false;
        }
        i += 1;
    }
    assert(px.take(n as int) =~= px);
    assert(py.take(n as int) =~= py);
    true
}

/// Whether two objects have the same number of entries, each key of the
/// first holding an equal value in the second.
fn maps_equal(m: &JsonMap, n: &JsonMap) -> (r: bool)
    ensures
        r == (m@.len() == n@.len() && entries_in(m@, n@)),
    decreases m@, 0int,
{
    if m.len() != n.len() {
        return false;
    }
    let es = m.entries();
    proof {
        lemma_entries_of(es@);
    }
    let ghost ms = m@;
    let count = es.len();
    let mut i: usize = 0;
    assert(ms.take(0) =~= Seq::<(Seq<char>, Json)>::empty());
    while i < count
        invariant
            count == es.len(),
            i <= count,
            ms == m@,
            ms.len() == count,
            forall|j: int| 0 <= j < count ==> #[trigger] ms[j] == (es@[j].0@, es@[j].1@),
            entries_in(ms.take(i as int), n@),
        decreases count - i,
    {
        assert(ms.take(i + 1).drop_last() =~= ms.take(i as int));
        assert(ms.take(i + 1).last() == ms[i as int]);
        proof {
            assert(decreases_to!(ms => ms[i as int]));
            assert(decreases_to!(ms[i as int] => ms[i as int].1));
        }
        let found = match n.get(es[i].0.as_str()) {
            Some(w) => values_equal(&es[i].1, w),
            None => false,
        };
        if !found {
            proof {
                if entries_in(ms, n@) {
                    lemma_entries_in_prefix(ms, n@, i + 1);
                }
            }
            return false;
        }
        i += 1;
    }
    assert(ms.take(count as int) =~= ms);
    true
}

impl PartialEq for JsonNumber {
    /// Equality as serde_json has it: integers by value, floats as `f64`.
    fn eq(&self, other: &JsonNumber) -> (r: bool) {
        numbers_equal(self, other)
    }
}

impl vstd::std_specs::cmp::PartialEqSpecImpl for JsonNumber {
    open spec fn obeys_eq_spec() -> bool {
        true
    }

    open spec fn eq_spec(&self, other: &JsonNumber) -> bool {
        number_eq(*self, *other)
    }
}

impl PartialEq for JsonValue {
    /// Equality as serde_json has it: objects compare regardless of key
    /// order, numbers by value.
    fn eq(&self, other: &JsonValue) -> (r: bool) {
        values_equal(self, other)
    }
}

impl vstd::std_specs::cmp::PartialEqSpecImpl for JsonValue {
    open spec fn obeys_eq_spec() -> bool {
        true
    }

    open spec fn eq_spec(&self, other: &JsonValue) -> bool {
        json_eq(self@, other@)
    }
}

impl PartialEq for JsonMap {
    /// Equality of objects regardless of key order.
    fn eq(&self, other: &JsonMap) -> (r: bool) {
        maps_equal(self, other)
    }
}

impl vstd::std_specs::cmp::PartialEqSpecImpl for JsonMap {
    open spec fn obeys_eq_spec() -> bool {
        true
    }

    open spec fn eq_spec(&self, other: &JsonMap) -> bool {
        self@.len() == other@.len() && entries_in(self@, other@)
    }
}

} // verus!
