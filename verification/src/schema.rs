use vstd::prelude::*;
use crate::json::{
    entries_of, has_key, jsons_of, keys_distinct, lemma_entries_of, lemma_jsons_of, lookup, str_eq, Json,
    JsonMap, JsonNumber, JsonValue,
};

verus! {

/// Keywords that structured output rejects on any subschema.
pub open spec fn unsupported_keyword(k: Seq<char>) -> bool {
    ||| k == "minimum"@
    ||| k == "maximum"@
    ||| k == "exclusiveMinimum"@
    ||| k == "exclusiveMaximum"@
    ||| k == "multipleOf"@
    ||| k == "minLength"@
    ||| k == "maxLength"@
    ||| k == "maxItems"@
    ||| k == "uniqueItems"@
}

/// Whether a float, given by its IEEE-754 bits, has the value 0 or 1.
pub open spec fn float_is_zero_or_one(bits: u64) -> bool {
    (bits & 0x7fff_ffff_ffff_ffffu64) == 0 || bits == 0x3ff0_0000_0000_0000u64
}

/// Whether a `minItems` value is one that structured output supports: a
/// number whose value is 0 or 1.
pub open spec fn min_items_supported(v: Json) -> bool {
    match v {
        Json::Number(JsonNumber::Float(bits)) => float_is_zero_or_one(bits),
        Json::Number(n) => n.spec_as_u64() == Some(0u64) || n.spec_as_u64() == Some(1u64),
        _ => false,
    }
}

/// The key under which an entry survives sanitizing, or `None` when the
/// entry is dropped. `any_of_present` says whether the object already has
/// an `anyOf`.
pub open spec fn surviving_key(k: Seq<char>, v: Json, any_of_present: bool) -> Option<Seq<char>> {
    if unsupported_keyword(k) {
        None
    } else if k == "minItems"@ && !min_items_supported(v) {
        None
    } else if k == "oneOf"@ {
        if any_of_present {
            None
        } else {
            Some("anyOf"@)
        }
    } else {
        Some(k)
    }
}

/// Whether an object's entries describe an object schema: its `type` is the
/// string `"object"`, or it has `properties`.
pub open spec fn is_object_schema(es: Seq<(Seq<char>, Json)>) -> bool {
    ||| lookup(es, "type"@) == Some(Json::Str("object"@))
    ||| has_key(es, "properties"@)
}

/// A JSON Schema rewritten into the subset that structured output accepts:
/// unsupported keywords and `minItems` other than 0 or 1 are dropped, `oneOf`
/// becomes `anyOf` in place (or is dropped when `anyOf` is already there),
/// object schemas without `additionalProperties` get
/// `"additionalProperties": false` at the end, and all of it recursively.
pub open spec fn sanitize(j: Json) -> Json
    decreases j, 1int,
{
    match j {
        Json::Array(xs) => Json::Array(sanitize_all(xs)),
        Json::Object(es) => Json::Object(sanitize_object(es)),
        _ => j,
    }
}

/// The entries of a sanitized object: the surviving entries, then
/// `"additionalProperties": false` when the object is an object schema
/// that does not set it.
pub open spec fn sanitize_object(es: Seq<(Seq<char>, Json)>) -> Seq<(Seq<char>, Json)>
    decreases es, 1int,
{
    let kept = sanitize_entries(es, has_key(es, "anyOf"@));
    if is_object_schema(es) && !has_key(es, "additionalProperties"@) {
        kept.push(("additionalProperties"@, Json::Bool(false)))
    } else {
        kept
    }
}

/// Each element sanitized, in order.
pub open spec fn sanitize_all(xs: Seq<Json>) -> Seq<Json>
    decreases xs, 0int,
{
    if xs.len() == 0 {
        Seq::empty()
    } else {
        sanitize_all(xs.drop_last()).push(sanitize(xs.last()))
    }
}

/// The surviving entries, in order, each under its surviving key with its
/// value sanitized.
pub open spec fn sanitize_entries(es: Seq<(Seq<char>, Json)>, any_of_present: bool) -> Seq<
    (Seq<char>, Json),
>
    decreases es, 0int,
{
    if es.len() == 0 {
        Seq::empty()
    } else {
        let before = sanitize_entries(es.drop_last(), any_of_present);
        match surviving_key(es.last().0, es.last().1, any_of_present) {
            Some(k) => before.push((k, sanitize(es.last().1))),
            None => before,
        }
    }
}

/// Whether a `$ref` key occurs anywhere in the document.
pub open spec fn has_ref(j: Json) -> bool
    decreases j,
{
    match j {
        Json::Array(xs) => any_has_ref(xs),
        Json::Object(es) => has_key(es, "$ref"@) || any_entry_has_ref(es),
        _ => false,
    }
}

/// Whether some element has a `$ref` anywhere.
pub open spec fn any_has_ref(xs: Seq<Json>) -> bool
    decreases xs,
{
    if xs.len() == 0 {
        false
    } else {
        any_has_ref(xs.drop_last()) || has_ref(xs.last())
    }
}

/// Whether some entry's value has a `$ref` anywhere.
pub open spec fn any_entry_has_ref(es: Seq<(Seq<char>, Json)>) -> bool
    decreases es,
{
    if es.len() == 0 {
        false
    } else {
        any_entry_has_ref(es.drop_last()) || has_ref(es.last().1)
    }
}

/// Whether `schema` contains a `$ref` anywhere, at any depth. A property
/// named `$ref` counts too.
pub fn contains_ref(schema: &JsonValue) -> (r: bool)
    ensures
        r == has_ref(schema@),
    decreases schema@,
{
    match schema {
        JsonValue::Object(map) => {
            if map.contains_key("$ref") {
                return true;
            }
            let es = map.entries();
            proof {
                lemma_entries_of(es@);
            }
            let n = es.len();
            let mut i: usize = 0;
            while i < n
                invariant
                    n == es.len(),
                    i <= n,
                    schema@ == Json::Object(map@),
                    entries_of(es@) == map@,
                    map@.len() == n,
                    forall|j: int| 0 <= j < n ==> #[trigger] map@[j] == (es@[j].0@, es@[j].1@),
                    !any_entry_has_ref(map@.take(i as int)),
                decreases n - i,
            {
                proof {
                    let ghost m = map@;
                    assert(decreases_to!(schema@ => schema@->Object_0));
                    assert(decreases_to!(m => m[i as int]));
                    assert(decreases_to!(m[i as int] => m[i as int].1));
                    assert(decreases_to!(schema@ => map@[i as int].1));
                }
                if contains_ref(&es[i].1) {
                    assert(map@.take(i + 1).drop_last() =~= map@.take(i as int));
                    assert(map@.take(i as int) + map@.skip(i as int) =~= map@);
                    proof {
                        lemma_any_entry_prefix(map@, i as int + 1);
                    }
                    return true;
                }
                assert(map@.take(i + 1).drop_last() =~= map@.take(i as int));
                i += 1;
            }
            assert(map@.take(n as int) =~= map@);
            false
        },
        JsonValue::Array(items) => {
            proof {
                lemma_jsons_of(items@);
            }
            let n = items.len();
            let mut i: usize = 0;
            while i < n
                invariant
                    n == items.len(),
                    i <= n,
                    schema@ == Json::Array(jsons_of(items@)),
                    jsons_of(items@).len() == n,
                    forall|j: int| 0 <= j < n ==> #[trigger] jsons_of(items@)[j] == items@[j]@,
                    !any_has_ref(jsons_of(items@).take(i as int)),
                decreases n - i,
            {
                let ghost xs = jsons_of(items@);
                proof {
                    assert(decreases_to!(schema@ => schema@->Array_0));
                    assert(decreases_to!(xs => xs[i as int]));
                    assert(decreases_to!(schema@ => xs[i as int]));
                }
                if contains_ref(&items[i]) {
                    assert(xs.take(i + 1).drop_last() =~= xs.take(i as int));
                    proof {
                        lemma_any_prefix(xs, i as int + 1);
                    }
                    return true;
                }
                assert(xs.take(i + 1).drop_last() =~= xs.take(i as int));
                i += 1;
            }
            assert(jsons_of(items@).take(n as int) =~= jsons_of(items@));
            false
        },
        _ => false,
    }
}

/// Whether `k` is a keyword that structured output rejects.
fn is_unsupported_keyword(k: &str) -> (r: bool)
    ensures
        r == unsupported_keyword(k@),
{
    str_eq(k, "minimum") || str_eq(k, "maximum") || str_eq(k, "exclusiveMinimum") || str_eq(
        k,
        "exclusiveMaximum",
    ) || str_eq(k, "multipleOf") || str_eq(k, "minLength") || str_eq(k, "maxLength") || str_eq(
        k,
        "maxItems",
    ) || str_eq(k, "uniqueItems")
}

/// Whether `v` is a supported `minItems` value: a number whose value is 0
/// or 1.
fn is_supported_min_items(v: &JsonValue) -> (r: bool)
    ensures
        r == min_items_supported(v@),
{
    match v {
        JsonValue::Number(JsonNumber::Float(bits)) => {
            let bits = *bits;
            (bits & 0x7fff_ffff_ffff_ffffu64) == 0 || bits == 0x3ff0_0000_0000_0000u64
        },
        _ => match v.as_u64() {
            Some(n) => n == 0 || n == 1,
            None => false,
        },
    }
}

/// The key under which an entry survives, if it does.
fn surviving(k: &String, v: &JsonValue, any_of_present: bool) -> (r: Option<String>)
    ensures
        match r {
            Some(s) => surviving_key(k@, v@, any_of_present) == Some(s@),
            None => surviving_key(k@, v@, any_of_present) is None,
        },
{
    if is_unsupported_keyword(k.as_str()) {
        None
    } else if str_eq(k.as_str(), "minItems") && !is_supported_min_items(v) {
        None
    } else if str_eq(k.as_str(), "oneOf") {
        if any_of_present {
            None
        } else {
            Some("anyOf".to_owned())
        }
    } else {
        Some(k.clone())
    }
}

/// Whether the object is an object schema.
fn object_schema(m: &JsonMap) -> (r: bool)
    ensures
        r == is_object_schema(m@),
{
    let typed_object = match m.get("type") {
        Some(JsonValue::String(t)) => str_eq(t.as_str(), "object"),
        _ => false,
    };
    typed_object || m.contains_key("properties")
}

/// A key that is in the sanitized entries came from some entry.
pub(crate) proof fn lemma_survivor_origin(es: Seq<(Seq<char>, Json)>, any_of_present: bool, k: Seq<char>)
    requires
        has_key(sanitize_entries(es, any_of_present), k),
    ensures
        exists|m: int|
            0 <= m < es.len() && #[trigger] surviving_key(es[m].0, es[m].1, any_of_present)
                == Some(k),
    decreases es.len(),
{
    let p = es.drop_last();
    let before = sanitize_entries(p, any_of_present);
    let out = sanitize_entries(es, any_of_present);
    let i = choose|i: int| 0 <= i < out.len() && #[trigger] out[i].0 == k;
    if i < before.len() {
        assert(out[i] == before[i]);
        assert(has_key(before, k));
        lemma_survivor_origin(p, any_of_present, k);
        let m = choose|m: int|
            0 <= m < p.len() && #[trigger] surviving_key(p[m].0, p[m].1, any_of_present)
                == Some(k);
        assert(p[m] == es[m]);
    } else {
        let m = es.len() - 1;
        assert(surviving_key(es[m].0, es[m].1, any_of_present) == Some(k));
    }
}

/// In an object whose keys are distinct, the surviving key of an entry is
/// not among the keys that the entries before it leave.
pub(crate) proof fn lemma_survivor_fresh(es: Seq<(Seq<char>, Json)>, i: int, k: Seq<char>)
    requires
        keys_distinct(es),
        0 <= i < es.len(),
        surviving_key(es[i].0, es[i].1, has_key(es, "anyOf"@)) == Some(k),
    ensures
        !has_key(sanitize_entries(es.take(i), has_key(es, "anyOf"@)), k),
{
    let any = has_key(es, "anyOf"@);
    let p = es.take(i);
    if has_key(sanitize_entries(p, any), k) {
        lemma_survivor_origin(p, any, k);
        let m = choose|m: int|
            0 <= m < p.len() && #[trigger] surviving_key(p[m].0, p[m].1, any) == Some(k);
        assert(p[m] == es[m]);
        assert(es[m].0 != es[i].0);
        if es[m].0 == "anyOf"@ {
            assert(has_key(es, "anyOf"@));
        }
        if es[i].0 == "anyOf"@ {
            assert(has_key(es, "anyOf"@));
        }
    }
}

/// The document rewritten into the subset that structured output accepts.
fn sanitized(v: &JsonValue) -> (r: JsonValue)
    ensures
        r@ == sanitize(v@),
    decreases v@,
{
    match v {
        JsonValue::Null => JsonValue::Null,
        JsonValue::Bool(b) => JsonValue::Bool(*b),
        JsonValue::Number(n) => JsonValue::Number(*n),
        JsonValue::String(s) => JsonValue::String(s.clone()),
        JsonValue::Array(items) => {
            proof {
                assert(decreases_to!(v@ => v@->Array_0));
            }
            JsonValue::Array(sanitized_items(items))
        },
        JsonValue::Object(m) => {
            proof {
                assert(decreases_to!(v@ => v@->Object_0));
            }
            JsonValue::Object(sanitized_object(m))
        },
    }
}

/// Each element sanitized, in order.
fn sanitized_items(items: &Vec<JsonValue>) -> (r: Vec<JsonValue>)
    ensures
        jsons_of(r@) == sanitize_all(jsons_of(items@)),
    decreases jsons_of(items@),
{
    proof {
        lemma_jsons_of(items@);
    }
    let ghost xs = jsons_of(items@);
    let n = items.len();
    let mut out: Vec<JsonValue> = Vec::new();
    let mut i: usize = 0;
    assert(xs.take(0) =~= Seq::<Json>::empty());
    while i < n
        invariant
            n == items.len(),
            i <= n,
            xs == jsons_of(items@),
            xs.len() == n,
            forall|j: int| 0 <= j < n ==> #[trigger] xs[j] == items@[j]@,
            jsons_of(out@) == sanitize_all(xs.take(i as int)),
        decreases n - i,
    {
        proof {
            assert(decreases_to!(xs => xs[i as int]));
        }
        let x = sanitized(&items[i]);
        let ghost before = out@;
        out.push(x);
        proof {
            assert(out@.drop_last() =~= before);
            assert(xs.take(i + 1).drop_last() =~= xs.take(i as int));
        }
        i += 1;
    }
    assert(xs.take(n as int) =~= xs);
    out
}

/// The entries of the sanitized object, in order.
fn sanitized_object(m: &JsonMap) -> (r: JsonMap)
    ensures
        r@ == sanitize_object(m@),
    decreases m@,
{
    let any_of_present = m.contains_key("anyOf");
    let object = object_schema(m);
    let has_additional = m.contains_key("additionalProperties");
    let es = m.entries();
    proof {
        lemma_entries_of(es@);
    }
    let ghost ms = m@;
    let n = es.len();
    let mut out = JsonMap::new();
    let mut i: usize = 0;
    assert(ms.take(0) =~= Seq::<(Seq<char>, Json)>::empty());
    while i < n
        invariant
            n == es.len(),
            i <= n,
            ms == m@,
            ms.len() == n,
            keys_distinct(ms),
            any_of_present == has_key(ms, "anyOf"@),
            forall|j: int| 0 <= j < n ==> #[trigger] ms[j] == (es@[j].0@, es@[j].1@),
            out@ == sanitize_entries(ms.take(i as int), any_of_present),
        decreases n - i,
    {
        assert(ms.take(i + 1).drop_last() =~= ms.take(i as int));
        assert(ms.take(i + 1).last() == ms[i as int]);
        match surviving(&es[i].0, &es[i].1, any_of_present) {
            Some(k) => {
                proof {
                    assert(decreases_to!(ms => ms[i as int]));
                    assert(decreases_to!(ms[i as int] => ms[i as int].1));
                    lemma_survivor_fresh(ms, i as int, k@);
                }
                let x = sanitized(&es[i].1);
                out.insert(k, x);
            },
            None => {},
        }
        i += 1;
    }
    assert(ms.take(n as int) =~= ms);
    if object && !has_additional {
        proof {
            reveal_strlit("anyOf");
            reveal_strlit("additionalProperties");
            if has_key(out@, "additionalProperties"@) {
                lemma_survivor_origin(ms, any_of_present, "additionalProperties"@);
                let j = choose|j: int|
                    0 <= j < ms.len() && #[trigger] surviving_key(ms[j].0, ms[j].1, any_of_present)
                        == Some("additionalProperties"@);
                assert(ms[j].0 == "additionalProperties"@);
            }
        }
        out.insert("additionalProperties".to_owned(), JsonValue::Bool(false));
    }
    out
}

/// Rewrites a JSON Schema, in place, into the subset that structured output
/// accepts: unsupported keywords (numeric ranges, string lengths,
/// `maxItems`, `uniqueItems`) and a `minItems` whose value is not 0 or 1
/// are removed, `oneOf`
/// is renamed to `anyOf` where it stands (or removed when `anyOf` is already
/// there), and every object schema that does not set
/// `additionalProperties` gets `"additionalProperties": false` appended, at
/// every depth. Everything else, and the order of keys, is kept.
pub fn sanitize_for_anthropic(value: &mut JsonValue)
    ensures
        final(value)@ == sanitize(old(value)@),
{
    let r = sanitized(value);
    *value = r;
}

/// A `$ref` in a prefix of the elements is a `$ref` in the elements.
proof fn lemma_any_prefix(xs: Seq<Json>, i: int)
    requires
        0 <= i <= xs.len(),
        any_has_ref(xs.take(i)),
    ensures
        any_has_ref(xs),
    decreases xs.len() - i,
{
    if i < xs.len() {
        assert(xs.take(i + 1).drop_last() =~= xs.take(i));
        lemma_any_prefix(xs, i + 1);
    } else {
        assert(xs.take(i) =~= xs);
    }
}

/// A `$ref` in a prefix of the entries is a `$ref` in the entries.
proof fn lemma_any_entry_prefix(es: Seq<(Seq<char>, Json)>, i: int)
    requires
        0 <= i <= es.len(),
        any_entry_has_ref(es.take(i)),
    ensures
        any_entry_has_ref(es),
    decreases es.len() - i,
{
    if i < es.len() {
        assert(es.take(i + 1).drop_last() =~= es.take(i));
        lemma_any_entry_prefix(es, i + 1);
    } else {
        assert(es.take(i) =~= es);
    }
}

} // verus!
