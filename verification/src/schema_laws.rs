use vstd::prelude::*;
use crate::json::{has_key, key_index, keys_distinct, lookup, Json};
use crate::schema::{any_entry_has_ref, any_has_ref, has_ref};
use crate::schema::{
    lemma_survivor_fresh, lemma_survivor_origin,
    is_object_schema, min_items_supported, sanitize, sanitize_all, sanitize_entries, sanitize_object,
    surviving_key, unsupported_keyword,
};

verus! {

/// An entry that sanitizing leaves as it is: no unsupported keyword, no
/// `oneOf`, and no `minItems` other than 0 or 1.
pub open spec fn settled_entry(k: Seq<char>, v: Json) -> bool {
    &&& !unsupported_keyword(k)
    &&& k != "oneOf"@
    &&& !(k == "minItems"@ && !min_items_supported(v))
}

/// A keyword that sanitizing neither drops, renames, adds nor produces by
/// renaming.
pub open spec fn plain_keyword(k: Seq<char>) -> bool {
    &&& !unsupported_keyword(k)
    &&& k != "minItems"@
    &&& k != "oneOf"@
    &&& k != "anyOf"@
}

/// An optional value, sanitized.
pub open spec fn sanitize_opt(o: Option<Json>) -> Option<Json> {
    match o {
        Some(v) => Some(sanitize(v)),
        None => None,
    }
}

/// Whether a document lies in the subset that structured output accepts, at
/// every depth: no unsupported keyword, no `oneOf`, no `minItems` other than 0 or 1,
/// and every object schema sets `additionalProperties`.
pub open spec fn conforms(j: Json) -> bool
    decreases j, 1int,
{
    match j {
        Json::Array(xs) => all_conform(xs),
        Json::Object(es) => entries_conform(es) && (is_object_schema(es) ==> has_key(
            es,
            "additionalProperties"@,
        )),
        _ => true,
    }
}

/// Whether every element conforms.
pub open spec fn all_conform(xs: Seq<Json>) -> bool
    decreases xs, 0int,
{
    xs.len() == 0 || (all_conform(xs.drop_last()) && conforms(xs.last()))
}

/// Whether every entry is settled and its value conforms.
pub open spec fn entries_conform(es: Seq<(Seq<char>, Json)>) -> bool
    decreases es, 0int,
{
    es.len() == 0 || (entries_conform(es.drop_last()) && settled_entry(es.last().0, es.last().1)
        && conforms(es.last().1))
}

/// The keywords that sanitizing treats specially are distinct from one
/// another and from the keywords it only reads.
proof fn lemma_keywords()
    ensures
        !unsupported_keyword("anyOf"@),
        "anyOf"@ != "oneOf"@,
        "anyOf"@ != "minItems"@,
        !unsupported_keyword("oneOf"@),
        "oneOf"@ != "minItems"@,
        !unsupported_keyword("additionalProperties"@),
        "additionalProperties"@ != "oneOf"@,
        "additionalProperties"@ != "minItems"@,
        "additionalProperties"@ != "anyOf"@,
        "additionalProperties"@ != "type"@,
        "additionalProperties"@ != "properties"@,
        plain_keyword("type"@),
        plain_keyword("properties"@),
        plain_keyword("additionalProperties"@),
        plain_keyword("$ref"@),
        "$ref"@ != "additionalProperties"@,
{
    reveal_strlit("$ref");
    assert("$ref"@.len() == 4);
    reveal_strlit("anyOf");
    reveal_strlit("oneOf");
    reveal_strlit("minItems");
    reveal_strlit("additionalProperties");
    reveal_strlit("type");
    reveal_strlit("properties");
    reveal_strlit("minimum");
    reveal_strlit("maximum");
    reveal_strlit("exclusiveMinimum");
    reveal_strlit("exclusiveMaximum");
    reveal_strlit("multipleOf");
    reveal_strlit("minLength");
    reveal_strlit("maxLength");
    reveal_strlit("maxItems");
    reveal_strlit("uniqueItems");
    assert("anyOf"@[0] != "oneOf"@[0]);
    assert("properties"@[0] != "multipleOf"@[0]);
    assert("additionalProperties"@.len() == 20);
    assert("minItems"@.len() == 8);
    assert("minimum"@.len() == 7);
    assert("maximum"@.len() == 7);
    assert("exclusiveMinimum"@.len() == 16);
    assert("exclusiveMaximum"@.len() == 16);
    assert("multipleOf"@.len() == 10);
    assert("minLength"@.len() == 9);
    assert("maxLength"@.len() == 9);
    assert("maxItems"@.len() == 8);
    assert("uniqueItems"@.len() == 11);
}

/// `minItems` is not among the unsupported keywords.
proof fn lemma_min_items_keyword()
    ensures
        !unsupported_keyword("minItems"@),
{
    reveal_strlit("minItems");
    reveal_strlit("minimum");
    reveal_strlit("maximum");
    reveal_strlit("exclusiveMinimum");
    reveal_strlit("exclusiveMaximum");
    reveal_strlit("multipleOf");
    reveal_strlit("minLength");
    reveal_strlit("maxLength");
    reveal_strlit("maxItems");
    reveal_strlit("uniqueItems");
    assert("minItems"@.len() == 8);
    assert("minimum"@.len() == 7);
    assert("maximum"@.len() == 7);
    assert("exclusiveMinimum"@.len() == 16);
    assert("exclusiveMaximum"@.len() == 16);
    assert("multipleOf"@.len() == 10);
    assert("minLength"@.len() == 9);
    assert("maxLength"@.len() == 9);
    assert("maxItems"@.len() == 8);
    assert("uniqueItems"@.len() == 11);
    assert("minItems"@[1] != "maxItems"@[1]);
}

/// Sanitizing keeps scalars and the kind of a container.
proof fn lemma_shape(j: Json)
    ensures
        (sanitize(j) is Number) == (j is Number),
        j is Number ==> sanitize(j) == j,
        min_items_supported(sanitize(j)) == min_items_supported(j),
        forall|s: Seq<char>| (sanitize(j) == Json::Str(s)) == (j == Json::Str(s)),
        j is Bool ==> sanitize(j) == j,
{
}

/// When exactly the entries with key `src` survive under key `dst`, the
/// sanitized entries find under `dst` what the entries held under `src`,
/// sanitized.
proof fn lemma_moved_lookup(
    es: Seq<(Seq<char>, Json)>,
    any_of_present: bool,
    src: Seq<char>,
    dst: Seq<char>,
)
    requires
        forall|i: int|
            0 <= i < es.len() ==> (surviving_key(#[trigger] es[i].0, es[i].1, any_of_present)
                == Some(dst)) == (es[i].0 == src),
    ensures
        lookup(sanitize_entries(es, any_of_present), dst) == sanitize_opt(lookup(es, src)),
        has_key(sanitize_entries(es, any_of_present), dst) == has_key(es, src),
    decreases es.len(),
{
    crate::json::lemma_lookup(es, src);
    crate::json::lemma_lookup(sanitize_entries(es, any_of_present), dst);
    if es.len() > 0 {
        let p = es.drop_last();
        assert forall|i: int| 0 <= i < p.len() implies (surviving_key(
            #[trigger] p[i].0,
            p[i].1,
            any_of_present,
        ) == Some(dst)) == (p[i].0 == src) by {
            assert(p[i] == es[i]);
            assert((surviving_key(es[i].0, es[i].1, any_of_present) == Some(dst)) == (es[i].0
                == src));
        }
        lemma_moved_lookup(p, any_of_present, src, dst);
        crate::json::lemma_lookup(p, src);
        let before = sanitize_entries(p, any_of_present);
        crate::json::lemma_lookup(before, dst);
        let last = es[es.len() - 1];
        assert((surviving_key(last.0, last.1, any_of_present) == Some(dst)) == (last.0 == src));
        match surviving_key(last.0, last.1, any_of_present) {
            Some(k2) => {
                let out = before.push((k2, sanitize(last.1)));
                assert(out.drop_last() =~= before);
                crate::json::lemma_lookup(out, dst);
            },
            None => {},
        }
    }
}

/// A plain keyword survives exactly as itself.
proof fn lemma_plain_survives(es: Seq<(Seq<char>, Json)>, any_of_present: bool, k: Seq<char>)
    requires
        plain_keyword(k),
    ensures
        forall|i: int|
            0 <= i < es.len() ==> (surviving_key(#[trigger] es[i].0, es[i].1, any_of_present)
                == Some(k)) == (es[i].0 == k),
{
    lemma_keywords();
}

/// A key that sanitizing treats plainly is found in the sanitized entries
/// exactly where it was, with its value sanitized.
proof fn lemma_plain_lookup(es: Seq<(Seq<char>, Json)>, any_of_present: bool, k: Seq<char>)
    requires
        plain_keyword(k),
    ensures
        lookup(sanitize_entries(es, any_of_present), k) == sanitize_opt(lookup(es, k)),
        has_key(sanitize_entries(es, any_of_present), k) == has_key(es, k),
{
    lemma_plain_survives(es, any_of_present, k);
    lemma_moved_lookup(es, any_of_present, k, k);
}

/// Pushing an entry whose key differs from `k` changes neither whether `k`
/// is there nor what it finds.
proof fn lemma_push_other(es: Seq<(Seq<char>, Json)>, e: (Seq<char>, Json), k: Seq<char>)
    requires
        e.0 != k,
    ensures
        lookup(es.push(e), k) == lookup(es, k),
        has_key(es.push(e), k) == has_key(es, k),
{
    assert(es.push(e).drop_last() =~= es);
    crate::json::lemma_lookup(es, k);
    crate::json::lemma_lookup(es.push(e), k);
    if has_key(es, k) {
        let i = choose|i: int| 0 <= i < es.len() && #[trigger] es[i].0 == k;
        assert(es.push(e)[i].0 == k);
    }
}

/// An entry that sanitizing leaves as it is, value included.
pub open spec fn fixed_entry(e: (Seq<char>, Json)) -> bool {
    settled_entry(e.0, e.1) && sanitize(e.1) == e.1
}

/// Entries that are settled and whose values are already sanitized come out
/// of sanitizing unchanged.
proof fn lemma_settled_fixed(es: Seq<(Seq<char>, Json)>, any_of_present: bool)
    requires
        forall|i: int| 0 <= i < es.len() ==> fixed_entry(#[trigger] es[i]),
    ensures
        sanitize_entries(es, any_of_present) == es,
    decreases es.len(),
{
    if es.len() > 0 {
        let p = es.drop_last();
        assert forall|i: int| 0 <= i < p.len() implies fixed_entry(#[trigger] p[i]) by {
            assert(p[i] == es[i]);
        }
        lemma_settled_fixed(p, any_of_present);
        let last = es[es.len() - 1];
        assert(fixed_entry(last));
        assert(es =~= p.push(last));
    }
}

/// The entries that survive sanitizing are settled, and their values are
/// fixed points of sanitizing and conform.
proof fn lemma_entries_settled(es: Seq<(Seq<char>, Json)>, any_of_present: bool)
    ensures
        forall|i: int|
            0 <= i < sanitize_entries(es, any_of_present).len() ==> {
                let e = #[trigger] sanitize_entries(es, any_of_present)[i];
                &&& settled_entry(e.0, e.1)
                &&& sanitize(e.1) == e.1
                &&& conforms(e.1)
            },
    decreases es, 0int,
{
    if es.len() > 0 {
        let p = es.drop_last();
        lemma_entries_settled(p, any_of_present);
        let before = sanitize_entries(p, any_of_present);
        let last = es.last();
        match surviving_key(last.0, last.1, any_of_present) {
            Some(k) => {
                assert(decreases_to!(es => es[es.len() - 1]));
                assert(decreases_to!(es[es.len() - 1] => es[es.len() - 1].1));
                lemma_sanitize_idempotent(last.1);
                lemma_sanitize_conforms(last.1);
                lemma_shape(last.1);
                lemma_keywords();
                let out = before.push((k, sanitize(last.1)));
                assert forall|i: int| 0 <= i < out.len() implies {
                    let e = #[trigger] out[i];
                    &&& settled_entry(e.0, e.1)
                    &&& sanitize(e.1) == e.1
                    &&& conforms(e.1)
                } by {
                    if i < before.len() {
                        assert(out[i] == before[i]);
                    }
                }
            },
            None => {},
        }
    }
}

/// Settled entries whose values conform make conforming entries.
proof fn lemma_entries_conform(es: Seq<(Seq<char>, Json)>)
    requires
        forall|i: int|
            0 <= i < es.len() ==> settled_entry(#[trigger] es[i].0, es[i].1) && conforms(es[i].1),
    ensures
        entries_conform(es),
    decreases es.len(),
{
    if es.len() > 0 {
        let p = es.drop_last();
        assert forall|i: int|
            0 <= i < p.len() implies settled_entry(#[trigger] p[i].0, p[i].1) && conforms(
            p[i].1,
        ) by {
            assert(p[i] == es[i]);
            assert(settled_entry(es[i].0, es[i].1));
        }
        lemma_entries_conform(p);
    }
}

/// The facts about a sanitized object that both laws rest on: its entries
/// are settled fixed points, it is an object schema exactly when the input
/// was, and then it sets `additionalProperties`.
proof fn lemma_object(es: Seq<(Seq<char>, Json)>)
    ensures
        forall|i: int|
            0 <= i < sanitize_object(es).len() ==> {
                let e = #[trigger] sanitize_object(es)[i];
                &&& settled_entry(e.0, e.1)
                &&& sanitize(e.1) == e.1
                &&& conforms(e.1)
            },
        is_object_schema(sanitize_object(es)) == is_object_schema(es),
        is_object_schema(es) ==> has_key(sanitize_object(es), "additionalProperties"@),
    decreases es, 1int,
{
    let any = has_key(es, "anyOf"@);
    let kept = sanitize_entries(es, any);
    lemma_entries_settled(es, any);
    lemma_keywords();
    lemma_plain_lookup(es, any, "type"@);
    lemma_plain_lookup(es, any, "properties"@);
    lemma_plain_lookup(es, any, "additionalProperties"@);
    match lookup(es, "type"@) {
        Some(t) => lemma_shape(t),
        None => {},
    }
    if is_object_schema(es) && !has_key(es, "additionalProperties"@) {
        let addl = ("additionalProperties"@, Json::Bool(false));
        let out = kept.push(addl);
        assert(out == sanitize_object(es));
        lemma_push_other(kept, addl, "type"@);
        lemma_push_other(kept, addl, "properties"@);
        assert(out[out.len() - 1].0 == "additionalProperties"@);
        assert forall|i: int| 0 <= i < out.len() implies {
            let e = #[trigger] out[i];
            &&& settled_entry(e.0, e.1)
            &&& sanitize(e.1) == e.1
            &&& conforms(e.1)
        } by {
            if i < kept.len() {
                assert(out[i] == kept[i]);
            }
        }
    }
}

/// No entry survives under the key `oneOf`.
proof fn lemma_no_one_of(es: Seq<(Seq<char>, Json)>, any_of_present: bool)
    ensures
        !has_key(sanitize_entries(es, any_of_present), "oneOf"@),
{
    lemma_entries_settled(es, any_of_present);
    let kept = sanitize_entries(es, any_of_present);
    if has_key(kept, "oneOf"@) {
        let i = choose|i: int| 0 <= i < kept.len() && #[trigger] kept[i].0 == "oneOf"@;
        assert(settled_entry(kept[i].0, kept[i].1));
    }
}

/// Sanitizing keeps every keyword it does not treat specially: the key is
/// there exactly when it was, holding its value sanitized.
pub proof fn lemma_sanitize_keeps_keyword(es: Seq<(Seq<char>, Json)>, k: Seq<char>)
    requires
        plain_keyword(k),
        k != "additionalProperties"@,
    ensures
        lookup(sanitize_object(es), k) == sanitize_opt(lookup(es, k)),
        has_key(sanitize_object(es), k) == has_key(es, k),
{
    let any = has_key(es, "anyOf"@);
    let kept = sanitize_entries(es, any);
    lemma_plain_lookup(es, any, k);
    if is_object_schema(es) && !has_key(es, "additionalProperties"@) {
        lemma_push_other(kept, ("additionalProperties"@, Json::Bool(false)), k);
    }
}

/// An `anyOf` already present wins over `oneOf`: it keeps its value,
/// sanitized, and no `oneOf` is left.
pub proof fn lemma_sanitize_any_of_wins(es: Seq<(Seq<char>, Json)>)
    requires
        has_key(es, "anyOf"@),
    ensures
        lookup(sanitize_object(es), "anyOf"@) == sanitize_opt(lookup(es, "anyOf"@)),
        !has_key(sanitize_object(es), "oneOf"@),
{
    lemma_keywords();
    let kept = sanitize_entries(es, true);
    lemma_moved_lookup(es, true, "anyOf"@, "anyOf"@);
    lemma_no_one_of(es, true);
    if is_object_schema(es) && !has_key(es, "additionalProperties"@) {
        lemma_push_other(kept, ("additionalProperties"@, Json::Bool(false)), "anyOf"@);
        lemma_push_other(kept, ("additionalProperties"@, Json::Bool(false)), "oneOf"@);
    }
}

/// Without an `anyOf`, the `oneOf` becomes `anyOf`: the new `anyOf` holds
/// the `oneOf`'s value, sanitized, and no `oneOf` is left.
pub proof fn lemma_sanitize_renames_one_of(es: Seq<(Seq<char>, Json)>)
    requires
        !has_key(es, "anyOf"@),
    ensures
        lookup(sanitize_object(es), "anyOf"@) == sanitize_opt(lookup(es, "oneOf"@)),
        has_key(sanitize_object(es), "anyOf"@) == has_key(es, "oneOf"@),
        !has_key(sanitize_object(es), "oneOf"@),
{
    lemma_keywords();
    let kept = sanitize_entries(es, false);
    assert forall|i: int| 0 <= i < es.len() implies (surviving_key(
        #[trigger] es[i].0,
        es[i].1,
        false,
    ) == Some("anyOf"@)) == (es[i].0 == "oneOf"@) by {
        if es[i].0 == "anyOf"@ {
            assert(has_key(es, "anyOf"@));
        }
    }
    lemma_moved_lookup(es, false, "oneOf"@, "anyOf"@);
    lemma_no_one_of(es, false);
    if is_object_schema(es) && !has_key(es, "additionalProperties"@) {
        lemma_push_other(kept, ("additionalProperties"@, Json::Bool(false)), "anyOf"@);
        lemma_push_other(kept, ("additionalProperties"@, Json::Bool(false)), "oneOf"@);
    }
}

/// Sanitizing a longer prefix of the entries extends what a shorter prefix
/// gives.
proof fn lemma_prefix(es: Seq<(Seq<char>, Json)>, any_of_present: bool, m: int, n: int)
    requires
        0 <= m <= n <= es.len(),
    ensures
        sanitize_entries(es.take(m), any_of_present).len() <= sanitize_entries(
            es.take(n),
            any_of_present,
        ).len(),
        sanitize_entries(es.take(n), any_of_present).take(
            sanitize_entries(es.take(m), any_of_present).len() as int,
        ) == sanitize_entries(es.take(m), any_of_present),
    decreases n - m,
{
    let short = sanitize_entries(es.take(m), any_of_present);
    if n == m {
        assert(short.take(short.len() as int) =~= short);
    } else {
        lemma_prefix(es, any_of_present, m, n - 1);
        assert(es.take(n).drop_last() =~= es.take(n - 1));
        let before = sanitize_entries(es.take(n - 1), any_of_present);
        let after = sanitize_entries(es.take(n), any_of_present);
        if after.len() > before.len() {
            assert(after.take(short.len() as int) =~= before.take(short.len() as int));
        }
    }
}

/// The sanitized entries of an object whose keys are distinct have
/// distinct keys.
proof fn lemma_sanitized_distinct(es: Seq<(Seq<char>, Json)>, n: int)
    requires
        keys_distinct(es),
        0 <= n <= es.len(),
    ensures
        keys_distinct(sanitize_entries(es.take(n), has_key(es, "anyOf"@))),
    decreases n,
{
    let any = has_key(es, "anyOf"@);
    if n > 0 {
        lemma_sanitized_distinct(es, n - 1);
        assert(es.take(n).drop_last() =~= es.take(n - 1));
        assert(es.take(n).last() == es[n - 1]);
        let before = sanitize_entries(es.take(n - 1), any);
        match surviving_key(es[n - 1].0, es[n - 1].1, any) {
            Some(k) => {
                lemma_survivor_fresh(es, n - 1, k);
                let after = before.push((k, sanitize(es[n - 1].1)));
                assert forall|a: int, b: int| 0 <= a < b < after.len() implies #[trigger] after[a].0
                    != #[trigger] after[b].0 by {
                    if b == after.len() - 1 {
                        assert(after[a] == before[a]);
                        if before[a].0 == k {
                            assert(has_key(before, k));
                        }
                    } else {
                        assert(after[a] == before[a] && after[b] == before[b]);
                    }
                }
            },
            None => {},
        }
    }
}

/// Sanitizing keeps the order of keys: of two entries that both survive,
/// the earlier one comes first in the sanitized object.
#[verifier::rlimit(40)]
pub proof fn lemma_sanitize_keeps_order(es: Seq<(Seq<char>, Json)>, i: int, j: int)
    requires
        keys_distinct(es),
        0 <= i < j < es.len(),
        surviving_key(es[i].0, es[i].1, has_key(es, "anyOf"@)) is Some,
        surviving_key(es[j].0, es[j].1, has_key(es, "anyOf"@)) is Some,
    ensures
        ({
            let out = sanitize_object(es);
            let ki = surviving_key(es[i].0, es[i].1, has_key(es, "anyOf"@))->Some_0;
            let kj = surviving_key(es[j].0, es[j].1, has_key(es, "anyOf"@))->Some_0;
            &&& has_key(out, ki)
            &&& has_key(out, kj)
            &&& key_index(out, ki) < key_index(out, kj)
        }),
{
    let any = has_key(es, "anyOf"@);
    let ki = surviving_key(es[i].0, es[i].1, any)->Some_0;
    let kj = surviving_key(es[j].0, es[j].1, any)->Some_0;
    let n = es.len() as int;
    assert(es.take(n) =~= es);
    let full = sanitize_entries(es, any);
    lemma_sanitized_distinct(es, n);
    lemma_prefix(es, any, i + 1, n);
    lemma_prefix(es, any, j + 1, n);
    lemma_prefix(es, any, i + 1, j);
    assert(es.take(i + 1).drop_last() =~= es.take(i));
    assert(es.take(i + 1).last() == es[i]);
    assert(es.take(j + 1).drop_last() =~= es.take(j));
    assert(es.take(j + 1).last() == es[j]);
    let pi = sanitize_entries(es.take(i), any).len() as int;
    let pj = sanitize_entries(es.take(j), any).len() as int;
    let with_i = sanitize_entries(es.take(i + 1), any);
    let with_j = sanitize_entries(es.take(j + 1), any);
    assert(with_i[pi].0 == ki);
    assert(with_j[pj].0 == kj);
    assert(full.take(with_i.len() as int)[pi] == with_i[pi]);
    assert(full.take(with_j.len() as int)[pj] == with_j[pj]);
    assert(full[pi].0 == ki);
    assert(full[pj].0 == kj);
    assert(pi < pj);
    let out = sanitize_object(es);
    assert(out[pi] == full[pi]);
    assert(out[pj] == full[pj]);
    assert(has_key(out, ki));
    assert(has_key(out, kj));
    let ci = key_index(out, ki);
    let cj = key_index(out, kj);
    assert(out[ci].0 == ki);
    assert(out[cj].0 == kj);
    if ci < full.len() {
        assert(out[ci] == full[ci]);
        if ci != pi {
            assert(full[ci].0 == full[pi].0);
        }
    } else {
        lemma_keywords();
        assert(out[ci].0 == "additionalProperties"@);
        lemma_plain_lookup(es, any, "additionalProperties"@);
        assert(has_key(full, "additionalProperties"@));
    }
    if cj < full.len() {
        assert(out[cj] == full[cj]);
        if cj != pj {
            assert(full[cj].0 == full[pj].0);
        }
    } else {
        lemma_keywords();
        lemma_plain_lookup(es, any, "additionalProperties"@);
        assert(has_key(full, "additionalProperties"@));
    }
}

/// The keys that an object's entries leave, in order: each entry's
/// surviving key, skipping the entries that are dropped.
pub open spec fn surviving_keys(es: Seq<(Seq<char>, Json)>, any_of_present: bool) -> Seq<
    Seq<char>,
>
    decreases es.len(),
{
    if es.len() == 0 {
        Seq::empty()
    } else {
        let before = surviving_keys(es.drop_last(), any_of_present);
        match surviving_key(es.last().0, es.last().1, any_of_present) {
            Some(k) => before.push(k),
            None => before,
        }
    }
}

/// The key sequence of a sanitized object: the surviving keys of its
/// entries in their order, then `additionalProperties` when it was added.
pub proof fn lemma_sanitize_key_sequence(es: Seq<(Seq<char>, Json)>)
    ensures
        sanitize_object(es).map_values(|e: (Seq<char>, Json)| e.0) == if is_object_schema(es)
            && !has_key(es, "additionalProperties"@) {
            surviving_keys(es, has_key(es, "anyOf"@)).push("additionalProperties"@)
        } else {
            surviving_keys(es, has_key(es, "anyOf"@))
        },
{
    let any = has_key(es, "anyOf"@);
    lemma_entry_keys(es, any);
    let kept = sanitize_entries(es, any);
    if is_object_schema(es) && !has_key(es, "additionalProperties"@) {
        let out = kept.push(("additionalProperties"@, Json::Bool(false)));
        assert(out.map_values(|e: (Seq<char>, Json)| e.0) =~= kept.map_values(
            |e: (Seq<char>, Json)| e.0,
        ).push("additionalProperties"@));
    }
}

/// The keys of the sanitized entries are the surviving keys.
proof fn lemma_entry_keys(es: Seq<(Seq<char>, Json)>, any_of_present: bool)
    ensures
        sanitize_entries(es, any_of_present).map_values(|e: (Seq<char>, Json)| e.0)
            == surviving_keys(es, any_of_present),
    decreases es.len(),
{
    if es.len() == 0 {
        assert(sanitize_entries(es, any_of_present).map_values(|e: (Seq<char>, Json)| e.0)
            =~= Seq::<Seq<char>>::empty());
    } else {
        let p = es.drop_last();
        lemma_entry_keys(p, any_of_present);
        let before = sanitize_entries(p, any_of_present);
        match surviving_key(es.last().0, es.last().1, any_of_present) {
            Some(k) => {
                let out = before.push((k, sanitize(es.last().1)));
                assert(out.map_values(|e: (Seq<char>, Json)| e.0) =~= before.map_values(
                    |e: (Seq<char>, Json)| e.0,
                ).push(k));
            },
            None => {},
        }
    }
}

/// How `minItems` comes out of an object whose keys are distinct: it stays,
/// with its value, exactly when that value is a number whose value is 0 or
/// 1, and is gone otherwise.
pub proof fn lemma_sanitize_min_items(es: Seq<(Seq<char>, Json)>)
    requires
        keys_distinct(es),
    ensures
        has_key(sanitize_object(es), "minItems"@) == (lookup(es, "minItems"@) matches Some(v)
            && min_items_supported(v)),
        lookup(sanitize_object(es), "minItems"@) == if lookup(es, "minItems"@) matches Some(v)
            && min_items_supported(v) {
            lookup(es, "minItems"@)
        } else {
            None
        },
{
    let k = "minItems"@;
    let any = has_key(es, "anyOf"@);
    let kept = sanitize_entries(es, any);
    lemma_keywords();
    crate::json::lemma_lookup(es, k);
    crate::json::lemma_lookup(kept, k);
    lemma_min_items_keyword();
    let supported = lookup(es, k) matches Some(v) && min_items_supported(v);
    if supported {
        let i = choose|i: int|
            0 <= i < es.len() && es[i].0 == k && lookup(es, k) == Some(es[i].1) && forall|j: int|
                0 <= j < i ==> es[j].0 != k;
        assert forall|m: int| 0 <= m < es.len() implies (surviving_key(
            #[trigger] es[m].0,
            es[m].1,
            any,
        ) == Some(k)) == (es[m].0 == k) by {
            if es[m].0 == k && m != i {
                if m < i {
                    assert(es[m].0 != es[i].0);
                } else {
                    assert(es[i].0 != es[m].0);
                }
            }
        }
        lemma_moved_lookup(es, any, k, k);
        lemma_shape(es[i].1);
    } else {
        if has_key(kept, k) {
            lemma_survivor_origin(es, any, k);
            let m = choose|m: int|
                0 <= m < es.len() && #[trigger] surviving_key(es[m].0, es[m].1, any) == Some(k);
            assert(es[m].0 == k);
            assert(has_key(es, k));
            let i = choose|i: int|
                0 <= i < es.len() && es[i].0 == k && lookup(es, k) == Some(es[i].1) && forall|
                    j: int,
                | 0 <= j < i ==> es[j].0 != k;
            if m != i {
                if m < i {
                    assert(es[m].0 != es[i].0);
                } else {
                    assert(es[i].0 != es[m].0);
                }
            }
        }
    }
    if is_object_schema(es) && !has_key(es, "additionalProperties"@) {
        lemma_push_other(kept, ("additionalProperties"@, Json::Bool(false)), k);
    }
}

/// How `additionalProperties` comes out: it is there when it was or when
/// the object is an object schema; a value that was there is kept,
/// sanitized, and one that was added is `false`.
pub proof fn lemma_sanitize_additional_properties(es: Seq<(Seq<char>, Json)>)
    ensures
        has_key(sanitize_object(es), "additionalProperties"@) == (has_key(
            es,
            "additionalProperties"@,
        ) || is_object_schema(es)),
        has_key(es, "additionalProperties"@) ==> lookup(
            sanitize_object(es),
            "additionalProperties"@,
        ) == sanitize_opt(lookup(es, "additionalProperties"@)),
        !has_key(es, "additionalProperties"@) && is_object_schema(es) ==> lookup(
            sanitize_object(es),
            "additionalProperties"@,
        ) == Some(Json::Bool(false)),
{
    let any = has_key(es, "anyOf"@);
    let kept = sanitize_entries(es, any);
    lemma_keywords();
    lemma_plain_lookup(es, any, "additionalProperties"@);
    if is_object_schema(es) && !has_key(es, "additionalProperties"@) {
        let out = kept.push(("additionalProperties"@, Json::Bool(false)));
        assert(out.drop_last() =~= kept);
        crate::json::lemma_lookup(kept, "additionalProperties"@);
        assert(out[out.len() - 1].0 == "additionalProperties"@);
    }
}

/// Sanitizing never brings in a `$ref`: a sanitized document that has one
/// was given one.
pub proof fn lemma_sanitize_adds_no_ref(j: Json)
    ensures
        has_ref(sanitize(j)) ==> has_ref(j),
    decreases j, 2int,
{
    match j {
        Json::Array(xs) => {
            assert(decreases_to!(j => j->Array_0));
            lemma_all_add_no_ref(xs);
            assert(sanitize(j) == Json::Array(sanitize_all(xs)));
            assert(has_ref(Json::Array(sanitize_all(xs))) == any_has_ref(sanitize_all(xs)));
            assert(has_ref(j) == any_has_ref(xs));
        },
        Json::Object(es) => {
            assert(decreases_to!(j => j->Object_0));
            let any = has_key(es, "anyOf"@);
            let kept = sanitize_entries(es, any);
            lemma_entries_add_no_ref(es, any);
            lemma_keywords();
            lemma_plain_lookup(es, any, "$ref"@);
            if is_object_schema(es) && !has_key(es, "additionalProperties"@) {
                let addl = ("additionalProperties"@, Json::Bool(false));
                let out = kept.push(addl);
                assert(out.drop_last() =~= kept);
                assert(out.last() == addl);
                assert(!has_ref(addl.1));
                assert(any_entry_has_ref(out) == any_entry_has_ref(kept));
                lemma_push_other(kept, addl, "$ref"@);
            }
            assert(sanitize(j) == Json::Object(sanitize_object(es)));
            assert(has_ref(j) == (has_key(es, "$ref"@) || any_entry_has_ref(es)));
        },
        _ => {},
    }
}

/// No sanitized element has a `$ref` that the elements did not have.
proof fn lemma_all_add_no_ref(xs: Seq<Json>)
    ensures
        any_has_ref(sanitize_all(xs)) ==> any_has_ref(xs),
    decreases xs, 0int,
{
    if xs.len() > 0 {
        let p = xs.drop_last();
        lemma_all_add_no_ref(p);
        assert(decreases_to!(xs => xs[xs.len() - 1]));
        lemma_sanitize_adds_no_ref(xs.last());
        let a = sanitize_all(p);
        assert(a.push(sanitize(xs.last())).drop_last() =~= a);
    }
}

/// No sanitized entry's value has a `$ref` that the entries' values did
/// not have.
proof fn lemma_entries_add_no_ref(es: Seq<(Seq<char>, Json)>, any_of_present: bool)
    ensures
        any_entry_has_ref(sanitize_entries(es, any_of_present)) ==> any_entry_has_ref(es),
    decreases es, 0int,
{
    if es.len() > 0 {
        let p = es.drop_last();
        lemma_entries_add_no_ref(p, any_of_present);
        let before = sanitize_entries(p, any_of_present);
        let last = es.last();
        match surviving_key(last.0, last.1, any_of_present) {
            Some(k) => {
                assert(decreases_to!(es => es[es.len() - 1]));
                assert(decreases_to!(es[es.len() - 1] => es[es.len() - 1].1));
                lemma_sanitize_adds_no_ref(last.1);
                let out = before.push((k, sanitize(last.1)));
                assert(out.drop_last() =~= before);
            },
            None => {},
        }
    }
}

/// Exactly nine keywords are stripped by name: any other key of an object,
/// apart from the ones with rules of their own (`minItems`, `oneOf`,
/// `anyOf`, `additionalProperties`), is there after sanitizing exactly when
/// it was before, holding its value sanitized. So `format`, `pattern`,
/// `enum`, `default`, `description` and the like all survive.
pub proof fn lemma_sanitize_strips_only_nine(es: Seq<(Seq<char>, Json)>, k: Seq<char>)
    requires
        k != "minimum"@,
        k != "maximum"@,
        k != "exclusiveMinimum"@,
        k != "exclusiveMaximum"@,
        k != "multipleOf"@,
        k != "minLength"@,
        k != "maxLength"@,
        k != "maxItems"@,
        k != "uniqueItems"@,
        k != "minItems"@,
        k != "oneOf"@,
        k != "anyOf"@,
        k != "additionalProperties"@,
    ensures
        lookup(sanitize_object(es), k) == sanitize_opt(lookup(es, k)),
        has_key(sanitize_object(es), k) == has_key(es, k),
{
    lemma_sanitize_keeps_keyword(es, k);
}

/// Each of the nine unsupported keywords is gone from a sanitized object.
pub proof fn lemma_sanitize_strips_nine(es: Seq<(Seq<char>, Json)>, k: Seq<char>)
    requires
        k == "minimum"@ || k == "maximum"@ || k == "exclusiveMinimum"@ || k
            == "exclusiveMaximum"@ || k == "multipleOf"@ || k == "minLength"@ || k
            == "maxLength"@ || k == "maxItems"@ || k == "uniqueItems"@,
    ensures
        !has_key(sanitize_object(es), k),
{
    let any = has_key(es, "anyOf"@);
    let kept = sanitize_entries(es, any);
    lemma_keywords();
    if has_key(kept, k) {
        lemma_survivor_origin(es, any, k);
        let m = choose|m: int|
            0 <= m < es.len() && #[trigger] surviving_key(es[m].0, es[m].1, any) == Some(k);
        assert(surviving_key(es[m].0, es[m].1, any) == Some(k));
    }
    if is_object_schema(es) && !has_key(es, "additionalProperties"@) {
        lemma_push_other(kept, ("additionalProperties"@, Json::Bool(false)), k);
    }
}

/// `additionalProperties: false` is added to an object that lacks it
/// exactly when the object has `properties` (whatever its `type`) or its
/// `type` is the string `"object"`; otherwise whether the key is there does
/// not change.
pub proof fn lemma_sanitize_closes_objects(es: Seq<(Seq<char>, Json)>)
    ensures
        has_key(es, "properties"@) && !has_key(es, "additionalProperties"@) ==> lookup(
            sanitize_object(es),
            "additionalProperties"@,
        ) == Some(Json::Bool(false)),
        lookup(es, "type"@) == Some(Json::Str("object"@)) && !has_key(
            es,
            "additionalProperties"@,
        ) ==> lookup(sanitize_object(es), "additionalProperties"@) == Some(Json::Bool(false)),
        !has_key(es, "properties"@) && lookup(es, "type"@) != Some(Json::Str("object"@))
            ==> has_key(sanitize_object(es), "additionalProperties"@) == has_key(
            es,
            "additionalProperties"@,
        ),
{
    lemma_sanitize_additional_properties(es);
}

/// An array has a `$ref` exactly when one of its elements has one.
proof fn lemma_any_has_ref(xs: Seq<Json>)
    ensures
        any_has_ref(xs) == exists|i: int| 0 <= i < xs.len() && #[trigger] has_ref(xs[i]),
    decreases xs.len(),
{
    if xs.len() > 0 {
        let p = xs.drop_last();
        lemma_any_has_ref(p);
        if has_ref(xs.last()) {
            assert(has_ref(xs[xs.len() - 1]));
        }
        if exists|i: int| 0 <= i < p.len() && #[trigger] has_ref(p[i]) {
            let i = choose|i: int| 0 <= i < p.len() && #[trigger] has_ref(p[i]);
            assert(has_ref(xs[i]));
        }
        if exists|i: int| 0 <= i < xs.len() && #[trigger] has_ref(xs[i]) {
            let i = choose|i: int| 0 <= i < xs.len() && #[trigger] has_ref(xs[i]);
            if i < p.len() {
                assert(has_ref(p[i]));
            }
        }
    }
}

/// Some entry's value has a `$ref` exactly when one of them does.
proof fn lemma_any_entry_has_ref(es: Seq<(Seq<char>, Json)>)
    ensures
        any_entry_has_ref(es) == exists|i: int| 0 <= i < es.len() && #[trigger] has_ref(es[i].1),
    decreases es.len(),
{
    if es.len() > 0 {
        let p = es.drop_last();
        lemma_any_entry_has_ref(p);
        if has_ref(es.last().1) {
            assert(has_ref(es[es.len() - 1].1));
        }
        if exists|i: int| 0 <= i < p.len() && #[trigger] has_ref(p[i].1) {
            let i = choose|i: int| 0 <= i < p.len() && #[trigger] has_ref(p[i].1);
            assert(has_ref(es[i].1));
        }
        if exists|i: int| 0 <= i < es.len() && #[trigger] has_ref(es[i].1) {
            let i = choose|i: int| 0 <= i < es.len() && #[trigger] has_ref(es[i].1);
            if i < p.len() {
                assert(has_ref(p[i].1));
            }
        }
    }
}

/// Where a `$ref` is found: an array has one exactly when some element (at
/// any index) has one; an object exactly when one of its keys is `$ref` or
/// some value (at any index) has one; a scalar never.
pub proof fn lemma_has_ref_anywhere(j: Json)
    ensures
        j matches Json::Array(xs) ==> (has_ref(j) == exists|i: int|
            0 <= i < xs.len() && #[trigger] has_ref(xs[i])),
        j matches Json::Object(es) ==> (has_ref(j) == ((exists|i: int|
            0 <= i < es.len() && #[trigger] es[i].0 == "$ref"@) || exists|i: int|
            0 <= i < es.len() && #[trigger] has_ref(es[i].1))),
        !(j is Array || j is Object) ==> !has_ref(j),
{
    match j {
        Json::Array(xs) => lemma_any_has_ref(xs),
        Json::Object(es) => lemma_any_entry_has_ref(es),
        _ => {},
    }
}

/// Sanitizing leaves scalars as they are, and sanitizes an array element by
/// element: same length, each element sanitized in its place.
pub proof fn lemma_sanitize_shape(j: Json)
    ensures
        !(j is Array || j is Object) ==> sanitize(j) == j,
        j matches Json::Array(xs) ==> (sanitize(j) matches Json::Array(ys) && ys.len() == xs.len()
            && forall|i: int| 0 <= i < xs.len() ==> #[trigger] ys[i] == sanitize(xs[i])),
        j is Object ==> sanitize(j) is Object,
{
    match j {
        Json::Array(xs) => lemma_sanitize_all_shape(xs),
        _ => {},
    }
}

/// `sanitize_all` keeps the length and sanitizes each element in place.
proof fn lemma_sanitize_all_shape(xs: Seq<Json>)
    ensures
        sanitize_all(xs).len() == xs.len(),
        forall|i: int| 0 <= i < xs.len() ==> #[trigger] sanitize_all(xs)[i] == sanitize(xs[i]),
    decreases xs.len(),
{
    if xs.len() > 0 {
        let p = xs.drop_last();
        lemma_sanitize_all_shape(p);
        assert forall|i: int| 0 <= i < xs.len() implies #[trigger] sanitize_all(xs)[i] == sanitize(
            xs[i],
        ) by {
            if i < p.len() {
                assert(sanitize_all(p)[i] == sanitize(p[i]));
            }
        }
    }
}

/// Sanitizing is idempotent: a sanitized schema comes out of sanitizing
/// again unchanged.
pub proof fn lemma_sanitize_idempotent(j: Json)
    ensures
        sanitize(sanitize(j)) == sanitize(j),
    decreases j, 2int,
{
    match j {
        Json::Array(xs) => {
            assert(decreases_to!(j => j->Array_0));
            lemma_all_idempotent(xs);
        },
        Json::Object(es) => {
            assert(decreases_to!(j => j->Object_0));
            lemma_object(es);
            let es2 = sanitize_object(es);
            lemma_settled_fixed(es2, has_key(es2, "anyOf"@));
        },
        _ => {},
    }
}

/// Sanitizing every element twice is sanitizing them once.
proof fn lemma_all_idempotent(xs: Seq<Json>)
    ensures
        sanitize_all(sanitize_all(xs)) == sanitize_all(xs),
    decreases xs, 0int,
{
    if xs.len() > 0 {
        let p = xs.drop_last();
        lemma_all_idempotent(p);
        assert(decreases_to!(xs => xs[xs.len() - 1]));
        lemma_sanitize_idempotent(xs.last());
        let a = sanitize_all(p);
        let y = sanitize(xs.last());
        assert(a.push(y).drop_last() =~= a);
    }
}

/// What sanitizing returns lies in the accepted subset: at no depth does it
/// hold an unsupported keyword, a `oneOf` or a `minItems` other than 0 or 1, and
/// every object schema in it sets `additionalProperties`.
pub proof fn lemma_sanitize_conforms(j: Json)
    ensures
        conforms(sanitize(j)),
    decreases j, 2int,
{
    match j {
        Json::Array(xs) => {
            assert(decreases_to!(j => j->Array_0));
            lemma_all_conform(xs);
        },
        Json::Object(es) => {
            assert(decreases_to!(j => j->Object_0));
            lemma_object(es);
            let es2 = sanitize_object(es);
            lemma_entries_conform(es2);
        },
        _ => {},
    }
}

/// Every sanitized element conforms.
proof fn lemma_all_conform(xs: Seq<Json>)
    ensures
        all_conform(sanitize_all(xs)),
    decreases xs, 0int,
{
    if xs.len() > 0 {
        let p = xs.drop_last();
        lemma_all_conform(p);
        assert(decreases_to!(xs => xs[xs.len() - 1]));
        lemma_sanitize_conforms(xs.last());
        let a = sanitize_all(p);
        let y = sanitize(xs.last());
        assert(a.push(y).drop_last() =~= a);
    }
}

} // verus!
