//! Rewriting JSON documents: member names between camel and snake case, and
//! schema definitions that only alias a primitive type.
use vstd::prelude::*;
use crate::json::{
    Json, JsonValue, entries_view, items_view, first_index, keys_of, assoc_get, json_size,
    entries_size, items_size, lemma_entry_smaller, lemma_item_smaller, lemma_object_view,
    lemma_array_view, lemma_first_index, lemma_first_index_bounds, lemma_first_index_min,
    lemma_assoc_get_push,
};
use crate::text::{
    separated_case, seq_lt, str_eq, str_lt, to_snake_case, is_ascii_alnum, lemma_seq_lt_irreflexive,
    lemma_seq_lt_total, lemma_seq_lt_transitive, lemma_separated_case_idempotent,
};
use crate::wit::ref_name;

verus! {

// ---------------------------------------------------------------------------
// Sorted objects
// ---------------------------------------------------------------------------
/// `entries` with member `k` set to `v`, as a sorted map does it: an entry
/// with key `k` has its value replaced; otherwise the entry goes before the
/// first entry whose key sorts after `k`.
pub open spec fn map_insert(entries: Seq<(Seq<char>, JsonValue)>, k: Seq<char>, v: JsonValue) -> Seq<
    (Seq<char>, JsonValue),
>
    decreases entries.len(),
{
    if entries.len() == 0 {
        seq![(k, v)]
    } else if entries[0].0 == k {
        seq![(k, v)] + entries.drop_first()
    } else if seq_lt(k, entries[0].0) {
        seq![(k, v)] + entries
    } else {
        seq![entries[0]] + map_insert(entries.drop_first(), k, v)
    }
}

proof fn lemma_map_insert_skip(entries: Seq<(Seq<char>, JsonValue)>, k: Seq<char>, v: JsonValue, i: int)
    requires
        0 <= i <= entries.len(),
        forall|j: int| 0 <= j < i ==> #[trigger] entries[j].0 != k && !seq_lt(k, entries[j].0),
    ensures
        map_insert(entries, k, v) == entries.take(i) + map_insert(entries.skip(i), k, v),
    decreases i,
{
    if i == 0 {
        assert(entries.skip(0) =~= entries);
        assert(entries.take(0) + map_insert(entries, k, v) =~= map_insert(entries, k, v));
    } else {
        let rest = entries.drop_first();
        assert forall|j: int| 0 <= j < i - 1 implies #[trigger] rest[j].0 != k && !seq_lt(
            k,
            rest[j].0,
        ) by {
            assert(rest[j] == entries[j + 1]);
        }
        lemma_map_insert_skip(rest, k, v, i - 1);
        assert(rest.skip(i - 1) =~= entries.skip(i));
        assert(seq![entries[0]] + (rest.take(i - 1) + map_insert(entries.skip(i), k, v))
            =~= entries.take(i) + map_insert(entries.skip(i), k, v));
    }
}

/// Sets member `k` of the sorted entries to `v`.
fn insert_sorted(entries: &mut Vec<(String, Json)>, k: String, v: Json)
    ensures
        entries_view(final(entries)@) == map_insert(entries_view(old(entries)@), k@, v@),
{
    let ghost ev = entries_view(entries@);
    let mut i: usize = 0;
    while i < entries.len()
        invariant
            i <= entries@.len(),
            ev == entries_view(entries@),
            entries@ == old(entries)@,
            forall|j: int| 0 <= j < i ==> #[trigger] ev[j].0 != k@ && !seq_lt(k@, ev[j].0),
        decreases entries@.len() - i,
    {
        let same = str_eq(entries[i].0.as_str(), k.as_str());
        if same || str_lt(k.as_str(), entries[i].0.as_str()) {
            proof {
                lemma_map_insert_skip(ev, k@, v@, i as int);
                assert(ev.skip(i as int)[0] == ev[i as int]);
            }
            let ghost vv = v@;
            let ghost kv = k@;
            if same {
                entries.set(i, (k, v));
                assert(entries_view(entries@) =~= ev.take(i as int) + (seq![(kv, vv)] + ev.skip(
                    i as int,
                ).drop_first()));
            } else {
                entries.insert(i, (k, v));
                assert(entries_view(entries@) =~= ev.take(i as int) + (seq![(kv, vv)] + ev.skip(
                    i as int,
                )));
            }
            return;
        }
        i = i + 1;
    }
    proof {
        lemma_map_insert_skip(ev, k@, v@, i as int);
        assert(ev.skip(i as int) =~= Seq::<(Seq<char>, JsonValue)>::empty());
    }
    let ghost vv = v@;
    let ghost kv = k@;
    entries.push((k, v));
    assert(entries_view(entries@) =~= ev.take(i as int) + seq![(kv, vv)]);
}

// ---------------------------------------------------------------------------
// Snake-case member names
// ---------------------------------------------------------------------------
/// `j` with every member name, at every depth, in snake case; members whose
/// names meet after the change keep the value of the last of them.
pub open spec fn snake_keys(j: JsonValue) -> JsonValue
    decreases json_size(j), 1nat, 0nat,
{
    match j {
        JsonValue::Object(entries) => JsonValue::Object(
            snake_entries(entries, entries.len()),
        ),
        JsonValue::Array(items) => JsonValue::Array(snake_items(items, items.len())),
        _ => j,
    }
}

pub open spec fn snake_entries(entries: Seq<(Seq<char>, JsonValue)>, n: nat) -> Seq<
    (Seq<char>, JsonValue),
>
    decreases entries_size(entries) + 1, 0nat, n,
{
    if n == 0 || n > entries.len() {
        Seq::empty()
    } else {
        proof {
            lemma_entry_smaller(entries, n - 1);
        }
        map_insert(
            snake_entries(entries, (n - 1) as nat),
            separated_case(entries[n - 1].0, '_'),
            snake_keys(entries[n - 1].1),
        )
    }
}

pub open spec fn snake_items(items: Seq<JsonValue>, n: nat) -> Seq<JsonValue>
    decreases items_size(items) + 1, 0nat, n,
{
    if n == 0 || n > items.len() {
        Seq::empty()
    } else {
        proof {
            lemma_item_smaller(items, n - 1);
        }
        snake_items(items, (n - 1) as nat).push(snake_keys(items[n - 1]))
    }
}

fn snake_keys_exec(j: &Json) -> (r: Json)
    ensures
        r@ == snake_keys(j@),
    decreases json_size(j@),
{
    match j {
        Json::Object(entries) => {
            proof {
                lemma_object_view(*j);
            }
            let ghost ev = entries_view(entries@);
            let mut out: Vec<(String, Json)> = Vec::new();
            let mut i: usize = 0;
            while i < entries.len()
                invariant
                    i <= entries@.len(),
                    ev == entries_view(entries@),
                    j@ == JsonValue::Object(ev),
                    entries_view(out@) == snake_entries(ev, i as nat),
                decreases entries@.len() - i,
            {
                proof {
                    lemma_entry_smaller(ev, i as int);
                }
                let k = to_snake_case(entries[i].0.as_str());
                let v = snake_keys_exec(&entries[i].1);
                insert_sorted(&mut out, k, v);
                i = i + 1;
            }
            let r = Json::Object(out);
            proof {
                lemma_object_view(r);
            }
            r
        },
        Json::Array(items) => {
            proof {
                lemma_array_view(*j);
            }
            let ghost iv = items_view(items@);
            let mut out: Vec<Json> = Vec::new();
            let mut i: usize = 0;
            while i < items.len()
                invariant
                    i <= items@.len(),
                    iv == items_view(items@),
                    j@ == JsonValue::Array(iv),
                    items_view(out@) == snake_items(iv, i as nat),
                decreases items@.len() - i,
            {
                proof {
                    lemma_item_smaller(iv, i as int);
                }
                let v = snake_keys_exec(&items[i]);
                let ghost before = out@;
                out.push(v);
                assert(items_view(out@) =~= items_view(before).push(v@));
                i = i + 1;
            }
            let r = Json::Array(out);
            proof {
                lemma_array_view(r);
            }
            r
        },
        _ => j.copy(),
    }
}

/// Rewrites every member name of `value`, at every depth, in snake case.
pub fn normalize_json_keys_to_snake(value: &mut Json)
    ensures
        final(value)@ == snake_keys(old(value)@),
        well_sorted(final(value)@),
{
    let r = snake_keys_exec(value);
    proof {
        lemma_snake_keys_shape(value@);
    }
    *value = r;
}


// ---------------------------------------------------------------------------
// Member names back to the shape of a schema
// ---------------------------------------------------------------------------
/// The last property name of `props` whose snake case is `canonical`.
pub open spec fn schema_key_for(props: Seq<(Seq<char>, JsonValue)>, canonical: Seq<char>) -> Option<
    Seq<char>,
>
    decreases props.len(),
{
    if props.len() == 0 {
        None
    } else if separated_case(props.last().0, '_') == canonical {
        Some(props.last().0)
    } else {
        schema_key_for(props.drop_last(), canonical)
    }
}

/// The name a member `key` takes under a schema with properties `props`: the
/// property of the same snake case, or `key` itself.
pub open spec fn remapped_key(props: Seq<(Seq<char>, JsonValue)>, key: Seq<char>) -> Seq<char> {
    match schema_key_for(props, separated_case(key, '_')) {
        Some(k) => k,
        None => key,
    }
}

pub open spec fn or_null(v: Option<JsonValue>) -> JsonValue {
    match v {
        Some(s) => s,
        None => JsonValue::Null,
    }
}

/// `j` with the member names of its objects, at every depth, renamed to the
/// schema's property names of the same snake case.
pub open spec fn remap_keys(j: JsonValue, schema: JsonValue) -> JsonValue
    decreases json_size(j), 1nat, 0nat,
{
    match j {
        JsonValue::Object(entries) => match schema.get_object("properties"@) {
            Some(props) => JsonValue::Object(remap_entries(entries, props, entries.len())),
            None => JsonValue::Object(remap_values(entries, entries.len())),
        },
        JsonValue::Array(items) => JsonValue::Array(
            remap_items(items, or_null(schema.get("items"@)), items.len()),
        ),
        _ => j,
    }
}

pub open spec fn remap_entries(
    entries: Seq<(Seq<char>, JsonValue)>,
    props: Seq<(Seq<char>, JsonValue)>,
    n: nat,
) -> Seq<(Seq<char>, JsonValue)>
    decreases entries_size(entries) + 1, 0nat, n,
{
    if n == 0 || n > entries.len() {
        Seq::empty()
    } else {
        proof {
            lemma_entry_smaller(entries, n - 1);
        }
        let key = remapped_key(props, entries[n - 1].0);
        map_insert(
            remap_entries(entries, props, (n - 1) as nat),
            key,
            remap_keys(entries[n - 1].1, or_null(assoc_get(props, key))),
        )
    }
}

pub open spec fn remap_values(entries: Seq<(Seq<char>, JsonValue)>, n: nat) -> Seq<
    (Seq<char>, JsonValue),
>
    decreases entries_size(entries) + 1, 0nat, n,
{
    if n == 0 || n > entries.len() {
        Seq::empty()
    } else {
        proof {
            lemma_entry_smaller(entries, n - 1);
        }
        remap_values(entries, (n - 1) as nat).push(
            (entries[n - 1].0, remap_keys(entries[n - 1].1, JsonValue::Null)),
        )
    }
}

pub open spec fn remap_items(items: Seq<JsonValue>, schema: JsonValue, n: nat) -> Seq<JsonValue>
    decreases items_size(items) + 1, 0nat, n,
{
    if n == 0 || n > items.len() {
        Seq::empty()
    } else {
        proof {
            lemma_item_smaller(items, n - 1);
        }
        remap_items(items, schema, (n - 1) as nat).push(remap_keys(items[n - 1], schema))
    }
}

fn schema_key_exec(props: &Vec<(String, Json)>, canonical: &str) -> (r: Option<String>)
    ensures
        r matches Some(k) ==> schema_key_for(entries_view(props@), canonical@) == Some(k@),
        r is None ==> schema_key_for(entries_view(props@), canonical@) is None,
{
    let ghost pv = entries_view(props@);
    let mut k: usize = props.len();
    assert(pv.take(k as int) =~= pv);
    while k > 0
        invariant
            k <= props@.len(),
            pv == entries_view(props@),
            schema_key_for(pv, canonical@) == schema_key_for(pv.take(k as int), canonical@),
        decreases k,
    {
        let snake = to_snake_case(props[k - 1].0.as_str());
        assert(pv.take(k as int).drop_last() =~= pv.take(k - 1));
        if str_eq(snake.as_str(), canonical) {
            return Some(props[k - 1].0.clone());
        }
        k = k - 1;
    }
    None
}

fn find_member<'a>(entries: &'a Vec<(String, Json)>, key: &str) -> (r: Option<&'a Json>)
    ensures
        r matches Some(v) ==> assoc_get(entries_view(entries@), key@) == Some(v@),
        r is None ==> assoc_get(entries_view(entries@), key@) is None,
{
    let ghost ev = entries_view(entries@);
    assert(keys_of(ev) =~= crate::json::string_keys(entries@));
    match crate::json::find_key(entries, key) {
        Some(i) => {
            proof {
                lemma_first_index_bounds(keys_of(ev), key@);
            }
            Some(&entries[i].1)
        },
        None => None,
    }
}

fn remap_exec(j: &Json, schema: &Json) -> (r: Json)
    ensures
        r@ == remap_keys(j@, schema@),
    decreases json_size(j@),
{
    match j {
        Json::Object(entries) => {
            proof {
                lemma_object_view(*j);
            }
            let ghost ev = entries_view(entries@);
            let mut out: Vec<(String, Json)> = Vec::new();
            let mut i: usize = 0;
            match schema.get("properties") {
                Some(p) => match p.as_object() {
                    Some(props) => {
                        let ghost pv = entries_view(props@);
                        while i < entries.len()
                            invariant
                                i <= entries@.len(),
                                ev == entries_view(entries@),
                                pv == entries_view(props@),
                                j@ == JsonValue::Object(ev),
                                schema@.get_object("properties"@) == Some(pv),
                                entries_view(out@) == remap_entries(ev, pv, i as nat),
                            decreases entries@.len() - i,
                        {
                            proof {
                                lemma_entry_smaller(ev, i as int);
                            }
                            let key = &entries[i].0;
                            let canonical = to_snake_case(key.as_str());
                            let remapped = match schema_key_exec(props, canonical.as_str()) {
                                Some(k) => k,
                                None => key.clone(),
                            };
                            let nested = match find_member(props, remapped.as_str()) {
                                Some(nested_schema) => remap_exec(&entries[i].1, nested_schema),
                                None => remap_exec(&entries[i].1, &Json::Null),
                            };
                            insert_sorted(&mut out, remapped, nested);
                            i = i + 1;
                        }
                        let r = Json::Object(out);
                        proof {
                            lemma_object_view(r);
                        }
                        return r;
                    },
                    None => {},
                },
                None => {},
            }
            while i < entries.len()
                invariant
                    i <= entries@.len(),
                    ev == entries_view(entries@),
                    j@ == JsonValue::Object(ev),
                    schema@.get_object("properties"@) is None,
                    entries_view(out@) == remap_values(ev, i as nat),
                decreases entries@.len() - i,
            {
                proof {
                    lemma_entry_smaller(ev, i as int);
                }
                let nested = remap_exec(&entries[i].1, &Json::Null);
                let ghost before = out@;
                out.push((entries[i].0.clone(), nested));
                assert(entries_view(out@) =~= entries_view(before).push(
                    (entries@[i as int].0@, nested@),
                ));
                i = i + 1;
            }
            let r = Json::Object(out);
            proof {
                lemma_object_view(r);
            }
            r
        },
        Json::Array(items) => {
            proof {
                lemma_array_view(*j);
            }
            let ghost iv = items_view(items@);
            let null = Json::Null;
            let item_schema: &Json = match schema.get("items") {
                Some(s) => s,
                None => &null,
            };
            let mut out: Vec<Json> = Vec::new();
            let mut i: usize = 0;
            while i < items.len()
                invariant
                    i <= items@.len(),
                    iv == items_view(items@),
                    j@ == JsonValue::Array(iv),
                    item_schema@ == or_null(schema@.get("items"@)),
                    items_view(out@) == remap_items(iv, item_schema@, i as nat),
                decreases items@.len() - i,
            {
                proof {
                    lemma_item_smaller(iv, i as int);
                }
                let v = remap_exec(&items[i], item_schema);
                let ghost before = out@;
                out.push(v);
                assert(items_view(out@) =~= items_view(before).push(v@));
                i = i + 1;
            }
            let r = Json::Array(out);
            proof {
                lemma_array_view(r);
            }
            r
        },
        _ => j.copy(),
    }
}

/// Renames the member names of `value`, at every depth, to the property names
/// of the same snake case that `schema` gives at that place.
pub fn remap_json_keys_to_schema(value: &mut Json, schema: &Json)
    ensures
        final(value)@ == remap_keys(old(value)@, schema@),
        well_sorted(old(value)@) ==> well_sorted(final(value)@),
{
    let r = remap_exec(value, schema);
    proof {
        if well_sorted(value@) {
            lemma_remap_keeps_sorted(value@, schema@);
        }
    }
    *value = r;
}


// ---------------------------------------------------------------------------
// Definitions that only alias a primitive type
// ---------------------------------------------------------------------------
/// Whether a schema is an object whose only member is a `type` of `string`,
/// `integer`, `number` or `boolean`.
pub open spec fn is_trivial_alias(schema: JsonValue) -> bool {
    match schema {
        JsonValue::Object(entries) => entries.len() == 1 && match schema.get_str("type"@) {
            Some(t) => t == "string"@ || t == "integer"@ || t == "number"@ || t == "boolean"@,
            None => false,
        },
        _ => false,
    }
}

/// The last trivial alias among `defs` whose reference name is `name`.
pub open spec fn trivial_alias_for(defs: Seq<(Seq<char>, JsonValue)>, name: Seq<char>) -> Option<
    JsonValue,
>
    decreases defs.len(),
{
    if defs.len() == 0 {
        None
    } else if is_trivial_alias(defs.last().1) && ref_name(defs.last().0) == name {
        Some(defs.last().1)
    } else {
        trivial_alias_for(defs.drop_last(), name)
    }
}

/// The alias that an object's `$ref` points at, if it points at one.
pub open spec fn ref_alias(j: JsonValue, defs: Seq<(Seq<char>, JsonValue)>) -> Option<JsonValue> {
    match j.get_str("$ref"@) {
        Some(reference) => trivial_alias_for(defs, ref_name(reference)),
        None => None,
    }
}

/// `j` with every object, at every depth, whose `$ref` points at a trivial
/// alias of `defs` replaced by that alias.
pub open spec fn inline_aliases(j: JsonValue, defs: Seq<(Seq<char>, JsonValue)>) -> JsonValue
    decreases json_size(j), 1nat, 0nat,
{
    match j {
        JsonValue::Object(entries) => match ref_alias(j, defs) {
            Some(alias) => alias,
            None => JsonValue::Object(inline_values(entries, defs, entries.len())),
        },
        JsonValue::Array(items) => JsonValue::Array(inline_items(items, defs, items.len())),
        _ => j,
    }
}

pub open spec fn inline_values(
    entries: Seq<(Seq<char>, JsonValue)>,
    defs: Seq<(Seq<char>, JsonValue)>,
    n: nat,
) -> Seq<(Seq<char>, JsonValue)>
    decreases entries_size(entries) + 1, 0nat, n,
{
    if n == 0 || n > entries.len() {
        Seq::empty()
    } else {
        proof {
            lemma_entry_smaller(entries, n - 1);
        }
        inline_values(entries, defs, (n - 1) as nat).push(
            (entries[n - 1].0, inline_aliases(entries[n - 1].1, defs)),
        )
    }
}

pub open spec fn inline_items(items: Seq<JsonValue>, defs: Seq<(Seq<char>, JsonValue)>, n: nat) -> Seq<
    JsonValue,
>
    decreases items_size(items) + 1, 0nat, n,
{
    if n == 0 || n > items.len() {
        Seq::empty()
    } else {
        proof {
            lemma_item_smaller(items, n - 1);
        }
        inline_items(items, defs, (n - 1) as nat).push(inline_aliases(items[n - 1], defs))
    }
}

/// The definitions of `kept` whose reference names are not trivial aliases
/// of `defs`.
pub open spec fn drop_aliases(kept: Seq<(Seq<char>, JsonValue)>, defs: Seq<(Seq<char>, JsonValue)>) -> Seq<
    (Seq<char>, JsonValue),
>
    decreases kept.len(),
{
    if kept.len() == 0 {
        Seq::empty()
    } else if trivial_alias_for(defs, ref_name(kept.last().0)) is Some {
        drop_aliases(kept.drop_last(), defs)
    } else {
        drop_aliases(kept.drop_last(), defs).push(kept.last())
    }
}

pub open spec fn has_trivial_alias(defs: Seq<(Seq<char>, JsonValue)>) -> bool {
    exists|i: int| 0 <= i < defs.len() && is_trivial_alias(#[trigger] defs[i].1)
}

/// `schema` with its trivial aliases inlined where they are referenced and
/// removed from its `$defs`; unchanged when it defines none.
pub open spec fn without_trivial_aliases(schema: JsonValue) -> JsonValue {
    let defs = match schema.get_object("$defs"@) {
        Some(d) => d,
        None => Seq::empty(),
    };
    if !has_trivial_alias(defs) {
        schema
    } else {
        let inlined = inline_aliases(schema, defs);
        match inlined {
            JsonValue::Object(entries) => match first_index(keys_of(entries), "$defs"@) {
                Some(k) => match entries[k].1 {
                    JsonValue::Object(rest) => JsonValue::Object(
                        entries.update(k, (entries[k].0, JsonValue::Object(drop_aliases(rest, defs)))),
                    ),
                    _ => inlined,
                },
                None => inlined,
            },
            _ => inlined,
        }
    }
}

fn is_trivial_alias_exec(schema: &Json) -> (r: bool)
    ensures
        r == is_trivial_alias(schema@),
{
    match schema {
        Json::Object(entries) => {
            proof {
                lemma_object_view(*schema);
            }
            if entries.len() != 1 {
                return false;
            }
            match schema.get("type") {
                Some(t) => match t.as_str() {
                    Some(s) => str_eq(s.as_str(), "string") || str_eq(s.as_str(), "integer")
                        || str_eq(s.as_str(), "number") || str_eq(s.as_str(), "boolean"),
                    None => false,
                },
                None => false,
            }
        },
        _ => false,
    }
}

fn trivial_alias_exec<'a>(defs: &'a Vec<(String, Json)>, name: &str) -> (r: Option<&'a Json>)
    ensures
        r matches Some(v) ==> trivial_alias_for(entries_view(defs@), name@) == Some(v@),
        r is None ==> trivial_alias_for(entries_view(defs@), name@) is None,
{
    let ghost dv = entries_view(defs@);
    let mut k: usize = defs.len();
    assert(dv.take(k as int) =~= dv);
    while k > 0
        invariant
            k <= defs@.len(),
            dv == entries_view(defs@),
            trivial_alias_for(dv, name@) == trivial_alias_for(dv.take(k as int), name@),
        decreases k,
    {
        assert(dv.take(k as int).drop_last() =~= dv.take(k - 1));
        if is_trivial_alias_exec(&defs[k - 1].1) {
            let decoded = crate::wit::decode_ref_name(defs[k - 1].0.as_str());
            if str_eq(decoded.as_str(), name) {
                return Some(&defs[k - 1].1);
            }
        }
        k = k - 1;
    }
    None
}

fn ref_alias_exec<'a>(j: &Json, defs: &'a Vec<(String, Json)>) -> (r: Option<&'a Json>)
    ensures
        r matches Some(v) ==> ref_alias(j@, entries_view(defs@)) == Some(v@),
        r is None ==> ref_alias(j@, entries_view(defs@)) is None,
{
    match j.get("$ref") {
        Some(v) => match v.as_str() {
            Some(reference) => {
                let name = crate::wit::decode_ref_name(reference.as_str());
                trivial_alias_exec(defs, name.as_str())
            },
            None => None,
        },
        None => None,
    }
}

fn inline_exec(j: &Json, defs: &Vec<(String, Json)>) -> (r: Json)
    ensures
        r@ == inline_aliases(j@, entries_view(defs@)),
    decreases json_size(j@),
{
    let ghost dv = entries_view(defs@);
    match j {
        Json::Object(entries) => {
            proof {
                lemma_object_view(*j);
            }
            match ref_alias_exec(j, defs) {
                Some(alias) => {
                    return alias.copy();
                },
                None => {},
            }
            let ghost ev = entries_view(entries@);
            let mut out: Vec<(String, Json)> = Vec::new();
            let mut i: usize = 0;
            while i < entries.len()
                invariant
                    i <= entries@.len(),
                    ev == entries_view(entries@),
                    dv == entries_view(defs@),
                    j@ == JsonValue::Object(ev),
                    entries_view(out@) == inline_values(ev, dv, i as nat),
                decreases entries@.len() - i,
            {
                proof {
                    lemma_entry_smaller(ev, i as int);
                }
                let nested = inline_exec(&entries[i].1, defs);
                let ghost before = out@;
                out.push((entries[i].0.clone(), nested));
                assert(entries_view(out@) =~= entries_view(before).push(
                    (entries@[i as int].0@, nested@),
                ));
                i = i + 1;
            }
            let r = Json::Object(out);
            proof {
                lemma_object_view(r);
            }
            r
        },
        Json::Array(items) => {
            proof {
                lemma_array_view(*j);
            }
            let ghost iv = items_view(items@);
            let mut out: Vec<Json> = Vec::new();
            let mut i: usize = 0;
            while i < items.len()
                invariant
                    i <= items@.len(),
                    iv == items_view(items@),
                    dv == entries_view(defs@),
                    j@ == JsonValue::Array(iv),
                    items_view(out@) == inline_items(iv, dv, i as nat),
                decreases items@.len() - i,
            {
                proof {
                    lemma_item_smaller(iv, i as int);
                }
                let v = inline_exec(&items[i], defs);
                let ghost before = out@;
                out.push(v);
                assert(items_view(out@) =~= items_view(before).push(v@));
                i = i + 1;
            }
            let r = Json::Array(out);
            proof {
                lemma_array_view(r);
            }
            r
        },
        _ => j.copy(),
    }
}

fn drop_aliases_exec(kept: &Vec<(String, Json)>, defs: &Vec<(String, Json)>) -> (r: Vec<
    (String, Json),
>)
    ensures
        entries_view(r@) == drop_aliases(entries_view(kept@), entries_view(defs@)),
{
    let ghost kv = entries_view(kept@);
    let ghost dv = entries_view(defs@);
    let mut out: Vec<(String, Json)> = Vec::new();
    let mut i: usize = 0;
    assert(kv.take(0) =~= Seq::<(Seq<char>, JsonValue)>::empty());
    while i < kept.len()
        invariant
            i <= kept@.len(),
            kv == entries_view(kept@),
            dv == entries_view(defs@),
            entries_view(out@) == drop_aliases(kv.take(i as int), dv),
        decreases kept@.len() - i,
    {
        assert(kv.take(i + 1).drop_last() =~= kv.take(i as int));
        let name = crate::wit::decode_ref_name(kept[i].0.as_str());
        if trivial_alias_exec(defs, name.as_str()).is_none() {
            let ghost before = out@;
            out.push((kept[i].0.clone(), kept[i].1.copy()));
            assert(entries_view(out@) =~= entries_view(before).push(kv[i as int]));
        }
        i = i + 1;
    }
    assert(kv.take(kept@.len() as int) =~= kv);
    out
}

fn has_trivial_alias_exec(defs: &Vec<(String, Json)>) -> (r: bool)
    ensures
        r == has_trivial_alias(entries_view(defs@)),
{
    let ghost dv = entries_view(defs@);
    let mut i: usize = 0;
    while i < defs.len()
        invariant
            i <= defs@.len(),
            dv == entries_view(defs@),
            forall|j: int| 0 <= j < i ==> !is_trivial_alias(#[trigger] dv[j].1),
        decreases defs@.len() - i,
    {
        if is_trivial_alias_exec(&defs[i].1) {
            assert(is_trivial_alias(dv[i as int].1));
            return true;
        }
        i = i + 1;
    }
    false
}

/// Inlines the definitions of `schema` that only alias a primitive type
/// wherever a `$ref` points at them, and removes them from its `$defs`.
pub fn normalize_trivial_aliases(schema: &mut Json)
    ensures
        final(schema)@ == without_trivial_aliases(old(schema)@),
        well_sorted(old(schema)@) ==> well_sorted(final(schema)@),
{
    proof {
        if well_sorted(schema@) {
            lemma_aliases_keep_sorted(schema@);
        }
    }
    let empty: Vec<(String, Json)> = Vec::new();
    let result = {
        let defs: &Vec<(String, Json)> = match schema.get("$defs") {
            Some(d) => match d.as_object() {
                Some(es) => es,
                None => &empty,
            },
            None => &empty,
        };
        let ghost dv = entries_view(defs@);
        assert(dv == match schema@.get_object("$defs"@) {
            Some(d) => d,
            None => Seq::<(Seq<char>, JsonValue)>::empty(),
        }) by {
            if schema@.get_object("$defs"@) is None {
                assert(dv =~= Seq::<(Seq<char>, JsonValue)>::empty());
            }
        }
        if !has_trivial_alias_exec(defs) {
            return;
        }
        let inlined = inline_exec(schema, defs);
        match inlined {
            Json::Object(mut entries) => {
                let ghost ev = entries_view(entries@);
                proof {
                    lemma_object_view(Json::Object(entries));
                    assert(keys_of(ev) =~= crate::json::string_keys(entries@));
                }
                match crate::json::find_key(&entries, "$defs") {
                    Some(k) => {
                        proof {
                            lemma_first_index_bounds(keys_of(ev), "$defs"@);
                        }
                        let kept = match &entries[k].1 {
                            Json::Object(rest) => {
                                proof {
                                    lemma_object_view(entries@[k as int].1);
                                }
                                Some(drop_aliases_exec(rest, defs))
                            },
                            _ => None,
                        };
                        match kept {
                            Some(new_defs) => {
                                let key = entries[k].0.clone();
                                let ghost nd = entries_view(new_defs@);
                                entries.set(k, (key, Json::Object(new_defs)));
                                proof {
                                    lemma_object_view(Json::Object(new_defs));
                                    assert(entries_view(entries@) =~= ev.update(
                                        k as int,
                                        (ev[k as int].0, JsonValue::Object(nd)),
                                    ));
                                    lemma_object_view(Json::Object(entries));
                                }
                                Json::Object(entries)
                            },
                            None => Json::Object(entries),
                        }
                    },
                    None => Json::Object(entries),
                }
            },
            other => other,
        }
    };
    *schema = result;
}


// ---------------------------------------------------------------------------
// Sorted objects: what inserting gives
// ---------------------------------------------------------------------------
/// Whether the keys of `entries` strictly increase.
pub open spec fn sorted_keys(entries: Seq<(Seq<char>, JsonValue)>) -> bool {
    forall|i: int, j: int| 0 <= i < j < entries.len() ==> seq_lt(#[trigger] entries[i].0, #[trigger] entries[j].0)
}

/// The entries of `pairs` inserted in turn into an empty sorted object.
pub open spec fn insert_all(pairs: Seq<(Seq<char>, JsonValue)>) -> Seq<(Seq<char>, JsonValue)>
    decreases pairs.len(),
{
    if pairs.len() == 0 {
        Seq::empty()
    } else {
        map_insert(insert_all(pairs.drop_last()), pairs.last().0, pairs.last().1)
    }
}

/// Whether no two entries of `pairs` have the same key.
pub open spec fn distinct_keys(pairs: Seq<(Seq<char>, JsonValue)>) -> bool {
    forall|i: int, j: int| 0 <= i < j < pairs.len() ==> #[trigger] pairs[i].0 != #[trigger] pairs[j].0
}

proof fn lemma_lt_ne(a: Seq<char>, b: Seq<char>)
    requires
        seq_lt(a, b),
    ensures
        a != b,
{
    lemma_seq_lt_irreflexive(a);
}

/// Inserting into a sorted object keeps it sorted, adds the entry, drops
/// only the old entry of the same key, and keeps every other entry.
pub proof fn lemma_map_insert(entries: Seq<(Seq<char>, JsonValue)>, k: Seq<char>, v: JsonValue)
    requires
        sorted_keys(entries),
    ensures
        sorted_keys(map_insert(entries, k, v)),
        map_insert(entries, k, v).contains((k, v)),
        forall|i: int|
            0 <= i < map_insert(entries, k, v).len() ==> #[trigger] map_insert(entries, k, v)[i] == (k, v)
                || (map_insert(entries, k, v)[i].0 != k && entries.contains(map_insert(entries, k, v)[i])),
        forall|j: int| 0 <= j < entries.len() && #[trigger] entries[j].0 != k ==> map_insert(entries, k, v).contains(entries[j]),
    decreases entries.len(),
{
    let r = map_insert(entries, k, v);
    if entries.len() == 0 {
        assert(r[0] == (k, v));
    } else if entries[0].0 == k {
        let rest = entries.drop_first();
        assert(r[0] == (k, v));
        assert forall|i: int, j: int| 0 <= i < j < r.len() implies seq_lt(#[trigger] r[i].0, #[trigger] r[j].0) by {
            assert(r[j] == entries[j]);
            if i > 0 {
                assert(r[i] == entries[i]);
            }
        }
        assert forall|i: int| 0 <= i < r.len() implies #[trigger] r[i] == (k, v) || (r[i].0 != k && entries.contains(r[i])) by {
            if i > 0 {
                assert(r[i] == entries[i]);
                assert(seq_lt(entries[0].0, entries[i].0));
                lemma_lt_ne(entries[0].0, entries[i].0);
            }
        }
        assert forall|j: int| 0 <= j < entries.len() && #[trigger] entries[j].0 != k implies r.contains(entries[j]) by {
            assert(j > 0);
            assert(r[j] == entries[j]);
        }
    } else if seq_lt(k, entries[0].0) {
        assert(r[0] == (k, v));
        assert forall|i: int, j: int| 0 <= i < j < r.len() implies seq_lt(#[trigger] r[i].0, #[trigger] r[j].0) by {
            assert(r[j] == entries[j - 1]);
            if i > 0 {
                assert(r[i] == entries[i - 1]);
            } else if j > 1 {
                lemma_seq_lt_transitive(k, entries[0].0, entries[j - 1].0);
            }
        }
        assert forall|i: int| 0 <= i < r.len() implies #[trigger] r[i] == (k, v) || (r[i].0 != k && entries.contains(r[i])) by {
            if i > 0 {
                assert(r[i] == entries[i - 1]);
                if i > 1 {
                    lemma_seq_lt_transitive(k, entries[0].0, entries[i - 1].0);
                }
                lemma_lt_ne(k, entries[i - 1].0);
            }
        }
        assert forall|j: int| 0 <= j < entries.len() && #[trigger] entries[j].0 != k implies r.contains(entries[j]) by {
            assert(r[j + 1] == entries[j]);
        }
    } else {
        let rest = entries.drop_first();
        assert(sorted_keys(rest)) by {
            assert forall|i: int, j: int| 0 <= i < j < rest.len() implies seq_lt(#[trigger] rest[i].0, #[trigger] rest[j].0) by {
                assert(rest[i] == entries[i + 1] && rest[j] == entries[j + 1]);
            }
        }
        lemma_map_insert(rest, k, v);
        let t = map_insert(rest, k, v);
        lemma_seq_lt_total(k, entries[0].0);
        assert(seq_lt(entries[0].0, k));
        assert(r == seq![entries[0]] + t);
        assert forall|i: int, j: int| 0 <= i < j < r.len() implies seq_lt(#[trigger] r[i].0, #[trigger] r[j].0) by {
            assert(r[j] == t[j - 1]);
            if i > 0 {
                assert(r[i] == t[i - 1]);
            } else {
                if t[j - 1] != (k, v) {
                    let q = choose|q: int| 0 <= q < rest.len() && rest[q] == t[j - 1];
                    assert(entries[q + 1] == rest[q]);
                }
            }
        }
        assert forall|i: int| 0 <= i < r.len() implies #[trigger] r[i] == (k, v) || (r[i].0 != k && entries.contains(r[i])) by {
            if i == 0 {
                lemma_lt_ne(entries[0].0, k);
                assert(entries[0] == r[0]);
            } else {
                assert(r[i] == t[i - 1]);
                if t[i - 1] != (k, v) {
                    let q = choose|q: int| 0 <= q < rest.len() && rest[q] == t[i - 1];
                    assert(entries[q + 1] == rest[q]);
                }
            }
        }
        assert forall|j: int| 0 <= j < entries.len() && #[trigger] entries[j].0 != k implies r.contains(entries[j]) by {
            if j == 0 {
                assert(r[0] == entries[0]);
            } else {
                assert(rest[j - 1] == entries[j]);
                let q = choose|q: int| 0 <= q < t.len() && t[q] == rest[j - 1];
                assert(r[q + 1] == t[q]);
            }
        }
        assert(t.contains((k, v)));
        let q = choose|q: int| 0 <= q < t.len() && t[q] == (k, v);
        assert(r[q + 1] == t[q]);
    }
}

/// Inserting entries of distinct keys gives a sorted object holding exactly
/// those entries, whatever their order.
pub proof fn lemma_insert_all(pairs: Seq<(Seq<char>, JsonValue)>)
    requires
        distinct_keys(pairs),
    ensures
        sorted_keys(insert_all(pairs)),
        forall|x: (Seq<char>, JsonValue)| #[trigger] insert_all(pairs).contains(x) <==> pairs.contains(x),
    decreases pairs.len(),
{
    if pairs.len() > 0 {
        let p = pairs.drop_last();
        assert(distinct_keys(p)) by {
            assert forall|i: int, j: int| 0 <= i < j < p.len() implies #[trigger] p[i].0 != #[trigger] p[j].0 by {
                assert(p[i] == pairs[i] && p[j] == pairs[j]);
            }
        }
        lemma_insert_all(p);
        let prev = insert_all(p);
        let (k, v) = pairs.last();
        lemma_map_insert(prev, k, v);
        let r = insert_all(pairs);
        assert forall|x: (Seq<char>, JsonValue)| #[trigger] r.contains(x) <==> pairs.contains(x) by {
            if r.contains(x) {
                let i = choose|i: int| 0 <= i < r.len() && r[i] == x;
                if x != (k, v) {
                    assert(prev.contains(x));
                    assert(p.contains(x));
                    let q = choose|q: int| 0 <= q < p.len() && p[q] == x;
                    assert(pairs[q] == x);
                } else {
                    assert(pairs[pairs.len() - 1] == x);
                }
            }
            if pairs.contains(x) {
                let i = choose|i: int| 0 <= i < pairs.len() && pairs[i] == x;
                if i < pairs.len() - 1 {
                    assert(p[i] == x);
                    assert(prev.contains(x));
                    let q = choose|q: int| 0 <= q < prev.len() && prev[q] == x;
                    assert(pairs[i].0 != pairs[pairs.len() - 1].0);
                    assert(prev[q].0 != k);
                }
            }
        }
    }
}

/// Two sorted objects with the same entries are equal.
pub proof fn lemma_sorted_unique(a: Seq<(Seq<char>, JsonValue)>, b: Seq<(Seq<char>, JsonValue)>)
    requires
        sorted_keys(a),
        sorted_keys(b),
        forall|x: (Seq<char>, JsonValue)| a.contains(x) <==> b.contains(x),
    ensures
        a == b,
    decreases a.len(),
{
    if a.len() == 0 {
        if b.len() > 0 {
            assert(b.contains(b[0]));
        }
        assert(a =~= b);
    } else {
        assert(a.contains(a[0]));
        let j = choose|j: int| 0 <= j < b.len() && b[j] == a[0];
        assert(b.contains(b[0]));
        let i = choose|i: int| 0 <= i < a.len() && a[i] == b[0];
        if j > 0 {
            assert(seq_lt(b[0].0, b[j].0));
            if i > 0 {
                assert(seq_lt(a[0].0, a[i].0));
                lemma_seq_lt_total(a[0].0, b[0].0);
            } else {
                lemma_seq_lt_irreflexive(b[0].0);
            }
        }
        assert(j == 0);
        let a2 = a.drop_first();
        let b2 = b.drop_first();
        assert(sorted_keys(a2)) by {
            assert forall|x: int, y: int| 0 <= x < y < a2.len() implies seq_lt(#[trigger] a2[x].0, #[trigger] a2[y].0) by {
                assert(a2[x] == a[x + 1] && a2[y] == a[y + 1]);
            }
        }
        assert(sorted_keys(b2)) by {
            assert forall|x: int, y: int| 0 <= x < y < b2.len() implies seq_lt(#[trigger] b2[x].0, #[trigger] b2[y].0) by {
                assert(b2[x] == b[x + 1] && b2[y] == b[y + 1]);
            }
        }
        assert forall|x: (Seq<char>, JsonValue)| a2.contains(x) <==> b2.contains(x) by {
            if a2.contains(x) {
                let q = choose|q: int| 0 <= q < a2.len() && a2[q] == x;
                assert(a[q + 1] == x);
                assert(b.contains(x));
                let r = choose|r: int| 0 <= r < b.len() && b[r] == x;
                if r == 0 {
                    assert(seq_lt(a[0].0, a[q + 1].0));
                    lemma_seq_lt_irreflexive(a[0].0);
                }
                assert(b2[r - 1] == x);
            }
            if b2.contains(x) {
                let q = choose|q: int| 0 <= q < b2.len() && b2[q] == x;
                assert(b[q + 1] == x);
                assert(a.contains(x));
                let r = choose|r: int| 0 <= r < a.len() && a[r] == x;
                if r == 0 {
                    assert(seq_lt(b[0].0, b[q + 1].0));
                    lemma_seq_lt_irreflexive(b[0].0);
                }
                assert(a2[r - 1] == x);
            }
        }
        lemma_sorted_unique(a2, b2);
        assert(a =~= seq![a[0]] + a2);
        assert(b =~= seq![b[0]] + b2);
    }
}


/// Inserting entries in turn gives a sorted object whose entries are among
/// them.
pub proof fn lemma_insert_all_sorted(pairs: Seq<(Seq<char>, JsonValue)>)
    ensures
        sorted_keys(insert_all(pairs)),
        forall|t: int| 0 <= t < insert_all(pairs).len() ==> pairs.contains(#[trigger] insert_all(pairs)[t]),
    decreases pairs.len(),
{
    if pairs.len() > 0 {
        let p = pairs.drop_last();
        lemma_insert_all_sorted(p);
        let prev = insert_all(p);
        lemma_map_insert(prev, pairs.last().0, pairs.last().1);
        let r = insert_all(pairs);
        assert forall|t: int| 0 <= t < r.len() implies pairs.contains(#[trigger] r[t]) by {
            if r[t] == pairs.last() {
                assert(pairs[pairs.len() - 1] == r[t]);
            } else {
                let q = choose|q: int| 0 <= q < prev.len() && prev[q] == r[t];
                assert(p.contains(prev[q]));
                let w = choose|w: int| 0 <= w < p.len() && p[w] == prev[q];
                assert(pairs[w] == p[w]);
            }
        }
    }
}

// ---------------------------------------------------------------------------
// The folds, entry by entry
// ---------------------------------------------------------------------------
pub open spec fn snake_pairs(entries: Seq<(Seq<char>, JsonValue)>) -> Seq<(Seq<char>, JsonValue)> {
    Seq::new(entries.len(), |i: int| (separated_case(entries[i].0, '_'), snake_keys(entries[i].1)))
}

proof fn lemma_snake_entries_fold(entries: Seq<(Seq<char>, JsonValue)>, n: nat)
    requires
        n <= entries.len(),
    ensures
        snake_entries(entries, n) == insert_all(snake_pairs(entries).take(n as int)),
    decreases n,
{
    if n > 0 {
        lemma_snake_entries_fold(entries, (n - 1) as nat);
        assert(snake_pairs(entries).take(n as int).drop_last() =~= snake_pairs(entries).take(n - 1));
    } else {
        assert(snake_pairs(entries).take(0) =~= Seq::<(Seq<char>, JsonValue)>::empty());
    }
}

pub open spec fn remap_pairs(entries: Seq<(Seq<char>, JsonValue)>, props: Seq<(Seq<char>, JsonValue)>) -> Seq<
    (Seq<char>, JsonValue),
> {
    Seq::new(
        entries.len(),
        |i: int|
            (
                remapped_key(props, entries[i].0),
                remap_keys(entries[i].1, or_null(assoc_get(props, remapped_key(props, entries[i].0)))),
            ),
    )
}

proof fn lemma_remap_entries_fold(entries: Seq<(Seq<char>, JsonValue)>, props: Seq<(Seq<char>, JsonValue)>, n: nat)
    requires
        n <= entries.len(),
    ensures
        remap_entries(entries, props, n) == insert_all(remap_pairs(entries, props).take(n as int)),
    decreases n,
{
    if n > 0 {
        lemma_remap_entries_fold(entries, props, (n - 1) as nat);
        assert(remap_pairs(entries, props).take(n as int).drop_last() =~= remap_pairs(entries, props).take(n - 1));
    } else {
        assert(remap_pairs(entries, props).take(0) =~= Seq::<(Seq<char>, JsonValue)>::empty());
    }
}

proof fn lemma_remap_values_map(entries: Seq<(Seq<char>, JsonValue)>, n: nat)
    requires
        n <= entries.len(),
    ensures
        remap_values(entries, n) == Seq::new(n, |i: int| (entries[i].0, remap_keys(entries[i].1, JsonValue::Null))),
    decreases n,
{
    if n > 0 {
        lemma_remap_values_map(entries, (n - 1) as nat);
    }
    assert(remap_values(entries, n) =~= Seq::new(n, |i: int| (entries[i].0, remap_keys(entries[i].1, JsonValue::Null))));
}

proof fn lemma_snake_items_map(items: Seq<JsonValue>, n: nat)
    requires
        n <= items.len(),
    ensures
        snake_items(items, n) == Seq::new(n, |i: int| snake_keys(items[i])),
    decreases n,
{
    if n > 0 {
        lemma_snake_items_map(items, (n - 1) as nat);
    }
    assert(snake_items(items, n) =~= Seq::new(n, |i: int| snake_keys(items[i])));
}

proof fn lemma_remap_items_map(items: Seq<JsonValue>, schema: JsonValue, n: nat)
    requires
        n <= items.len(),
    ensures
        remap_items(items, schema, n) == Seq::new(n, |i: int| remap_keys(items[i], schema)),
    decreases n,
{
    if n > 0 {
        lemma_remap_items_map(items, schema, (n - 1) as nat);
    }
    assert(remap_items(items, schema, n) =~= Seq::new(n, |i: int| remap_keys(items[i], schema)));
}

// ---------------------------------------------------------------------------
// What normalizing member names gives
// ---------------------------------------------------------------------------
/// Whether `j` is a well-formed JSON value: every object inside it, at any
/// depth, holds its members sorted by name, each name once, as a parsed JSON
/// object always does.
pub open spec fn well_sorted(j: JsonValue) -> bool
    decreases j,
{
    match j {
        JsonValue::Object(entries) => sorted_keys(entries) && forall|i: int|
            0 <= i < entries.len() ==> well_sorted(#[trigger] entries[i].1),
        JsonValue::Array(items) => forall|i: int| 0 <= i < items.len() ==> well_sorted(#[trigger] items[i]),
        _ => true,
    }
}

/// Whether every member name inside `j` is its own snake case.
pub open spec fn snake_named(j: JsonValue) -> bool
    decreases j,
{
    match j {
        JsonValue::Object(entries) => forall|i: int|
            0 <= i < entries.len() ==> separated_case(#[trigger] entries[i].0, '_') == entries[i].0
                && snake_named(entries[i].1),
        JsonValue::Array(items) => forall|i: int| 0 <= i < items.len() ==> snake_named(#[trigger] items[i]),
        _ => true,
    }
}

/// After normalizing, every member name at every depth is in snake case and
/// every object holds its members sorted by name, each name once.
pub proof fn lemma_snake_keys_shape(j: JsonValue)
    ensures
        well_sorted(snake_keys(j)),
        snake_named(snake_keys(j)),
    decreases json_size(j),
{
    match j {
        JsonValue::Object(entries) => {
            lemma_snake_entries_fold(entries, entries.len());
            let pairs = snake_pairs(entries);
            assert(pairs.take(entries.len() as int) =~= pairs);
            lemma_insert_all_sorted(pairs);
            let r = insert_all(pairs);
            assert(snake_keys(j) == JsonValue::Object(r));
            assert forall|t: int| 0 <= t < r.len() implies well_sorted(#[trigger] r[t].1) && separated_case(
                r[t].0,
                '_',
            ) == r[t].0 && snake_named(r[t].1) by {
                assert(pairs.contains(r[t]));
                let i = choose|i: int| 0 <= i < pairs.len() && pairs[i] == r[t];
                lemma_entry_smaller(entries, i);
                lemma_snake_keys_shape(entries[i].1);
                lemma_separated_case_idempotent(entries[i].0, '_');
            }
        },
        JsonValue::Array(items) => {
            lemma_snake_items_map(items, items.len());
            assert forall|i: int| 0 <= i < items.len() implies well_sorted(#[trigger] snake_keys(j)->Array_0[i])
                && snake_named(snake_keys(j)->Array_0[i]) by {
                lemma_item_smaller(items, i);
                lemma_snake_keys_shape(items[i]);
            }
        },
        _ => {},
    }
}

// ---------------------------------------------------------------------------
// Normalizing and remapping undo each other
// ---------------------------------------------------------------------------
/// Whether `k` is a property of `props` that no other property shares its
/// snake case with.
pub open spec fn is_property_of(props: Seq<(Seq<char>, JsonValue)>, k: Seq<char>) -> bool {
    &&& exists|q: int| 0 <= q < props.len() && #[trigger] props[q].0 == k
    &&& forall|q: int|
        0 <= q < props.len() && separated_case(#[trigger] props[q].0, '_') == separated_case(k, '_')
            ==> props[q].0 == k
}

/// Whether `w` has the shape a schema gives it: the members of its objects
/// are properties of the schema at that place (of snake cases not shared with
/// other properties), or, where the schema names no properties, have
/// snake-case names.
pub open spec fn shaped_like(w: JsonValue, schema: JsonValue) -> bool
    decreases w,
{
    match w {
        JsonValue::Object(entries) => match schema.get_object("properties"@) {
            Some(props) => forall|i: int|
                0 <= i < entries.len() ==> is_property_of(props, #[trigger] entries[i].0) && shaped_like(
                    entries[i].1,
                    or_null(assoc_get(props, entries[i].0)),
                ),
            None => forall|i: int|
                0 <= i < entries.len() ==> separated_case(#[trigger] entries[i].0, '_') == entries[i].0
                    && shaped_like(entries[i].1, JsonValue::Null),
        },
        JsonValue::Array(items) => forall|i: int|
            0 <= i < items.len() ==> shaped_like(#[trigger] items[i], or_null(schema.get("items"@))),
        _ => true,
    }
}

proof fn lemma_schema_key_for(props: Seq<(Seq<char>, JsonValue)>, k: Seq<char>)
    requires
        exists|q: int| 0 <= q < props.len() && #[trigger] props[q].0 == k,
        forall|q: int|
            0 <= q < props.len() && separated_case(#[trigger] props[q].0, '_') == separated_case(k, '_')
                ==> props[q].0 == k,
    ensures
        schema_key_for(props, separated_case(k, '_')) == Some(k),
    decreases props.len(),
{
    let c = separated_case(k, '_');
    if props.last().0 != k || separated_case(props.last().0, '_') != c {
        let p = props.drop_last();
        let q = choose|q: int| 0 <= q < props.len() && #[trigger] props[q].0 == k;
        if q == props.len() - 1 {
            assert(props.last().0 == k);
        }
        assert(p[q] == props[q]);
        assert forall|x: int|
            0 <= x < p.len() && separated_case(#[trigger] p[x].0, '_') == c implies p[x].0 == k by {
            assert(p[x] == props[x]);
        }
        lemma_schema_key_for(p, k);
    }
}

proof fn lemma_sorted_distinct(entries: Seq<(Seq<char>, JsonValue)>)
    requires
        sorted_keys(entries),
    ensures
        distinct_keys(entries),
{
    assert forall|i: int, j: int| 0 <= i < j < entries.len() implies #[trigger] entries[i].0 != #[trigger] entries[j].0 by {
        lemma_lt_ne(entries[i].0, entries[j].0);
    }
}

/// A well-formed value in the shape of a schema comes back unchanged from
/// normalizing its member names to snake case and remapping them to the
/// schema's property names.
pub proof fn lemma_remap_undoes_snake(w: JsonValue, schema: JsonValue)
    requires
        well_sorted(w),
        shaped_like(w, schema),
    ensures
        remap_keys(snake_keys(w), schema) == w,
    decreases json_size(w),
{
    match w {
        JsonValue::Object(entries) => {
            lemma_snake_entries_fold(entries, entries.len());
            let p1 = snake_pairs(entries);
            assert(p1.take(entries.len() as int) =~= p1);
            let s = insert_all(p1);
            assert(snake_keys(w) == JsonValue::Object(s));
            lemma_sorted_distinct(entries);
            match schema.get_object("properties"@) {
                Some(props) => {
                    assert(distinct_keys(p1)) by {
                        assert forall|i: int, j: int| 0 <= i < j < p1.len() implies #[trigger] p1[i].0
                            != #[trigger] p1[j].0 by {
                            assert(is_property_of(props, entries[i].0));
                            assert(is_property_of(props, entries[j].0));
                            if p1[i].0 == p1[j].0 {
                                let q = choose|q: int| 0 <= q < props.len() && #[trigger] props[q].0 == entries[j].0;
                                assert(separated_case(props[q].0, '_') == separated_case(entries[i].0, '_'));
                            }
                        }
                    }
                    lemma_insert_all(p1);
                    lemma_remap_entries_fold(s, props, s.len());
                    let p2 = remap_pairs(s, props);
                    assert(p2.take(s.len() as int) =~= p2);
                    let r = insert_all(p2);
                    assert(remap_keys(snake_keys(w), schema) == JsonValue::Object(r));
                    // Each remapped entry is the entry of `w` it came from.
                    assert forall|t: int| 0 <= t < p2.len() implies exists|i: int|
                        0 <= i < entries.len() && s[t] == p1[i] && #[trigger] p2[t] == entries[i] by {
                        assert(s.contains(s[t]));
                        assert(p1.contains(s[t]));
                        let i = choose|i: int| 0 <= i < p1.len() && p1[i] == s[t];
                        let k = entries[i].0;
                        assert(is_property_of(props, k));
                        lemma_separated_case_idempotent(k, '_');
                        lemma_schema_key_for(props, k);
                        assert(remapped_key(props, s[t].0) == k);
                        lemma_entry_smaller(entries, i);
                        lemma_remap_undoes_snake(entries[i].1, or_null(assoc_get(props, k)));
                    }
                    assert(distinct_keys(p2)) by {
                        assert forall|a: int, b: int| 0 <= a < b < p2.len() implies #[trigger] p2[a].0
                            != #[trigger] p2[b].0 by {
                            let i = choose|i: int| 0 <= i < entries.len() && s[a] == p1[i] && #[trigger] p2[a] == entries[i];
                            let j = choose|j: int| 0 <= j < entries.len() && s[b] == p1[j] && #[trigger] p2[b] == entries[j];
                            if p2[a].0 == p2[b].0 {
                                if i != j {
                                    if i < j {
                                        assert(entries[i].0 != entries[j].0);
                                    } else {
                                        assert(entries[j].0 != entries[i].0);
                                    }
                                }
                                assert(seq_lt(s[a].0, s[b].0));
                                lemma_lt_ne(s[a].0, s[b].0);
                            }
                        }
                    }
                    lemma_insert_all(p2);
                    assert forall|x: (Seq<char>, JsonValue)| r.contains(x) <==> entries.contains(x) by {
                        if p2.contains(x) {
                            let t = choose|t: int| 0 <= t < p2.len() && p2[t] == x;
                            let i = choose|i: int| 0 <= i < entries.len() && s[t] == p1[i] && #[trigger] p2[t] == entries[i];
                            assert(entries[i] == x);
                        }
                        if entries.contains(x) {
                            let i = choose|i: int| 0 <= i < entries.len() && entries[i] == x;
                            assert(p1.contains(p1[i]));
                            assert(s.contains(p1[i]));
                            let t = choose|t: int| 0 <= t < s.len() && s[t] == p1[i];
                            let i2 = choose|i2: int| 0 <= i2 < entries.len() && s[t] == p1[i2] && #[trigger] p2[t] == entries[i2];
                            if i2 != i {
                                assert(p1[i2].0 == p1[i].0);
                                if i < i2 {
                                    assert(p1[i].0 != p1[i2].0);
                                } else {
                                    assert(p1[i2].0 != p1[i].0);
                                }
                            }
                            assert(p2[t] == x);
                        }
                    }
                    lemma_sorted_unique(r, entries);
                },
                None => {
                    assert(distinct_keys(p1)) by {
                        assert forall|i: int, j: int| 0 <= i < j < p1.len() implies #[trigger] p1[i].0
                            != #[trigger] p1[j].0 by {
                            assert(separated_case(entries[i].0, '_') == entries[i].0);
                            assert(separated_case(entries[j].0, '_') == entries[j].0);
                        }
                    }
                    lemma_insert_all(p1);
                    lemma_remap_values_map(s, s.len());
                    let r = remap_values(s, s.len());
                    assert(remap_keys(snake_keys(w), schema) == JsonValue::Object(r));
                    assert forall|t: int| 0 <= t < r.len() implies exists|i: int|
                        0 <= i < entries.len() && s[t] == p1[i] && #[trigger] r[t] == entries[i] by {
                        assert(s.contains(s[t]));
                        assert(p1.contains(s[t]));
                        let i = choose|i: int| 0 <= i < p1.len() && p1[i] == s[t];
                        lemma_entry_smaller(entries, i);
                        lemma_remap_undoes_snake(entries[i].1, JsonValue::Null);
                        assert(separated_case(entries[i].0, '_') == entries[i].0);
                    }
                    assert(sorted_keys(r)) by {
                        assert forall|a: int, b: int| 0 <= a < b < r.len() implies seq_lt(#[trigger] r[a].0, #[trigger] r[b].0) by {
                            assert(r[a].0 == s[a].0 && r[b].0 == s[b].0);
                        }
                    }
                    assert forall|x: (Seq<char>, JsonValue)| r.contains(x) <==> entries.contains(x) by {
                        if r.contains(x) {
                            let t = choose|t: int| 0 <= t < r.len() && r[t] == x;
                            let i = choose|i: int| 0 <= i < entries.len() && s[t] == p1[i] && #[trigger] r[t] == entries[i];
                            assert(entries[i] == x);
                        }
                        if entries.contains(x) {
                            let i = choose|i: int| 0 <= i < entries.len() && entries[i] == x;
                            assert(p1.contains(p1[i]));
                            assert(s.contains(p1[i]));
                            let t = choose|t: int| 0 <= t < s.len() && s[t] == p1[i];
                            let i2 = choose|i2: int| 0 <= i2 < entries.len() && s[t] == p1[i2] && #[trigger] r[t] == entries[i2];
                            if i2 != i {
                                if i < i2 {
                                    assert(p1[i].0 != p1[i2].0);
                                } else {
                                    assert(p1[i2].0 != p1[i].0);
                                }
                            }
                            assert(r[t] == x);
                        }
                    }
                    lemma_sorted_unique(r, entries);
                },
            }
        },
        JsonValue::Array(items) => {
            lemma_snake_items_map(items, items.len());
            let si = snake_items(items, items.len());
            let item_schema = or_null(schema.get("items"@));
            lemma_remap_items_map(si, item_schema, si.len());
            assert forall|i: int| 0 <= i < items.len() implies #[trigger] remap_keys(si[i], item_schema) == items[i] by {
                lemma_item_smaller(items, i);
                lemma_remap_undoes_snake(items[i], item_schema);
            }
            assert(remap_items(si, item_schema, si.len()) =~= items);
        },
        _ => {},
    }
}

// ---------------------------------------------------------------------------
// Normalizing twice
// ---------------------------------------------------------------------------
/// A value already in normal form (sorted objects, snake-case names) is left
/// as it is by normalizing its member names.
proof fn lemma_snake_keys_fixed(w: JsonValue)
    requires
        well_sorted(w),
        snake_named(w),
    ensures
        snake_keys(w) == w,
    decreases json_size(w),
{
    match w {
        JsonValue::Object(entries) => {
            lemma_snake_entries_fold(entries, entries.len());
            let p1 = snake_pairs(entries);
            assert(p1.take(entries.len() as int) =~= p1);
            assert forall|i: int| 0 <= i < entries.len() implies #[trigger] p1[i] == entries[i] by {
                assert(separated_case(entries[i].0, '_') == entries[i].0);
                lemma_entry_smaller(entries, i);
                lemma_snake_keys_fixed(entries[i].1);
            }
            assert(p1 =~= entries);
            lemma_sorted_distinct(entries);
            lemma_insert_all(entries);
            lemma_sorted_unique(insert_all(entries), entries);
        },
        JsonValue::Array(items) => {
            lemma_snake_items_map(items, items.len());
            assert forall|i: int| 0 <= i < items.len() implies #[trigger] snake_keys(items[i]) == items[i] by {
                lemma_item_smaller(items, i);
                lemma_snake_keys_fixed(items[i]);
            }
            assert(snake_items(items, items.len()) =~= items);
        },
        _ => {},
    }
}

/// Normalizing member names to snake case a second time changes nothing.
pub proof fn lemma_snake_keys_idempotent(j: JsonValue)
    ensures
        snake_keys(snake_keys(j)) == snake_keys(j),
{
    lemma_snake_keys_shape(j);
    lemma_snake_keys_fixed(snake_keys(j));
}

// ---------------------------------------------------------------------------
// What normalizing the aliases leaves
// ---------------------------------------------------------------------------
/// Whether no object inside `j`, at any depth, has a `$ref` that points at a
/// trivial alias of `defs`.
pub open spec fn no_alias_refs(j: JsonValue, defs: Seq<(Seq<char>, JsonValue)>) -> bool
    decreases j,
{
    match j {
        JsonValue::Object(entries) => ref_alias(j, defs) is None && forall|i: int|
            0 <= i < entries.len() ==> no_alias_refs(#[trigger] entries[i].1, defs),
        JsonValue::Array(items) => forall|i: int| 0 <= i < items.len() ==> no_alias_refs(#[trigger] items[i], defs),
        _ => true,
    }
}

/// The definitions of a schema: the members of its `$defs`, or none.
pub open spec fn defs_or_empty(schema: JsonValue) -> Seq<(Seq<char>, JsonValue)> {
    match schema.get_object("$defs"@) {
        Some(d) => d,
        None => Seq::empty(),
    }
}

/// What `trivial_alias_for` finds is a trivial alias, and only where `defs`
/// holds one.
proof fn lemma_alias_found(defs: Seq<(Seq<char>, JsonValue)>, name: Seq<char>)
    ensures
        trivial_alias_for(defs, name) matches Some(a) ==> is_trivial_alias(a) && has_trivial_alias(defs),
    decreases defs.len(),
{
    if defs.len() > 0 {
        lemma_alias_found(defs.drop_last(), name);
        if is_trivial_alias(defs.last().1) && ref_name(defs.last().0) == name {
            assert(is_trivial_alias(defs[defs.len() - 1].1));
        } else if trivial_alias_for(defs.drop_last(), name) is Some {
            let p = defs.drop_last();
            let i = choose|i: int| 0 <= i < p.len() && is_trivial_alias(#[trigger] p[i].1);
            assert(defs[i] == p[i]);
        }
    }
}

/// A trivial alias holds no `$ref`.
proof fn lemma_alias_has_no_refs(a: JsonValue, defs: Seq<(Seq<char>, JsonValue)>)
    requires
        is_trivial_alias(a),
    ensures
        no_alias_refs(a, defs),
{
    let entries = a->Object_0;
    let ks = keys_of(entries);
    lemma_first_index_bounds(ks, "type"@);
    assert(ks[0] == "type"@);
    reveal_strlit("type");
    reveal_strlit("$ref");
    assert(ks[0] != "$ref"@) by {
        assert(ks[0][0] != "$ref"@[0]);
    }
    lemma_first_index(ks, "$ref"@, 1);
    assert(a.get_str("$ref"@) is None);
    assert(entries[0].1 is Str);
    assert(no_alias_refs(entries[0].1, defs));
    assert forall|i: int| 0 <= i < entries.len() implies no_alias_refs(#[trigger] entries[i].1, defs) by {
        assert(i == 0);
    }
}

proof fn lemma_inline_values_map(entries: Seq<(Seq<char>, JsonValue)>, defs: Seq<(Seq<char>, JsonValue)>, n: nat)
    requires
        n <= entries.len(),
    ensures
        inline_values(entries, defs, n) == Seq::new(n, |i: int| (entries[i].0, inline_aliases(entries[i].1, defs))),
    decreases n,
{
    if n > 0 {
        lemma_inline_values_map(entries, defs, (n - 1) as nat);
    }
    assert(inline_values(entries, defs, n) =~= Seq::new(
        n,
        |i: int| (entries[i].0, inline_aliases(entries[i].1, defs)),
    ));
}

proof fn lemma_inline_items_map(items: Seq<JsonValue>, defs: Seq<(Seq<char>, JsonValue)>, n: nat)
    requires
        n <= items.len(),
    ensures
        inline_items(items, defs, n) == Seq::new(n, |i: int| inline_aliases(items[i], defs)),
    decreases n,
{
    if n > 0 {
        lemma_inline_items_map(items, defs, (n - 1) as nat);
    }
    assert(inline_items(items, defs, n) =~= Seq::new(n, |i: int| inline_aliases(items[i], defs)));
}

/// Inlining keeps a string a string, and anything else not a string.
proof fn lemma_inline_keeps_str(v: JsonValue, defs: Seq<(Seq<char>, JsonValue)>)
    ensures
        inline_aliases(v, defs).as_str() == v.as_str(),
{
    if let JsonValue::Object(entries) = v {
        if let Some(reference) = v.get_str("$ref"@) {
            lemma_alias_found(defs, ref_name(reference));
        }
    }
}

/// Inlining leaves no `$ref`, at any depth, that points at a trivial alias.
pub proof fn lemma_inline_leaves_no_alias_refs(j: JsonValue, defs: Seq<(Seq<char>, JsonValue)>)
    ensures
        no_alias_refs(inline_aliases(j, defs), defs),
    decreases json_size(j),
{
    match j {
        JsonValue::Object(entries) => {
            match ref_alias(j, defs) {
                Some(a) => {
                    lemma_alias_found(defs, ref_name(j.get_str("$ref"@).unwrap()));
                    lemma_alias_has_no_refs(a, defs);
                },
                None => {
                    lemma_inline_values_map(entries, defs, entries.len());
                    let iv = inline_values(entries, defs, entries.len());
                    assert(keys_of(iv) =~= keys_of(entries));
                    lemma_first_index_bounds(keys_of(entries), "$ref"@);
                    if let Some(k) = first_index(keys_of(entries), "$ref"@) {
                        lemma_inline_keeps_str(entries[k].1, defs);
                    }
                    assert(JsonValue::Object(iv).get_str("$ref"@) == j.get_str("$ref"@));
                    assert forall|i: int| 0 <= i < iv.len() implies no_alias_refs(#[trigger] iv[i].1, defs) by {
                        lemma_entry_smaller(entries, i);
                        lemma_inline_leaves_no_alias_refs(entries[i].1, defs);
                    }
                },
            }
        },
        JsonValue::Array(items) => {
            lemma_inline_items_map(items, defs, items.len());
            let ii = inline_items(items, defs, items.len());
            assert forall|i: int| 0 <= i < ii.len() implies no_alias_refs(#[trigger] ii[i], defs) by {
                lemma_item_smaller(items, i);
                lemma_inline_leaves_no_alias_refs(items[i], defs);
            }
        },
        _ => {},
    }
}

/// Where `defs` defines no trivial alias, no `$ref` can point at one.
proof fn lemma_no_alias_refs_without_aliases(j: JsonValue, defs: Seq<(Seq<char>, JsonValue)>)
    requires
        !has_trivial_alias(defs),
    ensures
        no_alias_refs(j, defs),
    decreases json_size(j),
{
    match j {
        JsonValue::Object(entries) => {
            if let Some(reference) = j.get_str("$ref"@) {
                lemma_alias_found(defs, ref_name(reference));
            }
            assert forall|i: int| 0 <= i < entries.len() implies no_alias_refs(#[trigger] entries[i].1, defs) by {
                lemma_entry_smaller(entries, i);
                lemma_no_alias_refs_without_aliases(entries[i].1, defs);
            }
        },
        JsonValue::Array(items) => {
            assert forall|i: int| 0 <= i < items.len() implies no_alias_refs(#[trigger] items[i], defs) by {
                lemma_item_smaller(items, i);
                lemma_no_alias_refs_without_aliases(items[i], defs);
            }
        },
        _ => {},
    }
}

/// The entries kept by `drop_aliases` are entries of `kept` whose names are
/// not trivial aliases, and a member is found among them as among `kept`
/// unless its name is one.
proof fn lemma_drop_aliases(kept: Seq<(Seq<char>, JsonValue)>, defs: Seq<(Seq<char>, JsonValue)>, x: Seq<char>)
    ensures
        forall|t: int|
            0 <= t < drop_aliases(kept, defs).len() ==> kept.contains(#[trigger] drop_aliases(kept, defs)[t])
                && trivial_alias_for(defs, ref_name(drop_aliases(kept, defs)[t].0)) is None,
        assoc_get(drop_aliases(kept, defs), x) == if trivial_alias_for(defs, ref_name(x)) is Some {
            None
        } else {
            assoc_get(kept, x)
        },
    decreases kept.len(),
{
    let r = drop_aliases(kept, defs);
    if kept.len() == 0 {
        assert(keys_of(r) =~= Seq::<Seq<char>>::empty());
        assert(keys_of(kept) =~= Seq::<Seq<char>>::empty());
    } else {
        let p = kept.drop_last();
        let e = kept.last();
        lemma_drop_aliases(p, defs, x);
        let rp = drop_aliases(p, defs);
        assert(kept =~= p.push(e));
        lemma_assoc_get_push(p, e, x);
        assert forall|t: int| 0 <= t < r.len() implies kept.contains(#[trigger] r[t])
            && trivial_alias_for(defs, ref_name(r[t].0)) is None by {
            if t < rp.len() {
                assert(r[t] == rp[t]);
                assert(p.contains(rp[t]));
                let q = choose|q: int| 0 <= q < p.len() && p[q] == rp[t];
                assert(kept[q] == p[q]);
            } else {
                assert(r[t] == e);
                assert(kept[kept.len() - 1] == e);
            }
        }
        if trivial_alias_for(defs, ref_name(e.0)) is None {
            lemma_assoc_get_push(rp, e, x);
        }
    }
}

/// After normalizing the trivial aliases of a schema, no `$ref` at any depth
/// points at a definition that was a trivial alias, and no definition named
/// like one is left in its `$defs`.
pub proof fn lemma_trivial_aliases_gone(schema: JsonValue)
    ensures
        no_alias_refs(without_trivial_aliases(schema), defs_or_empty(schema)),
        without_trivial_aliases(schema).get_object("$defs"@) matches Some(kept) ==> forall|t: int|
            0 <= t < kept.len() ==> trivial_alias_for(defs_or_empty(schema), ref_name(#[trigger] kept[t].0))
                is None,
{
    let defs = defs_or_empty(schema);
    let r = without_trivial_aliases(schema);
    if !has_trivial_alias(defs) {
        lemma_no_alias_refs_without_aliases(schema, defs);
        if let Some(kept) = r.get_object("$defs"@) {
            assert forall|t: int| 0 <= t < kept.len() implies trivial_alias_for(
                defs,
                ref_name(#[trigger] kept[t].0),
            ) is None by {
                lemma_alias_found(defs, ref_name(kept[t].0));
            }
        }
    } else {
        let inlined = inline_aliases(schema, defs);
        lemma_inline_leaves_no_alias_refs(schema, defs);
        if let JsonValue::Object(entries) = inlined {
            let ks = keys_of(entries);
            lemma_first_index_bounds(ks, "$defs"@);
            if let Some(k) = first_index(ks, "$defs"@) {
                if let JsonValue::Object(rest) = entries[k].1 {
                    let dr = drop_aliases(rest, defs);
                    let updated = entries.update(k, (entries[k].0, JsonValue::Object(dr)));
                    assert(r == JsonValue::Object(updated));
                    assert(keys_of(updated) =~= ks);
                    lemma_drop_aliases(rest, defs, "$ref"@);
                    reveal_strlit("$defs");
                    reveal_strlit("$ref");
                    assert(ks[k] != "$ref"@) by {
                        assert(ks[k][1] != "$ref"@[1]);
                    }
                    lemma_first_index_bounds(ks, "$ref"@);
                    assert(r.get_str("$ref"@) == inlined.get_str("$ref"@));
                    assert(no_alias_refs(entries[k].1, defs));
                    assert(JsonValue::Object(dr).get_str("$ref"@) matches Some(reference) ==> JsonValue::Object(
                        rest,
                    ).get_str("$ref"@) == Some(reference));
                    assert forall|t: int| 0 <= t < dr.len() implies no_alias_refs(#[trigger] dr[t].1, defs) by {
                        assert(rest.contains(dr[t]));
                        let q = choose|q: int| 0 <= q < rest.len() && rest[q] == dr[t];
                        assert(no_alias_refs(rest[q].1, defs));
                    }
                    assert(no_alias_refs(JsonValue::Object(dr), defs));
                    assert forall|i: int| 0 <= i < updated.len() implies no_alias_refs(#[trigger] updated[i].1, defs) by {
                        if i != k {
                            assert(updated[i] == entries[i]);
                        }
                    }
                    lemma_first_index_bounds(ks, "$defs"@);
                    assert(r.get_object("$defs"@) == Some(dr));
                }
            }
        }
    }
}

// ---------------------------------------------------------------------------
// Remapping without a shape
// ---------------------------------------------------------------------------
/// Remapping against a schema that names no `properties` object and no
/// `items` leaves the value as it is, at every depth.
pub proof fn lemma_remap_without_shape(j: JsonValue, schema: JsonValue)
    requires
        schema.get_object("properties"@) is None,
        schema.get("items"@) is None,
    ensures
        remap_keys(j, schema) == j,
    decreases json_size(j),
{
    match j {
        JsonValue::Object(entries) => {
            lemma_remap_values_map(entries, entries.len());
            assert forall|i: int| 0 <= i < entries.len() implies #[trigger] remap_keys(
                entries[i].1,
                JsonValue::Null,
            ) == entries[i].1 by {
                lemma_entry_smaller(entries, i);
                lemma_remap_without_shape(entries[i].1, JsonValue::Null);
            }
            assert(remap_values(entries, entries.len()) =~= entries);
        },
        JsonValue::Array(items) => {
            lemma_remap_items_map(items, JsonValue::Null, items.len());
            assert forall|i: int| 0 <= i < items.len() implies #[trigger] remap_keys(
                items[i],
                JsonValue::Null,
            ) == items[i] by {
                lemma_item_smaller(items, i);
                lemma_remap_without_shape(items[i], JsonValue::Null);
            }
            assert(remap_items(items, JsonValue::Null, items.len()) =~= items);
        },
        _ => {},
    }
}

// ---------------------------------------------------------------------------
// Rewriting keeps values well-formed
// ---------------------------------------------------------------------------
/// Remapping a well-formed value gives a well-formed value.
pub proof fn lemma_remap_keeps_sorted(j: JsonValue, schema: JsonValue)
    requires
        well_sorted(j),
    ensures
        well_sorted(remap_keys(j, schema)),
    decreases json_size(j),
{
    match j {
        JsonValue::Object(entries) => match schema.get_object("properties"@) {
            Some(props) => {
                lemma_remap_entries_fold(entries, props, entries.len());
                let pairs = remap_pairs(entries, props);
                assert(pairs.take(entries.len() as int) =~= pairs);
                lemma_insert_all_sorted(pairs);
                let r = insert_all(pairs);
                assert forall|t: int| 0 <= t < r.len() implies well_sorted(#[trigger] r[t].1) by {
                    assert(pairs.contains(r[t]));
                    let i = choose|i: int| 0 <= i < pairs.len() && pairs[i] == r[t];
                    assert(well_sorted(entries[i].1));
                    lemma_entry_smaller(entries, i);
                    lemma_remap_keeps_sorted(
                        entries[i].1,
                        or_null(assoc_get(props, remapped_key(props, entries[i].0))),
                    );
                }
            },
            None => {
                lemma_remap_values_map(entries, entries.len());
                let r = remap_values(entries, entries.len());
                assert forall|a: int, b: int| 0 <= a < b < r.len() implies seq_lt(
                    #[trigger] r[a].0,
                    #[trigger] r[b].0,
                ) by {
                    assert(r[a].0 == entries[a].0 && r[b].0 == entries[b].0);
                }
                assert forall|t: int| 0 <= t < r.len() implies well_sorted(#[trigger] r[t].1) by {
                    assert(well_sorted(entries[t].1));
                    lemma_entry_smaller(entries, t);
                    lemma_remap_keeps_sorted(entries[t].1, JsonValue::Null);
                }
            },
        },
        JsonValue::Array(items) => {
            let item_schema = or_null(schema.get("items"@));
            lemma_remap_items_map(items, item_schema, items.len());
            let r = remap_items(items, item_schema, items.len());
            assert forall|t: int| 0 <= t < r.len() implies well_sorted(#[trigger] r[t]) by {
                assert(well_sorted(items[t]));
                lemma_item_smaller(items, t);
                lemma_remap_keeps_sorted(items[t], item_schema);
            }
        },
        _ => {},
    }
}

/// Inlining aliases into a well-formed value gives a well-formed value.
proof fn lemma_inline_keeps_sorted(j: JsonValue, defs: Seq<(Seq<char>, JsonValue)>)
    requires
        well_sorted(j),
    ensures
        well_sorted(inline_aliases(j, defs)),
    decreases json_size(j),
{
    match j {
        JsonValue::Object(entries) => match ref_alias(j, defs) {
            Some(a) => {
                lemma_alias_found(defs, ref_name(j.get_str("$ref"@).unwrap()));
                let ae = a->Object_0;
                lemma_first_index_bounds(keys_of(ae), "type"@);
                assert(ae[0].1 is Str);
                assert(well_sorted(ae[0].1));
                assert forall|t: int| 0 <= t < ae.len() implies well_sorted(#[trigger] ae[t].1) by {
                    assert(t == 0);
                }
            },
            None => {
                lemma_inline_values_map(entries, defs, entries.len());
                let r = inline_values(entries, defs, entries.len());
                assert forall|a: int, b: int| 0 <= a < b < r.len() implies seq_lt(
                    #[trigger] r[a].0,
                    #[trigger] r[b].0,
                ) by {
                    assert(r[a].0 == entries[a].0 && r[b].0 == entries[b].0);
                }
                assert forall|t: int| 0 <= t < r.len() implies well_sorted(#[trigger] r[t].1) by {
                    assert(well_sorted(entries[t].1));
                    lemma_entry_smaller(entries, t);
                    lemma_inline_keeps_sorted(entries[t].1, defs);
                }
            },
        },
        JsonValue::Array(items) => {
            lemma_inline_items_map(items, defs, items.len());
            let r = inline_items(items, defs, items.len());
            assert forall|t: int| 0 <= t < r.len() implies well_sorted(#[trigger] r[t]) by {
                assert(well_sorted(items[t]));
                lemma_item_smaller(items, t);
                lemma_inline_keeps_sorted(items[t], defs);
            }
        },
        _ => {},
    }
}

/// Dropping definitions keeps the others in their order.
proof fn lemma_drop_aliases_sorted(kept: Seq<(Seq<char>, JsonValue)>, defs: Seq<(Seq<char>, JsonValue)>)
    requires
        sorted_keys(kept),
    ensures
        sorted_keys(drop_aliases(kept, defs)),
    decreases kept.len(),
{
    if kept.len() > 0 {
        let p = kept.drop_last();
        assert(sorted_keys(p)) by {
            assert forall|a: int, b: int| 0 <= a < b < p.len() implies seq_lt(
                #[trigger] p[a].0,
                #[trigger] p[b].0,
            ) by {
                assert(p[a] == kept[a] && p[b] == kept[b]);
            }
        }
        lemma_drop_aliases_sorted(p, defs);
        lemma_drop_aliases(p, defs, Seq::empty());
        let dp = drop_aliases(p, defs);
        if trivial_alias_for(defs, ref_name(kept.last().0)) is None {
            let r = dp.push(kept.last());
            assert forall|a: int, b: int| 0 <= a < b < r.len() implies seq_lt(
                #[trigger] r[a].0,
                #[trigger] r[b].0,
            ) by {
                if b == dp.len() {
                    assert(p.contains(dp[a]));
                    let q = choose|q: int| 0 <= q < p.len() && p[q] == dp[a];
                    assert(kept[q] == p[q]);
                    assert(seq_lt(kept[q].0, kept[kept.len() - 1].0));
                } else {
                    assert(r[a] == dp[a] && r[b] == dp[b]);
                }
            }
        }
    }
}

/// Normalizing the trivial aliases of a well-formed schema gives a
/// well-formed schema.
pub proof fn lemma_aliases_keep_sorted(schema: JsonValue)
    requires
        well_sorted(schema),
    ensures
        well_sorted(without_trivial_aliases(schema)),
{
    let defs = defs_or_empty(schema);
    if has_trivial_alias(defs) {
        let inlined = inline_aliases(schema, defs);
        lemma_inline_keeps_sorted(schema, defs);
        if let JsonValue::Object(entries) = inlined {
            let ks = keys_of(entries);
            lemma_first_index_bounds(ks, "$defs"@);
            if let Some(k) = first_index(ks, "$defs"@) {
                if let JsonValue::Object(rest) = entries[k].1 {
                    assert(well_sorted(entries[k].1));
                    let dr = drop_aliases(rest, defs);
                    let updated = entries.update(k, (entries[k].0, JsonValue::Object(dr)));
                    lemma_drop_aliases_sorted(rest, defs);
                    lemma_drop_aliases(rest, defs, Seq::empty());
                    assert forall|t: int| 0 <= t < dr.len() implies well_sorted(#[trigger] dr[t].1) by {
                        assert(rest.contains(dr[t]));
                        let q = choose|q: int| 0 <= q < rest.len() && rest[q] == dr[t];
                        assert(well_sorted(rest[q].1));
                    }
                    assert(well_sorted(JsonValue::Object(dr)));
                    assert forall|a: int, b: int| 0 <= a < b < updated.len() implies seq_lt(
                        #[trigger] updated[a].0,
                        #[trigger] updated[b].0,
                    ) by {
                        assert(updated[a].0 == entries[a].0 && updated[b].0 == entries[b].0);
                    }
                    assert forall|t: int| 0 <= t < updated.len() implies well_sorted(#[trigger] updated[t].1) by {
                        if t != k {
                            assert(updated[t] == entries[t]);
                        }
                    }
                }
            }
        }
    }
}

// ---------------------------------------------------------------------------
// Which definitions are trivial aliases
// ---------------------------------------------------------------------------
/// Whether `t` names one of the primitive JSON Schema types that a trivial
/// alias stands for.
pub open spec fn primitive_type_name(t: Seq<char>) -> bool {
    t == "string"@ || t == "integer"@ || t == "number"@ || t == "boolean"@
}

/// The schema `{"type": t}`.
pub open spec fn type_only(t: Seq<char>) -> JsonValue {
    JsonValue::Object(seq![("type"@, JsonValue::Str(t))])
}

/// A schema is a trivial alias exactly when it is `{"type": t}` with `t` one
/// of `string`, `integer`, `number` and `boolean`.
pub proof fn lemma_trivial_alias_is_type_only(j: JsonValue)
    ensures
        is_trivial_alias(j) <==> (j is Object && j->Object_0.len() == 1 && j->Object_0[0].0 == "type"@
            && j->Object_0[0].1 is Str && primitive_type_name(j->Object_0[0].1->Str_0)),
        forall|t: Seq<char>| primitive_type_name(t) ==> #[trigger] is_trivial_alias(type_only(t)),
{
    if let JsonValue::Object(entries) = j {
        lemma_first_index_bounds(keys_of(entries), "type"@);
        if entries.len() == 1 && entries[0].0 == "type"@ {
            lemma_first_index(keys_of(entries), "type"@, 0);
        }
    }
    assert forall|t: Seq<char>| primitive_type_name(t) implies #[trigger] is_trivial_alias(type_only(t)) by {
        let e = type_only(t)->Object_0;
        lemma_first_index(keys_of(e), "type"@, 0);
    }
}

/// A definition `{"type": t}` with `t` primitive is found as the trivial
/// alias of its reference name, so normalizing inlines the references to it.
pub proof fn lemma_type_only_definition_is_alias(defs: Seq<(Seq<char>, JsonValue)>, i: int, t: Seq<char>)
    requires
        0 <= i < defs.len(),
        defs[i].1 == type_only(t),
        primitive_type_name(t),
    ensures
        trivial_alias_for(defs, ref_name(defs[i].0)) is Some,
        has_trivial_alias(defs),
    decreases defs.len(),
{
    lemma_trivial_alias_is_type_only(defs[i].1);
    if i < defs.len() - 1 {
        let p = defs.drop_last();
        assert(p[i] == defs[i]);
        lemma_type_only_definition_is_alias(p, i, t);
        if !(is_trivial_alias(defs.last().1) && ref_name(defs.last().0) == ref_name(defs[i].0)) {
            assert(trivial_alias_for(defs, ref_name(defs[i].0)) == trivial_alias_for(p, ref_name(p[i].0)));
        }
    }
}

} // verus!
