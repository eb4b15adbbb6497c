//! Named schemas of an all-schemas document, and the lookup of a schema by
//! name through the `$ref` aliases that stand for it.
use vstd::prelude::*;
use crate::json::{
    Json, JsonValue, entries_view, keys_of, string_keys, first_index, find_key, assoc_get,
    json_size, items_size, entries_size, lemma_first_index_bounds, lemma_entry_smaller,
    lemma_item_smaller, lemma_object_view, lemma_assoc_get_push,
};
use crate::keys::{distinct_keys, remap_keys, remap_json_keys_to_schema, well_sorted};
use crate::pointer::{
    decode_ref_name, pointer_ref_name, resolve_pointer, resolve_json_pointer, follow_tokens,
    pointer_step, pointer_token,
};
use crate::text::{chars_of, split_char, str_eq, owned};

verus! {

// ---------------------------------------------------------------------------
// The strings a document holds
// ---------------------------------------------------------------------------
/// The string values held anywhere inside `j`.
pub open spec fn strings_in(j: JsonValue) -> Set<Seq<char>>
    decreases j,
{
    match j {
        JsonValue::Str(s) => set![s],
        JsonValue::Array(items) => items_strings(items),
        JsonValue::Object(entries) => entries_strings(entries),
        _ => Set::empty(),
    }
}

pub open spec fn items_strings(items: Seq<JsonValue>) -> Set<Seq<char>>
    decreases items,
{
    if items.len() == 0 {
        Set::empty()
    } else {
        items_strings(items.drop_last()).union(strings_in(items.last()))
    }
}

pub open spec fn entries_strings(entries: Seq<(Seq<char>, JsonValue)>) -> Set<Seq<char>>
    decreases entries,
{
    if entries.len() == 0 {
        Set::empty()
    } else {
        let p = entries.last();
        entries_strings(entries.drop_last()).union(strings_in(p.1))
    }
}

pub proof fn lemma_strings_finite(j: JsonValue)
    ensures
        strings_in(j).finite(),
    decreases json_size(j), 1nat, 0nat,
{
    match j {
        JsonValue::Array(items) => lemma_items_strings_finite(items, items.len()),
        JsonValue::Object(entries) => lemma_entries_strings_finite(entries, entries.len()),
        _ => {},
    }
}

pub proof fn lemma_items_strings_finite(items: Seq<JsonValue>, n: nat)
    requires
        n == items.len(),
    ensures
        items_strings(items).finite(),
    decreases items_size(items) + 1, 0nat, n,
{
    if n > 0 {
        lemma_item_smaller(items, n - 1);
        lemma_items_size_prefix(items);
        lemma_items_strings_finite(items.drop_last(), (n - 1) as nat);
        lemma_strings_finite(items.last());
    }
}

pub proof fn lemma_entries_strings_finite(entries: Seq<(Seq<char>, JsonValue)>, n: nat)
    requires
        n == entries.len(),
    ensures
        entries_strings(entries).finite(),
    decreases entries_size(entries) + 1, 0nat, n,
{
    if n > 0 {
        lemma_entry_smaller(entries, n - 1);
        lemma_entries_size_prefix(entries);
        lemma_entries_strings_finite(entries.drop_last(), (n - 1) as nat);
        lemma_strings_finite(entries.last().1);
    }
}

pub proof fn lemma_items_size_prefix(items: Seq<JsonValue>)
    requires
        items.len() > 0,
    ensures
        items_size(items.drop_last()) <= items_size(items),
{
}

pub proof fn lemma_entries_size_prefix(entries: Seq<(Seq<char>, JsonValue)>)
    requires
        entries.len() > 0,
    ensures
        entries_size(entries.drop_last()) <= entries_size(entries),
{
}

pub proof fn lemma_item_strings(items: Seq<JsonValue>, i: int)
    requires
        0 <= i < items.len(),
    ensures
        strings_in(items[i]).subset_of(items_strings(items)),
    decreases items.len(),
{
    if i < items.len() - 1 {
        lemma_item_strings(items.drop_last(), i);
    }
}

pub proof fn lemma_entry_strings(entries: Seq<(Seq<char>, JsonValue)>, i: int)
    requires
        0 <= i < entries.len(),
    ensures
        strings_in(entries[i].1).subset_of(entries_strings(entries)),
    decreases entries.len(),
{
    if i < entries.len() - 1 {
        lemma_entry_strings(entries.drop_last(), i);
    }
}

pub proof fn lemma_get_strings(j: JsonValue, k: Seq<char>)
    ensures
        j.get(k) matches Some(v) ==> strings_in(v).subset_of(strings_in(j)),
{
    if let JsonValue::Object(entries) = j {
        lemma_first_index_bounds(keys_of(entries), k);
        if let Some(i) = first_index(keys_of(entries), k) {
            lemma_entry_strings(entries, i);
        }
    }
}

pub proof fn lemma_get_str_in(j: JsonValue, k: Seq<char>)
    ensures
        j.get_str(k) matches Some(s) ==> strings_in(j).contains(s),
{
    lemma_get_strings(j, k);
    if let Some(s) = j.get_str(k) {
        assert(strings_in(j.get(k).unwrap()) == set![s]);
    }
}

pub proof fn lemma_step_strings(current: JsonValue, token: Seq<char>)
    ensures
        pointer_step(current, token) matches Some(v) ==> strings_in(v).subset_of(strings_in(current)),
{
    match current {
        JsonValue::Object(entries) => {
            lemma_get_strings(current, pointer_token(token));
        },
        JsonValue::Array(items) => {
            if let Some(v) = pointer_step(current, token) {
                let i = crate::pointer::parse_index(pointer_token(token)).unwrap() as int;
                lemma_item_strings(items, i);
            }
        },
        _ => {},
    }
}

pub proof fn lemma_follow_strings(current: JsonValue, tokens: Seq<Seq<char>>)
    ensures
        follow_tokens(current, tokens) matches Some(v) ==> strings_in(v).subset_of(
            strings_in(current),
        ),
    decreases tokens.len(),
{
    if tokens.len() > 0 {
        lemma_step_strings(current, tokens[0]);
        if let Some(next) = pointer_step(current, tokens[0]) {
            lemma_follow_strings(next, tokens.drop_first());
        }
    }
}

// ---------------------------------------------------------------------------
// Named schemas
// ---------------------------------------------------------------------------
/// `target` with the entries of `source` added under their reference names,
/// each only where no schema of that name is there yet.
pub open spec fn add_named(target: Seq<(Seq<char>, JsonValue)>, source: Seq<(Seq<char>, JsonValue)>) -> Seq<
    (Seq<char>, JsonValue),
>
    decreases source.len(),
{
    if source.len() == 0 {
        target
    } else {
        let t = add_named(target, source.drop_last());
        let k = pointer_ref_name(source.last().0);
        if assoc_get(t, k) is Some {
            t
        } else {
            t.push((k, source.last().1))
        }
    }
}

pub open spec fn members_of(all: JsonValue, key: Seq<char>) -> Seq<(Seq<char>, JsonValue)> {
    match all.get_object(key) {
        Some(entries) => entries,
        None => Seq::empty(),
    }
}

/// The schemas of a document by name: its `properties`, then its `$defs`,
/// then its `definitions`; the first schema of a name wins.
pub open spec fn named_schemas(all: JsonValue) -> Seq<(Seq<char>, JsonValue)> {
    add_named(
        add_named(add_named(Seq::empty(), members_of(all, "properties"@)), members_of(all, "$defs"@)),
        members_of(all, "definitions"@),
    )
}

/// Every schema of `named` holds only strings that `all` holds.
pub open spec fn drawn_from(named: Seq<(Seq<char>, JsonValue)>, all: JsonValue) -> bool {
    forall|i: int| 0 <= i < named.len() ==> strings_in(#[trigger] named[i].1).subset_of(strings_in(all))
}

pub proof fn lemma_members_drawn(all: JsonValue, key: Seq<char>)
    ensures
        drawn_from(members_of(all, key), all),
{
    lemma_get_strings(all, key);
    if let Some(entries) = all.get_object(key) {
        assert forall|i: int| 0 <= i < entries.len() implies strings_in(#[trigger] entries[i].1).subset_of(
            strings_in(all),
        ) by {
            lemma_entry_strings(entries, i);
        }
    }
}

pub proof fn lemma_add_named_drawn(target: Seq<(Seq<char>, JsonValue)>, source: Seq<(Seq<char>, JsonValue)>, all: JsonValue)
    requires
        drawn_from(target, all),
        drawn_from(source, all),
    ensures
        drawn_from(add_named(target, source), all),
    decreases source.len(),
{
    if source.len() > 0 {
        assert(drawn_from(source.drop_last(), all)) by {
            assert forall|i: int| 0 <= i < source.drop_last().len() implies strings_in(
                #[trigger] source.drop_last()[i].1,
            ).subset_of(strings_in(all)) by {
                assert(source.drop_last()[i] == source[i]);
            }
        }
        lemma_add_named_drawn(target, source.drop_last(), all);
        assert(strings_in(source[source.len() - 1].1).subset_of(strings_in(all)));
    }
}

pub proof fn lemma_named_drawn(all: JsonValue)
    ensures
        drawn_from(named_schemas(all), all),
{
    lemma_members_drawn(all, "properties"@);
    lemma_members_drawn(all, "$defs"@);
    lemma_members_drawn(all, "definitions"@);
    lemma_add_named_drawn(Seq::empty(), members_of(all, "properties"@), all);
    lemma_add_named_drawn(
        add_named(Seq::empty(), members_of(all, "properties"@)),
        members_of(all, "$defs"@),
        all,
    );
    lemma_add_named_drawn(
        add_named(add_named(Seq::empty(), members_of(all, "properties"@)), members_of(all, "$defs"@)),
        members_of(all, "definitions"@),
        all,
    );
}

/// The schema a reference stands for: the whole document for `#`, the value
/// a `#/...` pointer names where it names one, or else the named schema of
/// the reference's name.
pub open spec fn resolve_reference(
    all: JsonValue,
    named: Seq<(Seq<char>, JsonValue)>,
    reference: Seq<char>,
) -> Option<JsonValue> {
    let by_name = assoc_get(named, pointer_ref_name(reference));
    if reference.len() > 0 && reference[0] == '#' {
        let pointer = reference.drop_first();
        if pointer.len() == 0 {
            Some(all)
        } else if pointer[0] == '/' && resolve_pointer(all, pointer) is Some {
            resolve_pointer(all, pointer)
        } else {
            by_name
        }
    } else {
        by_name
    }
}

pub proof fn lemma_resolve_drawn(all: JsonValue, named: Seq<(Seq<char>, JsonValue)>, reference: Seq<char>)
    requires
        drawn_from(named, all),
    ensures
        resolve_reference(all, named, reference) matches Some(v) ==> strings_in(v).subset_of(
            strings_in(all),
        ),
{
    lemma_first_index_bounds(keys_of(named), pointer_ref_name(reference));
    if reference.len() > 0 && reference[0] == '#' {
        let pointer = reference.drop_first();
        lemma_follow_strings(all, split_char(pointer, '/').drop_first());
    }
}

/// Whether a schema is an object whose only member is `$ref`.
pub open spec fn is_direct_ref(schema: JsonValue) -> bool {
    schema is Object && schema->Object_0.len() == 1
}

/// The schema reached from `schema` by following `$ref`s for as long as the
/// schema is nothing but a `$ref` not followed before.
pub open spec fn follow_aliases(
    all: JsonValue,
    named: Seq<(Seq<char>, JsonValue)>,
    schema: JsonValue,
    seen: Set<Seq<char>>,
) -> Option<JsonValue>
    decreases strings_in(all).difference(seen).len(),
    when strings_in(all).finite() && strings_in(schema).subset_of(strings_in(all)) && drawn_from(
        named,
        all,
    )
{
    match schema.get_str("$ref"@) {
        None => Some(schema),
        Some(reference) => if !is_direct_ref(schema) || seen.contains(reference) {
            Some(schema)
        } else {
            match resolve_reference(all, named, reference) {
                None => None,
                Some(next) => {
                    proof {
                        lemma_get_str_in(schema, "$ref"@);
                        lemma_resolve_drawn(all, named, reference);
                        let d = strings_in(all).difference(seen);
                        assert(d.contains(reference));
                        assert(strings_in(all).difference(seen.insert(reference)) =~= d.remove(
                            reference,
                        ));
                        vstd::set_lib::lemma_len_subset(d, strings_in(all));
                    }
                    follow_aliases(all, named, next, seen.insert(reference))
                },
            }
        },
    }
}

/// The schema named `schema_name`, with the `$ref` aliases that stand for it
/// followed.
pub open spec fn lookup_schema(all: JsonValue, schema_name: Seq<char>) -> Option<JsonValue> {
    match assoc_get(named_schemas(all), pointer_ref_name(schema_name)) {
        Some(schema) => follow_aliases(all, named_schemas(all), schema, Set::empty()),
        None => None,
    }
}


// ---------------------------------------------------------------------------
// Executable lookup
// ---------------------------------------------------------------------------
fn find_named<'a>(named: &'a Vec<(String, Json)>, name: &str) -> (r: Option<&'a Json>)
    ensures
        r matches Some(v) ==> assoc_get(entries_view(named@), name@) == Some(v@),
        r is None ==> assoc_get(entries_view(named@), name@) is None,
{
    assert(keys_of(entries_view(named@)) =~= string_keys(named@));
    match find_key(named, name) {
        Some(i) => {
            proof {
                lemma_first_index_bounds(string_keys(named@), name@);
            }
            Some(&named[i].1)
        },
        None => None,
    }
}

/// Adds the entries of `source` to `target` under their reference names,
/// each only where `target` has no schema of that name yet.
pub fn insert_named_schemas(target: &mut Vec<(String, Json)>, source: Option<&Vec<(String, Json)>>)
    ensures
        entries_view(final(target)@) == add_named(
            entries_view(old(target)@),
            match source {
                Some(es) => entries_view(es@),
                None => Seq::empty(),
            },
        ),
{
    let source = match source {
        Some(s) => s,
        None => {
            return;
        },
    };
    let ghost sv = entries_view(source@);
    let ghost t0 = entries_view(target@);
    let mut i: usize = 0;
    assert(sv.take(0) =~= Seq::<(Seq<char>, JsonValue)>::empty());
    while i < source.len()
        invariant
            i <= source@.len(),
            sv == entries_view(source@),
            t0 == entries_view(old(target)@),
            entries_view(target@) == add_named(t0, sv.take(i as int)),
        decreases source@.len() - i,
    {
        assert(sv.take(i + 1).drop_last() =~= sv.take(i as int));
        let canonical = decode_ref_name(source[i].0.as_str());
        if find_named(target, canonical.as_str()).is_none() {
            let ghost before = entries_view(target@);
            let v = source[i].1.copy();
            target.push((canonical, v));
            assert(entries_view(target@) =~= before.push((canonical@, sv[i as int].1)));
        }
        i = i + 1;
    }
    assert(sv.take(source@.len() as int) =~= sv);
}

fn members<'a>(all: &'a Json, key: &str) -> (r: Option<&'a Vec<(String, Json)>>)
    ensures
        match r {
            Some(es) => entries_view(es@),
            None => Seq::empty(),
        } == members_of(all@, key@),
{
    match all.get(key) {
        Some(v) => match v.as_object() {
            Some(es) => Some(es),
            None => None,
        },
        None => None,
    }
}

/// The schemas of `all` by name.
pub fn collect_named_schemas(all: &Json) -> (r: Vec<(String, Json)>)
    ensures
        entries_view(r@) == named_schemas(all@),
{
    let mut out: Vec<(String, Json)> = Vec::new();
    assert(entries_view(out@) =~= Seq::<(Seq<char>, JsonValue)>::empty());
    insert_named_schemas(&mut out, members(all, "properties"));
    insert_named_schemas(&mut out, members(all, "$defs"));
    insert_named_schemas(&mut out, members(all, "definitions"));
    out
}

/// An all-schemas document together with its schemas by name.
pub struct SchemaRegistry {
    all: Json,
    named: Vec<(String, Json)>,
}

impl View for SchemaRegistry {
    type V = JsonValue;

    closed spec fn view(&self) -> JsonValue {
        self.all@
    }
}

impl SchemaRegistry {
    #[verifier::type_invariant]
    spec fn well_formed(self) -> bool {
        entries_view(self.named@) == named_schemas(self.all@)
    }

    /// The registry of the schemas of `all`.
    pub fn new(all: Json) -> (r: Self)
        ensures
            r@ == all@,
    {
        let named = collect_named_schemas(&all);
        SchemaRegistry { all, named }
    }

    /// The whole document.
    pub fn document(&self) -> (r: &Json)
        ensures
            r@ == self@,
    {
        &self.all
    }

    /// The schema that `reference` stands for.
    pub fn resolve_reference_value(&self, reference: &str) -> (r: Option<Json>)
        ensures
            r matches Some(v) ==> resolve_reference(self@, named_schemas(self@), reference@) == Some(
                v@,
            ),
            r is None ==> resolve_reference(self@, named_schemas(self@), reference@) is None,
    {
        proof {
            use_type_invariant(self);
        }
        let cs = chars_of(reference);
        if cs.len() > 0 && cs[0] == '#' {
            let pointer = crate::text::string_of(&cs, 1, cs.len());
            assert(pointer@ =~= reference@.drop_first());
            let pc = chars_of(pointer.as_str());
            if pc.len() == 0 {
                return Some(self.all.copy());
            }
            if pc[0] == '/' {
                match resolve_json_pointer(&self.all, pointer.as_str()) {
                    Some(v) => {
                        return Some(v.copy());
                    },
                    None => {},
                }
            }
        }
        let def_name = decode_ref_name(reference);
        match find_named(&self.named, def_name.as_str()) {
            Some(v) => Some(v.copy()),
            None => None,
        }
    }

    /// The schema named `schema_name`, with the `$ref` aliases that stand for
    /// it followed; `None` where there is no such schema or an alias leads
    /// nowhere.
    pub fn lookup_schema_value(&self, schema_name: &str) -> (r: Option<Json>)
        ensures
            r matches Some(v) ==> lookup_schema(self@, schema_name@) == Some(v@),
            r is None ==> lookup_schema(self@, schema_name@) is None,
    {
        proof {
            use_type_invariant(self);
            lemma_named_drawn(self.all@);
            lemma_strings_finite(self.all@);
        }
        let ghost all = self.all@;
        let ghost named = named_schemas(all);
        let lookup_name = decode_ref_name(schema_name);
        let mut schema: Json = match find_named(&self.named, lookup_name.as_str()) {
            Some(v) => v.copy(),
            None => {
                return None;
            },
        };
        proof {
            lemma_first_index_bounds(keys_of(named), lookup_name@);
            let i = first_index(keys_of(named), lookup_name@).unwrap();
            assert(strings_in(named[i].1).subset_of(strings_in(all)));
        }
        let mut seen: Vec<String> = Vec::new();
        let ghost mut seen_set: Set<Seq<char>> = Set::empty();
        loop
            invariant
                all == self.all@,
                named == named_schemas(all),
                entries_view(self.named@) == named,
                strings_in(all).finite(),
                drawn_from(named, all),
                strings_in(schema@).subset_of(strings_in(all)),
                seen_set.subset_of(strings_in(all)),
                forall|s: Seq<char>| seen_set.contains(s) <==> exists|j: int| 0 <= j < seen@.len() && #[trigger] seen@[j]@ == s,
                lookup_schema(all, schema_name@) == follow_aliases(all, named, schema@, seen_set),
            ensures
                lookup_schema(all, schema_name@) == Some(schema@),
            decreases strings_in(all).difference(seen_set).len(),
        {
            let reference = match schema.get("$ref") {
                Some(v) => match v.as_str() {
                    Some(r) => r.clone(),
                    None => {
                        break ;
                    },
                },
                None => {
                    break ;
                },
            };
            let is_direct_ref = match &schema {
                Json::Object(entries) => {
                    proof {
                        lemma_object_view(schema);
                    }
                    entries.len() == 1
                },
                _ => false,
            };
            if !is_direct_ref {
                break ;
            }
            let mut j: usize = 0;
            let mut already = false;
            while j < seen.len()
                invariant
                    j <= seen@.len(),
                    !already ==> forall|k: int| 0 <= k < j ==> seen@[k]@ != reference@,
                    already ==> seen_set.contains(reference@),
                    forall|s: Seq<char>| seen_set.contains(s) <==> exists|k: int| 0 <= k < seen@.len() && #[trigger] seen@[k]@ == s,
                decreases seen@.len() - j,
            {
                if str_eq(seen[j].as_str(), reference.as_str()) {
                    already = true;
                }
                j = j + 1;
            }
            if already {
                break ;
            }
            proof {
                lemma_get_str_in(schema@, "$ref"@);
                lemma_resolve_drawn(all, named, reference@);
                let d = strings_in(all).difference(seen_set);
                assert(d.contains(reference@));
                assert(strings_in(all).difference(seen_set.insert(reference@)) =~= d.remove(reference@));
                vstd::set_lib::lemma_len_subset(d, strings_in(all));
            }
            let resolved = match self.resolve_reference_value(reference.as_str()) {
                Some(v) => v,
                None => {
                    return None;
                },
            };
            let ghost old_seen = seen@;
            seen.push(reference);
            proof {
                seen_set = seen_set.insert(seen@[old_seen.len() as int]@);
                assert forall|s: Seq<char>| seen_set.contains(s) <==> exists|k: int| 0 <= k < seen@.len() && #[trigger] seen@[k]@ == s by {
                    if seen_set.contains(s) && s != seen@[old_seen.len() as int]@ {
                        let k = choose|k: int| 0 <= k < old_seen.len() && #[trigger] old_seen[k]@ == s;
                        assert(seen@[k] == old_seen[k]);
                    }
                    if exists|k: int| 0 <= k < seen@.len() && #[trigger] seen@[k]@ == s {
                        let k = choose|k: int| 0 <= k < seen@.len() && #[trigger] seen@[k]@ == s;
                        if k < old_seen.len() {
                            assert(old_seen[k] == seen@[k]);
                        }
                    }
                }
            }
            schema = resolved;
        }
        Some(schema)
    }

    /// Fits the member names of a tool's output to the schema named
    /// `schema_name`: they are remapped to its property names where the
    /// schema is found, and left as they are where it is not.
    pub fn fit_to_schema(&self, value: &mut Json, schema_name: &str)
        ensures
            final(value)@ == match lookup_schema(self@, schema_name@) {
                Some(schema) => remap_keys(old(value)@, schema),
                None => old(value)@,
            },
            well_sorted(old(value)@) ==> well_sorted(final(value)@),
    {
        match self.lookup_schema_value(schema_name) {
            Some(schema) => remap_json_keys_to_schema(value, &schema),
            None => {},
        }
    }
}

// ---------------------------------------------------------------------------
// What the table of named schemas holds
// ---------------------------------------------------------------------------
proof fn lemma_add_named_keeps(target: Seq<(Seq<char>, JsonValue)>, source: Seq<(Seq<char>, JsonValue)>, k: Seq<char>)
    ensures
        assoc_get(target, k) matches Some(v) ==> assoc_get(add_named(target, source), k) == Some(v),
    decreases source.len(),
{
    if source.len() > 0 {
        lemma_add_named_keeps(target, source.drop_last(), k);
        let t = add_named(target, source.drop_last());
        let n = pointer_ref_name(source.last().0);
        if assoc_get(t, n) is None {
            lemma_assoc_get_push(t, (n, source.last().1), k);
        }
    }
}

proof fn lemma_add_named_names(target: Seq<(Seq<char>, JsonValue)>, source: Seq<(Seq<char>, JsonValue)>, i: int)
    requires
        0 <= i < source.len(),
    ensures
        assoc_get(add_named(target, source), pointer_ref_name(source[i].0)) is Some,
    decreases source.len(),
{
    let t = add_named(target, source.drop_last());
    let n = pointer_ref_name(source.last().0);
    if i < source.len() - 1 {
        lemma_add_named_names(target, source.drop_last(), i);
        assert(source.drop_last()[i] == source[i]);
        if assoc_get(t, n) is None {
            lemma_assoc_get_push(t, (n, source.last().1), pointer_ref_name(source[i].0));
        }
    } else if assoc_get(t, n) is None {
        lemma_assoc_get_push(t, (n, source.last().1), n);
    }
}

proof fn lemma_add_named_distinct(target: Seq<(Seq<char>, JsonValue)>, source: Seq<(Seq<char>, JsonValue)>)
    requires
        distinct_keys(target),
    ensures
        distinct_keys(add_named(target, source)),
    decreases source.len(),
{
    if source.len() > 0 {
        lemma_add_named_distinct(target, source.drop_last());
        let t = add_named(target, source.drop_last());
        let n = pointer_ref_name(source.last().0);
        if assoc_get(t, n) is None {
            lemma_first_index_bounds(keys_of(t), n);
            let r = t.push((n, source.last().1));
            assert forall|i: int, j: int| 0 <= i < j < r.len() implies #[trigger] r[i].0 != #[trigger] r[j].0 by {
                if j == t.len() {
                    assert(keys_of(t)[i] == t[i].0);
                } else {
                    assert(r[i] == t[i] && r[j] == t[j]);
                }
            }
        }
    }
}

/// No two schemas of the table share a name.
pub proof fn lemma_named_schemas_distinct(all: JsonValue)
    ensures
        distinct_keys(named_schemas(all)),
{
    let e = Seq::<(Seq<char>, JsonValue)>::empty();
    let p = add_named(e, members_of(all, "properties"@));
    let pd = add_named(p, members_of(all, "$defs"@));
    lemma_add_named_distinct(e, members_of(all, "properties"@));
    lemma_add_named_distinct(p, members_of(all, "$defs"@));
    lemma_add_named_distinct(pd, members_of(all, "definitions"@));
}

/// Every member of `properties`, `$defs` and `definitions` can be found in
/// the table under its reference name; where several share a name, a member
/// of `properties` comes before one of `$defs`, which comes before one of
/// `definitions`.
pub proof fn lemma_named_schemas_cover(all: JsonValue, name: Seq<char>)
    ensures
        forall|i: int|
            0 <= i < members_of(all, "properties"@).len() ==> assoc_get(
                named_schemas(all),
                pointer_ref_name(#[trigger] members_of(all, "properties"@)[i].0),
            ) is Some,
        forall|i: int|
            0 <= i < members_of(all, "$defs"@).len() ==> assoc_get(
                named_schemas(all),
                pointer_ref_name(#[trigger] members_of(all, "$defs"@)[i].0),
            ) is Some,
        forall|i: int|
            0 <= i < members_of(all, "definitions"@).len() ==> assoc_get(
                named_schemas(all),
                pointer_ref_name(#[trigger] members_of(all, "definitions"@)[i].0),
            ) is Some,
        assoc_get(add_named(Seq::empty(), members_of(all, "properties"@)), name) matches Some(v) ==> assoc_get(
            named_schemas(all),
            name,
        ) == Some(v),
        assoc_get(
            add_named(add_named(Seq::empty(), members_of(all, "properties"@)), members_of(all, "$defs"@)),
            name,
        ) matches Some(v) ==> assoc_get(named_schemas(all), name) == Some(v),
{
    let e = Seq::<(Seq<char>, JsonValue)>::empty();
    let props = members_of(all, "properties"@);
    let defs = members_of(all, "$defs"@);
    let definitions = members_of(all, "definitions"@);
    let p = add_named(e, props);
    let pd = add_named(p, defs);
    lemma_add_named_keeps(p, defs, name);
    lemma_add_named_keeps(pd, definitions, name);
    assert forall|i: int| 0 <= i < props.len() implies assoc_get(
        named_schemas(all),
        pointer_ref_name(#[trigger] props[i].0),
    ) is Some by {
        let n = pointer_ref_name(props[i].0);
        lemma_add_named_names(e, props, i);
        lemma_add_named_keeps(p, defs, n);
        lemma_add_named_keeps(pd, definitions, n);
    }
    assert forall|i: int| 0 <= i < defs.len() implies assoc_get(
        named_schemas(all),
        pointer_ref_name(#[trigger] defs[i].0),
    ) is Some by {
        let n = pointer_ref_name(defs[i].0);
        lemma_add_named_names(p, defs, i);
        lemma_add_named_keeps(pd, definitions, n);
    }
    assert forall|i: int| 0 <= i < definitions.len() implies assoc_get(
        named_schemas(all),
        pointer_ref_name(#[trigger] definitions[i].0),
    ) is Some by {
        lemma_add_named_names(pd, definitions, i);
    }
}

/// A named schema that is not a lone `$ref` is looked up as it is.
pub proof fn lemma_lookup_plain(all: JsonValue, schema_name: Seq<char>)
    ensures
        assoc_get(named_schemas(all), pointer_ref_name(schema_name)) matches Some(s) ==> (!is_direct_ref(s)
            || s.get_str("$ref"@) is None ==> lookup_schema(all, schema_name) == Some(s)),
{
    let named = named_schemas(all);
    lemma_named_drawn(all);
    lemma_strings_finite(all);
    lemma_first_index_bounds(keys_of(named), pointer_ref_name(schema_name));
    if let Some(i) = first_index(keys_of(named), pointer_ref_name(schema_name)) {
        assert(strings_in(named[i].1).subset_of(strings_in(all)));
    }
}

// ---------------------------------------------------------------------------
// Pointers come before names
// ---------------------------------------------------------------------------
/// A reference `#` followed by a JSON Pointer that names a value in the
/// document resolves to that value, whatever the table of named schemas holds
/// under the reference's last segment.
pub proof fn lemma_pointer_reference_first(
    all: JsonValue,
    named: Seq<(Seq<char>, JsonValue)>,
    reference: Seq<char>,
)
    requires
        reference.len() > 1,
        reference[0] == '#',
        reference[1] == '/',
        resolve_pointer(all, reference.drop_first()) is Some,
    ensures
        resolve_reference(all, named, reference) == resolve_pointer(all, reference.drop_first()),
{
    assert(reference.drop_first()[0] == reference[1]);
}

/// A named schema that is only a `$ref` of the form `#/...` naming a value in
/// the document is looked up as that value, where the value is not itself a
/// lone `$ref`.
pub proof fn lemma_lookup_follows_pointer(all: JsonValue, schema_name: Seq<char>, reference: Seq<char>)
    requires
        assoc_get(named_schemas(all), pointer_ref_name(schema_name)) matches Some(s) && is_direct_ref(s)
            && s.get_str("$ref"@) == Some(reference),
        reference.len() > 1,
        reference[0] == '#',
        reference[1] == '/',
        resolve_pointer(all, reference.drop_first()) matches Some(v) && (!is_direct_ref(v) || v.get_str(
            "$ref"@,
        ) is None),
    ensures
        lookup_schema(all, schema_name) == resolve_pointer(all, reference.drop_first()),
{
    let named = named_schemas(all);
    let s = assoc_get(named, pointer_ref_name(schema_name)).unwrap();
    let v = resolve_pointer(all, reference.drop_first()).unwrap();
    lemma_named_drawn(all);
    lemma_strings_finite(all);
    lemma_first_index_bounds(keys_of(named), pointer_ref_name(schema_name));
    let i = first_index(keys_of(named), pointer_ref_name(schema_name)).unwrap();
    assert(strings_in(named[i].1).subset_of(strings_in(all)));
    lemma_pointer_reference_first(all, named, reference);
    lemma_resolve_drawn(all, named, reference);
    lemma_get_str_in(s, "$ref"@);
    let seen = Set::<Seq<char>>::empty().insert(reference);
    assert(follow_aliases(all, named, v, seen) == Some(v));
    assert(follow_aliases(all, named, s, Set::empty()) == follow_aliases(all, named, v, seen));
}

} // verus!
