//! A JSON document model: the values a schema or a tool argument is made of.
use vstd::prelude::*;
use crate::text::str_eq;

verus! {

/// A JSON value. Object members keep the order in which they are stored;
/// documents read from text hold their members sorted by key.
#[derive(Debug, PartialEq, Eq)]
pub enum Json {
    Null,
    Bool(bool),
    /// A number, held as its JSON text.
    Number(String),
    Str(String),
    Array(Vec<Json>),
    Object(Vec<(String, Json)>),
}

/// The mathematical value of a [`Json`].
pub enum JsonValue {
    Null,
    Bool(bool),
    Number(Seq<char>),
    Str(Seq<char>),
    Array(Seq<JsonValue>),
    Object(Seq<(Seq<char>, JsonValue)>),
}

impl View for Json {
    type V = JsonValue;

    open spec fn view(&self) -> JsonValue
        decreases self,
    {
        match self {
            Json::Null => JsonValue::Null,
            Json::Bool(b) => JsonValue::Bool(*b),
            Json::Number(n) => JsonValue::Number(n@),
            Json::Str(s) => JsonValue::Str(s@),
            Json::Array(items) => JsonValue::Array(
                Seq::new(items.len() as nat, |i: int| if 0 <= i < items.len() { items@[i].view() } else { JsonValue::Null }),
            ),
            Json::Object(entries) => JsonValue::Object(
                Seq::new(entries.len() as nat, |i: int| (entries@[i].0@, if 0 <= i < entries.len() { entries@[i].1.view() } else { JsonValue::Null })),
            ),
        }
    }
}


// ---------------------------------------------------------------------------
// Sizes: a measure that shrinks from a value to the values inside it
// ---------------------------------------------------------------------------
pub open spec fn json_size(j: JsonValue) -> nat
    decreases j,
{
    match j {
        JsonValue::Array(items) => 1 + items_size(items),
        JsonValue::Object(entries) => 1 + entries_size(entries),
        _ => 1,
    }
}

pub open spec fn items_size(items: Seq<JsonValue>) -> nat
    decreases items,
{
    if items.len() == 0 {
        0
    } else {
        items_size(items.drop_last()) + json_size(items.last())
    }
}

pub open spec fn entries_size(entries: Seq<(Seq<char>, JsonValue)>) -> nat
    decreases entries,
{
    if entries.len() == 0 {
        0
    } else {
        let p = entries.last();
        entries_size(entries.drop_last()) + json_size(p.1)
    }
}

pub proof fn lemma_item_smaller(items: Seq<JsonValue>, i: int)
    requires
        0 <= i < items.len(),
    ensures
        json_size(items[i]) <= items_size(items),
    decreases items.len(),
{
    if i < items.len() - 1 {
        lemma_item_smaller(items.drop_last(), i);
    }
}

pub proof fn lemma_entry_smaller(entries: Seq<(Seq<char>, JsonValue)>, i: int)
    requires
        0 <= i < entries.len(),
    ensures
        json_size(entries[i].1) <= entries_size(entries),
    decreases entries.len(),
{
    if i < entries.len() - 1 {
        lemma_entry_smaller(entries.drop_last(), i);
    }
}


// ---------------------------------------------------------------------------
// Keyed lookup: an object member is found by the first entry with its key
// ---------------------------------------------------------------------------
/// The position of the first key equal to `k`.
pub open spec fn first_index(keys: Seq<Seq<char>>, k: Seq<char>) -> Option<int>
    decreases keys.len(),
{
    if keys.len() == 0 {
        None
    } else if keys[0] == k {
        Some(0)
    } else {
        match first_index(keys.drop_first(), k) {
            Some(i) => Some(i + 1),
            None => None,
        }
    }
}

pub proof fn lemma_first_index(keys: Seq<Seq<char>>, k: Seq<char>, i: int)
    requires
        0 <= i <= keys.len(),
        forall|j: int| 0 <= j < i ==> keys[j] != k,
        i == keys.len() || keys[i] == k,
    ensures
        first_index(keys, k) == (if i == keys.len() { None::<int> } else { Some(i) }),
    decreases i,
{
    if i > 0 {
        lemma_first_index(keys.drop_first(), k, i - 1);
    }
}

pub proof fn lemma_first_index_bounds(keys: Seq<Seq<char>>, k: Seq<char>)
    ensures
        first_index(keys, k) matches Some(i) ==> 0 <= i < keys.len() && keys[i] == k,
        first_index(keys, k) is None ==> forall|j: int| 0 <= j < keys.len() ==> keys[j] != k,
    decreases keys.len(),
{
    if keys.len() > 0 {
        lemma_first_index_bounds(keys.drop_first(), k);
        if keys[0] != k && first_index(keys, k) is None {
            assert forall|j: int| 0 <= j < keys.len() implies keys[j] != k by {
                if j > 0 {
                    assert(keys[j] == keys.drop_first()[j - 1]);
                }
            }
        }
    }
}

/// The keys of a sequence of entries.
pub open spec fn keys_of<V>(entries: Seq<(Seq<char>, V)>) -> Seq<Seq<char>> {
    Seq::new(entries.len(), |i: int| entries[i].0)
}

/// The keys of a vector of entries, as character sequences.
pub open spec fn string_keys<V>(entries: Seq<(String, V)>) -> Seq<Seq<char>> {
    Seq::new(entries.len(), |i: int| entries[i].0@)
}

/// The value of the first entry with key `k`.
pub open spec fn assoc_get<V>(entries: Seq<(Seq<char>, V)>, k: Seq<char>) -> Option<V> {
    match first_index(keys_of(entries), k) {
        Some(i) => Some(entries[i].1),
        None => None,
    }
}

/// No key before the first one equal to `k` equals it.
pub proof fn lemma_first_index_min(keys: Seq<Seq<char>>, k: Seq<char>)
    ensures
        first_index(keys, k) matches Some(i) ==> forall|j: int| 0 <= j < i ==> keys[j] != k,
    decreases keys.len(),
{
    if keys.len() > 0 && keys[0] != k {
        lemma_first_index_min(keys.drop_first(), k);
        lemma_first_index_bounds(keys, k);
        if let Some(i) = first_index(keys, k) {
            assert forall|j: int| 0 <= j < i implies keys[j] != k by {
                if j > 0 {
                    assert(keys[j] == keys.drop_first()[j - 1]);
                }
            }
        }
    }
}

/// Looking a key up after appending an entry: the earlier entries come first.
pub proof fn lemma_assoc_get_push<V>(s: Seq<(Seq<char>, V)>, e: (Seq<char>, V), x: Seq<char>)
    ensures
        assoc_get(s.push(e), x) == match assoc_get(s, x) {
            Some(v) => Some(v),
            None => if e.0 == x {
                Some(e.1)
            } else {
                None
            },
        },
{
    let ks = keys_of(s);
    let kp = keys_of(s.push(e));
    assert(kp =~= ks.push(e.0));
    lemma_first_index_bounds(ks, x);
    lemma_first_index_min(ks, x);
    match first_index(ks, x) {
        Some(i) => {
            lemma_first_index(kp, x, i);
        },
        None => {
            if e.0 == x {
                lemma_first_index(kp, x, ks.len() as int);
            } else {
                lemma_first_index(kp, x, kp.len() as int);
            }
        },
    }
}

/// The position of the first entry of `entries` whose key is `key`.
pub fn find_key<V>(entries: &Vec<(String, V)>, key: &str) -> (r: Option<usize>)
    ensures
        r matches Some(i) ==> first_index(string_keys(entries@), key@) == Some(i as int),
        r is None ==> first_index(string_keys(entries@), key@) is None,
{
    let mut i: usize = 0;
    while i < entries.len()
        invariant
            i <= entries@.len(),
            forall|j: int| 0 <= j < i ==> string_keys(entries@)[j] != key@,
        decreases entries@.len() - i,
    {
        if str_eq(entries[i].0.as_str(), key) {
            proof {
                lemma_first_index(string_keys(entries@), key@, i as int);
            }
            return Some(i);
        }
        i = i + 1;
    }
    proof {
        lemma_first_index(string_keys(entries@), key@, i as int);
    }
    None
}

impl JsonValue {
    /// The member `k` of an object; nothing for other values.
    pub open spec fn get(self, k: Seq<char>) -> Option<JsonValue> {
        match self {
            JsonValue::Object(entries) => assoc_get(entries, k),
            _ => None,
        }
    }

    pub open spec fn as_str(self) -> Option<Seq<char>> {
        match self {
            JsonValue::Str(s) => Some(s),
            _ => None,
        }
    }

    pub open spec fn as_object(self) -> Option<Seq<(Seq<char>, JsonValue)>> {
        match self {
            JsonValue::Object(entries) => Some(entries),
            _ => None,
        }
    }

    pub open spec fn as_array(self) -> Option<Seq<JsonValue>> {
        match self {
            JsonValue::Array(items) => Some(items),
            _ => None,
        }
    }

    /// The member `k`, where it is a string.
    pub open spec fn get_str(self, k: Seq<char>) -> Option<Seq<char>> {
        match self.get(k) {
            Some(v) => v.as_str(),
            None => None,
        }
    }

    /// The member `k`, where it is an object.
    pub open spec fn get_object(self, k: Seq<char>) -> Option<Seq<(Seq<char>, JsonValue)>> {
        match self.get(k) {
            Some(v) => v.as_object(),
            None => None,
        }
    }

    /// The member `k`, where it is an array.
    pub open spec fn get_array(self, k: Seq<char>) -> Option<Seq<JsonValue>> {
        match self.get(k) {
            Some(v) => v.as_array(),
            None => None,
        }
    }
}

pub proof fn lemma_get_smaller(j: JsonValue, k: Seq<char>)
    ensures
        j.get(k) matches Some(v) ==> json_size(v) < json_size(j),
{
    if let JsonValue::Object(entries) = j {
        lemma_first_index_bounds(keys_of(entries), k);
        if let Some(i) = first_index(keys_of(entries), k) {
            lemma_entry_smaller(entries, i);
        }
    }
}

pub proof fn lemma_object_entry_smaller(j: JsonValue, i: int)
    requires
        j is Object,
        0 <= i < j->Object_0.len(),
    ensures
        json_size(j->Object_0[i].1) < json_size(j),
{
    lemma_entry_smaller(j->Object_0, i);
}

pub proof fn lemma_array_item_smaller(j: JsonValue, i: int)
    requires
        j is Array,
        0 <= i < j->Array_0.len(),
    ensures
        json_size(j->Array_0[i]) < json_size(j),
{
    lemma_item_smaller(j->Array_0, i);
}

impl Json {
    /// The member `key` of an object; `None` for other values or a missing key.
    pub fn get(&self, key: &str) -> (r: Option<&Json>)
        ensures
            r matches Some(v) ==> self@.get(key@) == Some(v@),
            r is None ==> self@.get(key@) is None,
    {
        match self {
            Json::Object(entries) => {
                proof {
                    lemma_object_view(*self);
                    assert(keys_of(self@->Object_0) =~= string_keys(entries@));
                }
                match find_key(entries, key) {
                    Some(i) => {
                        proof {
                            lemma_first_index_bounds(string_keys(entries@), key@);
                        }
                        Some(&entries[i].1)
                    },
                    None => None,
                }
            },
            _ => None,
        }
    }

    pub fn as_str(&self) -> (r: Option<&String>)
        ensures
            r matches Some(s) ==> self@.as_str() == Some(s@),
            r is None ==> self@.as_str() is None,
    {
        match self {
            Json::Str(s) => Some(s),
            _ => None,
        }
    }

    pub fn as_object(&self) -> (r: Option<&Vec<(String, Json)>>)
        ensures
            r matches Some(es) ==> self@ == JsonValue::Object(entries_view(es@)),
            r is None ==> self@.as_object() is None,
    {
        match self {
            Json::Object(entries) => {
                proof {
                    lemma_object_view(*self);
                }
                Some(entries)
            },
            _ => None,
        }
    }

    pub fn as_array(&self) -> (r: Option<&Vec<Json>>)
        ensures
            r matches Some(items) ==> self@ == JsonValue::Array(items_view(items@)),
            r is None ==> self@.as_array() is None,
    {
        match self {
            Json::Array(items) => {
                proof {
                    lemma_array_view(*self);
                }
                Some(items)
            },
            _ => None,
        }
    }

    /// A copy of this value.
    pub fn copy(&self) -> (r: Json)
        ensures
            r@ == self@,
        decreases json_size(self@),
    {
        match self {
            Json::Null => Json::Null,
            Json::Bool(b) => Json::Bool(*b),
            Json::Number(n) => Json::Number(n.clone()),
            Json::Str(s) => Json::Str(s.clone()),
            Json::Array(items) => {
                proof {
                    lemma_array_view(*self);
                }
                let mut out: Vec<Json> = Vec::new();
                let mut i: usize = 0;
                while i < items.len()
                    invariant
                        i <= items@.len(),
                        self@ == JsonValue::Array(items_view(items@)),
                        items_view(out@) == items_view(items@).take(i as int),
                    decreases items@.len() - i,
                {
                    assert(items_view(out@).len() == out@.len());
                    assert(out@.len() == i);
                    proof {
                        lemma_array_item_smaller(self@, i as int);
                    }
                    let c = items[i].copy();
                    let ghost before = out@;
                    out.push(c);
                    assert(before.len() == i);
                    assert(out@.len() == i + 1);
                    assert(out@[i as int]@ == items@[i as int]@);
                    assert forall|j: int| 0 <= j <= i implies #[trigger] items_view(out@)[j] == items_view(items@)[j] by {
                        if j < i {
                            assert(items_view(before)[j] == items_view(items@).take(i as int)[j]);
                        }
                    }
                    assert(items_view(out@) =~= items_view(items@).take(i + 1));
                    i = i + 1;
                }
                assert(items_view(items@).take(items@.len() as int) =~= items_view(items@));
                let r = Json::Array(out);
                proof {
                    lemma_array_view(r);
                }
                r
            },
            Json::Object(entries) => {
                proof {
                    lemma_object_view(*self);
                }
                let mut out: Vec<(String, Json)> = Vec::new();
                let mut i: usize = 0;
                while i < entries.len()
                    invariant
                        i <= entries@.len(),
                        self@ == JsonValue::Object(entries_view(entries@)),
                        entries_view(out@) == entries_view(entries@).take(i as int),
                    decreases entries@.len() - i,
                {
                    assert(entries_view(out@).len() == out@.len());
                    assert(out@.len() == i);
                    proof {
                        lemma_object_entry_smaller(self@, i as int);
                    }
                    let k = entries[i].0.clone();
                    let v = entries[i].1.copy();
                    let ghost before = out@;
                    out.push((k, v));
                    assert(out@[i as int].0@ == entries@[i as int].0@);
                    assert(out@[i as int].1@ == entries@[i as int].1@);
                    assert forall|j: int| 0 <= j <= i implies #[trigger] entries_view(out@)[j] == entries_view(entries@)[j] by {
                        if j < i {
                            assert(entries_view(before)[j] == entries_view(entries@).take(i as int)[j]);
                        }
                    }
                    assert(entries_view(out@) =~= entries_view(entries@).take(i + 1));
                    i = i + 1;
                }
                assert(entries_view(entries@).take(entries@.len() as int) =~= entries_view(entries@));
                let r = Json::Object(out);
                proof {
                    lemma_object_view(r);
                }
                r
            },
        }
    }
}

pub proof fn lemma_array_view(j: Json)
    requires
        j is Array,
    ensures
        j@ == JsonValue::Array(items_view(j->Array_0@)),
{
    assert(j@->Array_0 =~= items_view(j->Array_0@));
}

pub proof fn lemma_object_view(j: Json)
    requires
        j is Object,
    ensures
        j@ == JsonValue::Object(entries_view(j->Object_0@)),
{
    let es = j->Object_0;
    assert forall|i: int| 0 <= i < es.len() implies #[trigger] j@->Object_0[i] == entries_view(es@)[i] by {
    }
    assert(j@->Object_0 =~= entries_view(es@));
}

/// The values of a vector of JSON values.
pub open spec fn items_view(items: Seq<Json>) -> Seq<JsonValue> {
    Seq::new(items.len(), |i: int| items[i]@)
}

/// The entries of a vector of object members, as mathematical values.
pub open spec fn entries_view(entries: Seq<(String, Json)>) -> Seq<(Seq<char>, JsonValue)> {
    Seq::new(entries.len(), |i: int| (entries[i].0@, entries[i].1@))
}

} // verus!
