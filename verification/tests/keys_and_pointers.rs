use wasmcp_cue::json::Json;
use wasmcp_cue::keys::{
    normalize_json_keys_to_snake, normalize_trivial_aliases, remap_json_keys_to_schema,
};
use wasmcp_cue::pointer::{
    decode_pointer_token, decode_ref_name, parse_usize, percent_decode, resolve_json_pointer,
};
use wasmcp_cue::registry::SchemaRegistry;

fn s(text: &str) -> Json {
    Json::Str(text.to_string())
}

fn obj(members: Vec<(&str, Json)>) -> Json {
    let mut entries: Vec<(String, Json)> =
        members.into_iter().map(|(k, v)| (k.to_string(), v)).collect();
    entries.sort_by(|a, b| a.0.cmp(&b.0));
    Json::Object(entries)
}

fn typed(t: &str) -> Json {
    obj(vec![("type", s(t))])
}

#[test]
fn normalized_keys_stay_sorted_and_later_duplicates_win() {
    let mut value = obj(vec![("aB", s("first")), ("a_b", s("second")), ("Z", s("z"))]);
    normalize_json_keys_to_snake(&mut value);
    // "Z" < "aB" < "a_b" in order; "aB" and "a_b" both become "a_b".
    assert_eq!(value, obj(vec![("a_b", s("second")), ("z", s("z"))]));
}

#[test]
fn normalizes_keys_inside_arrays() {
    let mut value = Json::Array(vec![obj(vec![("petType", s("dog"))]), Json::Number("3".to_string())]);
    normalize_json_keys_to_snake(&mut value);
    assert_eq!(
        value,
        Json::Array(vec![obj(vec![("pet_type", s("dog"))]), Json::Number("3".to_string())])
    );
}

#[test]
fn remapping_undoes_normalizing_for_schema_shaped_values() {
    let schema = obj(vec![
        ("type", s("object")),
        (
            "properties",
            obj(vec![
                ("petType", typed("string")),
                (
                    "owners",
                    obj(vec![
                        ("type", s("array")),
                        ("items", obj(vec![("properties", obj(vec![("firstName", typed("string"))]))])),
                    ]),
                ),
            ]),
        ),
    ]);
    let before = obj(vec![
        ("petType", s("cat")),
        ("owners", Json::Array(vec![obj(vec![("firstName", s("Ada"))]), obj(vec![("firstName", s("Bo"))])])),
    ]);
    let mut value = before.copy();
    normalize_json_keys_to_snake(&mut value);
    assert_ne!(value, before);
    remap_json_keys_to_schema(&mut value, &schema);
    assert_eq!(value, before);
}

#[test]
fn remapping_keeps_unknown_members() {
    let schema = obj(vec![("properties", obj(vec![("petType", typed("string"))]))]);
    let mut value = obj(vec![("pet_type", s("cat")), ("extra_field", s("x"))]);
    remap_json_keys_to_schema(&mut value, &schema);
    assert_eq!(value, obj(vec![("extra_field", s("x")), ("petType", s("cat"))]));
}

#[test]
fn trivial_aliases_are_inlined_and_removed() {
    let mut schema = obj(vec![
        (
            "$defs",
            obj(vec![
                ("Name", typed("string")),
                (
                    "Person",
                    obj(vec![
                        ("type", s("object")),
                        ("properties", obj(vec![("name", obj(vec![("$ref", s("#/$defs/Name"))]))])),
                    ]),
                ),
            ]),
        ),
        ("$ref", s("#/$defs/Person")),
    ]);
    normalize_trivial_aliases(&mut schema);
    assert_eq!(
        schema,
        obj(vec![
            (
                "$defs",
                obj(vec![(
                    "Person",
                    obj(vec![
                        ("type", s("object")),
                        ("properties", obj(vec![("name", typed("string"))])),
                    ]),
                )]),
            ),
            ("$ref", s("#/$defs/Person")),
        ])
    );
}

#[test]
fn schemas_without_trivial_aliases_are_unchanged() {
    let before = obj(vec![
        ("$defs", obj(vec![("Thing", obj(vec![("type", s("object")), ("title", s("t"))]))])),
        ("$ref", s("#/$defs/Thing")),
    ]);
    let mut schema = before.copy();
    normalize_trivial_aliases(&mut schema);
    assert_eq!(schema, before);
}

#[test]
fn percent_decoding_reads_escapes_as_utf8() {
    assert_eq!(percent_decode("%41bc"), "Abc");
    assert_eq!(percent_decode("caf%C3%A9"), "café");
    assert_eq!(percent_decode("%zz"), "%zz");
    assert_eq!(percent_decode("%4"), "%4");
    assert_eq!(percent_decode("%FF"), "\u{FFFD}");
    assert_eq!(percent_decode("plain/name"), "plain/name");
}

#[test]
fn reference_names_are_decoded() {
    assert_eq!(decode_ref_name("#/$defs/%23Schema"), "Schema");
    assert_eq!(decode_ref_name("Message"), "Message");
    assert_eq!(decode_ref_name("#/definitions/a%2Fb"), "a/b");
}

#[test]
fn pointer_tokens_unescape_slash_before_tilde() {
    assert_eq!(decode_pointer_token("a~1b~0c"), "a/b~c");
    assert_eq!(decode_pointer_token("~01"), "~1");
    assert_eq!(decode_pointer_token("%7E1"), "/");
}

#[test]
fn indices_parse_like_usize() {
    assert_eq!(parse_usize("12"), Some(12));
    assert_eq!(parse_usize("+7"), Some(7));
    assert_eq!(parse_usize("007"), Some(7));
    assert_eq!(parse_usize(""), None);
    assert_eq!(parse_usize("+"), None);
    assert_eq!(parse_usize("-1"), None);
    assert_eq!(parse_usize("1a"), None);
    assert_eq!(parse_usize("99999999999999999999999"), None);
}

#[test]
fn pointers_walk_objects_and_arrays() {
    let doc = obj(vec![(
        "a",
        obj(vec![("b/c", Json::Array(vec![Json::Number("10".to_string()), obj(vec![("d", Json::Bool(true))])]))]),
    )]);
    assert_eq!(resolve_json_pointer(&doc, "/a/b~1c/1/d"), Some(&Json::Bool(true)));
    assert_eq!(resolve_json_pointer(&doc, "/a/b~1c/0"), Some(&Json::Number("10".to_string())));
    assert_eq!(resolve_json_pointer(&doc, "/a/x"), None);
    assert_eq!(resolve_json_pointer(&doc, "/a/b~1c/5"), None);
    assert_eq!(resolve_json_pointer(&doc, ""), Some(&doc));
}

fn registry_document() -> Json {
    obj(vec![
        (
            "properties",
            obj(vec![
                ("Greeting", obj(vec![("$ref", s("#/$defs/Message"))])),
                ("A", obj(vec![("$ref", s("#/properties/B"))])),
                ("B", obj(vec![("$ref", s("#/properties/A"))])),
                ("Broken", obj(vec![("$ref", s("#/properties/Nowhere"))])),
            ]),
        ),
        (
            "$defs",
            obj(vec![(
                "Message",
                obj(vec![("type", s("object")), ("properties", obj(vec![("text", typed("string"))]))]),
            )]),
        ),
    ])
}

#[test]
fn lookup_follows_reference_aliases() {
    let registry = SchemaRegistry::new(registry_document());
    let message =
        obj(vec![("type", s("object")), ("properties", obj(vec![("text", typed("string"))]))]);
    assert_eq!(registry.lookup_schema_value("Greeting"), Some(message.copy()));
    assert_eq!(registry.lookup_schema_value("#/$defs/Message"), Some(message));
    assert_eq!(registry.lookup_schema_value("Missing"), None);
    assert_eq!(registry.lookup_schema_value("Broken"), None);
}

#[test]
fn lookup_stops_at_a_reference_seen_before() {
    let registry = SchemaRegistry::new(registry_document());
    assert_eq!(
        registry.lookup_schema_value("A"),
        Some(obj(vec![("$ref", s("#/properties/B"))]))
    );
}

#[test]
fn references_resolve_to_document_pointer_or_name() {
    let registry = SchemaRegistry::new(registry_document());
    assert_eq!(registry.resolve_reference_value("#"), Some(registry_document()));
    assert_eq!(
        registry.resolve_reference_value("#/properties/Greeting"),
        Some(obj(vec![("$ref", s("#/$defs/Message"))]))
    );
    assert_eq!(
        registry.resolve_reference_value("Greeting"),
        Some(obj(vec![("$ref", s("#/$defs/Message"))]))
    );
    assert_eq!(registry.resolve_reference_value("#/nothing/here"), None);
}

#[test]
fn normalizing_keys_twice_changes_nothing_more() {
    let mut value = obj(vec![
        ("petType", obj(vec![("FirstName", s("Ada")), ("first_name", s("Bea"))])),
        ("list", Json::Array(vec![obj(vec![("aB", Json::Null)])])),
    ]);
    normalize_json_keys_to_snake(&mut value);
    let once = value.copy();
    normalize_json_keys_to_snake(&mut value);
    assert_eq!(value, once);
    assert_eq!(
        once,
        obj(vec![
            ("list", Json::Array(vec![obj(vec![("a_b", Json::Null)])])),
            ("pet_type", obj(vec![("first_name", s("Bea"))])),
        ])
    );
}

#[test]
fn aliases_of_aliases_become_inlined_definitions() {
    // `Label` refers to the trivial alias `Name`; after normalizing it holds
    // the alias itself and stays defined, while `Name` is gone.
    let mut schema = obj(vec![
        (
            "$defs",
            obj(vec![
                ("Name", typed("string")),
                ("Label", obj(vec![("$ref", s("#/$defs/Name"))])),
            ]),
        ),
        ("properties", obj(vec![("title", obj(vec![("$ref", s("#/$defs/Label"))]))])),
    ]);
    normalize_trivial_aliases(&mut schema);
    assert_eq!(
        schema,
        obj(vec![
            ("$defs", obj(vec![("Label", typed("string"))])),
            ("properties", obj(vec![("title", obj(vec![("$ref", s("#/$defs/Label"))]))])),
        ])
    );
}

#[test]
fn named_schemas_prefer_properties_then_defs_then_definitions() {
    let doc = obj(vec![
        ("properties", obj(vec![("Thing", typed("string"))])),
        ("$defs", obj(vec![("Thing", typed("integer")), ("Other", typed("number"))])),
        ("definitions", obj(vec![("Other", typed("boolean")), ("Last", typed("null"))])),
    ]);
    let registry = SchemaRegistry::new(doc);
    assert_eq!(registry.lookup_schema_value("Thing"), Some(typed("string")));
    assert_eq!(registry.lookup_schema_value("Other"), Some(typed("number")));
    assert_eq!(registry.lookup_schema_value("#/definitions/Last"), Some(typed("null")));
}

#[test]
fn outputs_are_fitted_to_their_named_schema() {
    let doc = obj(vec![(
        "properties",
        obj(vec![
            ("Out", obj(vec![("$ref", s("#/$defs/PetOut"))])),
        ]),
    ), (
        "$defs",
        obj(vec![(
            "PetOut",
            obj(vec![("type", s("object")), ("properties", obj(vec![("petType", typed("string"))]))]),
        )]),
    )]);
    let registry = SchemaRegistry::new(doc);
    let mut value = obj(vec![("pet_type", s("cat"))]);
    registry.fit_to_schema(&mut value, "Out");
    assert_eq!(value, obj(vec![("petType", s("cat"))]));
    let mut unknown = obj(vec![("pet_type", s("cat"))]);
    registry.fit_to_schema(&mut unknown, "Nowhere");
    assert_eq!(unknown, obj(vec![("pet_type", s("cat"))]));
}

#[test]
fn remapping_without_properties_or_items_changes_nothing() {
    let value = obj(vec![
        ("pet_type", obj(vec![("first_name", s("Ada"))])),
        ("list", Json::Array(vec![obj(vec![("a_b", Json::Null)])])),
    ]);
    for schema in [Json::Null, typed("object"), obj(vec![("properties", s("not an object"))])] {
        let mut v = value.copy();
        remap_json_keys_to_schema(&mut v, &schema);
        assert_eq!(v, value);
    }
}
