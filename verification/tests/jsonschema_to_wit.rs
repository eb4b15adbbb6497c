use wasmcp_cue::json::Json;
use wasmcp_cue::keys::{normalize_json_keys_to_snake, remap_json_keys_to_schema};
use wasmcp_cue::wit::{generate_wit, generate_wit_for_tools, ToolFunction, WitConfig};

fn s(text: &str) -> Json {
    Json::Str(text.to_string())
}

/// An object whose members are sorted by key, as a parsed document holds them.
fn obj(members: Vec<(&str, Json)>) -> Json {
    let mut entries: Vec<(String, Json)> =
        members.into_iter().map(|(k, v)| (k.to_string(), v)).collect();
    entries.sort_by(|a, b| a.0.cmp(&b.0));
    Json::Object(entries)
}

fn arr(items: Vec<Json>) -> Json {
    Json::Array(items)
}

fn typed(t: &str) -> Json {
    obj(vec![("type", s(t))])
}

#[test]
fn generates_wit_for_input_and_output_records() {
    let input = obj(vec![
        (
            "$defs",
            obj(vec![(
                "Input",
                obj(vec![
                    ("type", s("object")),
                    ("properties", obj(vec![("name", typed("string")), ("age", typed("integer"))])),
                    ("required", arr(vec![s("name")])),
                ]),
            )]),
        ),
        ("$ref", s("#/$defs/Input")),
    ]);
    let output = obj(vec![
        (
            "$defs",
            obj(vec![(
                "Output",
                obj(vec![
                    ("type", s("object")),
                    ("properties", obj(vec![("message", typed("string"))])),
                    ("required", arr(vec![s("message")])),
                ]),
            )]),
        ),
        ("$ref", s("#/$defs/Output")),
    ]);

    let wit =
        generate_wit(&input, &output, &WitConfig::default()).expect("WIT should be generated");

    assert!(wit.contains("package acme:app@0.1.0;"));
    assert!(wit.contains("interface api"));
    assert!(wit.contains("record input"));
    assert!(wit.contains("name: string"));
    assert!(wit.contains("age: option<s64>"));
    assert!(wit.contains("record output"));
    assert!(wit.contains("run: func(input: input) -> output;"));
    assert!(wit.contains("world component"));
}

#[test]
fn supports_nested_objects_and_arrays() {
    let input = obj(vec![
        (
            "$defs",
            obj(vec![(
                "Input",
                obj(vec![
                    ("type", s("object")),
                    (
                        "properties",
                        obj(vec![(
                            "items",
                            obj(vec![
                                ("type", s("array")),
                                (
                                    "items",
                                    obj(vec![
                                        ("type", s("object")),
                                        ("properties", obj(vec![("label", typed("string"))])),
                                        ("required", arr(vec![s("label")])),
                                    ]),
                                ),
                            ]),
                        )]),
                    ),
                ]),
            )]),
        ),
        ("$ref", s("#/$defs/Input")),
    ]);
    let output = obj(vec![
        (
            "$defs",
            obj(vec![(
                "Output",
                obj(vec![
                    ("type", s("object")),
                    ("properties", obj(vec![("ok", typed("boolean"))])),
                    ("required", arr(vec![s("ok")])),
                ]),
            )]),
        ),
        ("$ref", s("#/$defs/Output")),
    ]);

    let wit =
        generate_wit(&input, &output, &WitConfig::default()).expect("WIT should be generated");

    assert!(wit.contains("record input-items-item"));
    assert!(wit.contains("items: option<list<input-items-item>>"));
    assert!(wit.contains("ok: bool"));
}

#[test]
fn supports_root_objects_without_defs() {
    let input = obj(vec![
        ("type", s("object")),
        ("properties", obj(vec![("prompt", typed("string"))])),
        ("required", arr(vec![s("prompt")])),
    ]);
    let output = obj(vec![
        ("type", s("object")),
        ("properties", obj(vec![("answer", typed("string"))])),
        ("required", arr(vec![s("answer")])),
    ]);

    let wit =
        generate_wit(&input, &output, &WitConfig::default()).expect("WIT should be generated");

    assert!(wit.contains("record input"));
    assert!(wit.contains("prompt: string"));
    assert!(wit.contains("record output"));
    assert!(wit.contains("answer: string"));
}

#[test]
fn prefers_inline_root_object_over_placeholder_ref() {
    let placeholder = || obj(vec![("#Schema", obj(vec![("const", obj(vec![]))]))]);
    let input = obj(vec![
        ("$schema", s("https://json-schema.org/draft/2020-12/schema")),
        ("$defs", placeholder()),
        ("$ref", s("#/$defs/%23Schema")),
        ("type", s("object")),
        ("properties", obj(vec![("name", typed("string"))])),
        ("required", arr(vec![s("name")])),
    ]);
    let output = obj(vec![
        ("$schema", s("https://json-schema.org/draft/2020-12/schema")),
        ("$defs", placeholder()),
        ("$ref", s("#/$defs/%23Schema")),
        ("type", s("object")),
        ("properties", obj(vec![("message", typed("string"))])),
        ("required", arr(vec![s("message")])),
    ]);

    let wit =
        generate_wit(&input, &output, &WitConfig::default()).expect("WIT should be generated");

    assert!(wit.contains("record input"));
    assert!(wit.contains("name: string"));
    assert!(wit.contains("record output"));
    assert!(wit.contains("message: string"));
    assert!(wit.contains("run: func(input: input) -> output;"));
}

#[test]
fn generates_multiple_functions_from_all_schemas() {
    let record = |field: &str, t: &str| {
        obj(vec![
            ("type", s("object")),
            ("properties", obj(vec![(field, typed(t))])),
            ("required", arr(vec![s(field)])),
        ])
    };
    let all_schemas = obj(vec![
        ("type", s("object")),
        (
            "properties",
            obj(vec![
                ("PersonalData", record("name", "string")),
                ("Message", record("text", "string")),
                ("SearchInput", record("query", "string")),
                ("SearchOutput", record("hits", "integer")),
            ]),
        ),
    ]);

    let tools = vec![
        ToolFunction {
            name: "greeter-tool".to_string(),
            input_schema_name: "PersonalData".to_string(),
            output_schema_name: "Message".to_string(),
        },
        ToolFunction {
            name: "search-tool".to_string(),
            input_schema_name: "SearchInput".to_string(),
            output_schema_name: "SearchOutput".to_string(),
        },
    ];

    let wit = generate_wit_for_tools(&all_schemas, &tools, &WitConfig::default())
        .expect("WIT should be generated");

    assert!(wit.contains("record personal-data"));
    assert!(wit.contains("record message"));
    assert!(wit.contains("record search-input"));
    assert!(wit.contains("record search-output"));
    assert!(wit.contains("greeter-tool: func(input: personal-data) -> message;"));
    assert!(wit.contains("search-tool: func(input: search-input) -> search-output;"));
}

#[test]
fn normalizes_camel_case_input_keys_to_snake_case() {
    let mut value = obj(vec![
        ("petType", s("cat")),
        ("ownerData", obj(vec![("firstName", s("Ada"))])),
    ]);

    normalize_json_keys_to_snake(&mut value);

    assert_eq!(
        value,
        obj(vec![
            ("pet_type", s("cat")),
            ("owner_data", obj(vec![("first_name", s("Ada"))])),
        ])
    );
}

#[test]
fn remaps_output_keys_to_schema_shape() {
    let mut value = obj(vec![
        ("pet_type", s("cat")),
        ("owner_data", obj(vec![("first_name", s("Ada"))])),
    ]);
    let schema = obj(vec![
        ("type", s("object")),
        (
            "properties",
            obj(vec![
                ("petType", typed("string")),
                (
                    "ownerData",
                    obj(vec![
                        ("type", s("object")),
                        ("properties", obj(vec![("firstName", typed("string"))])),
                    ]),
                ),
            ]),
        ),
    ]);

    remap_json_keys_to_schema(&mut value, &schema);

    assert_eq!(
        value,
        obj(vec![
            ("petType", s("cat")),
            ("ownerData", obj(vec![("firstName", s("Ada"))])),
        ])
    );
}
