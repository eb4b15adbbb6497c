use wasmcp_cue::json::Json;
use wasmcp_cue::text::{to_kebab_case, to_pascal_case, to_snake_case};
use wasmcp_cue::wit::{
    generate_wit, generate_wit_for_tools, generate_wit_from_files, generate_wit_within, Error,
    ToolFunction, WitConfig,
};

fn s(text: &str) -> Json {
    Json::Str(text.to_string())
}

fn obj(members: Vec<(&str, Json)>) -> Json {
    let mut entries: Vec<(String, Json)> =
        members.into_iter().map(|(k, v)| (k.to_string(), v)).collect();
    entries.sort_by(|a, b| a.0.cmp(&b.0));
    Json::Object(entries)
}

fn typed(t: &str) -> Json {
    obj(vec![("type", s(t))])
}

#[test]
fn snake_case_splits_camel_case_words() {
    assert_eq!(to_snake_case("petType"), "pet_type");
    assert_eq!(to_snake_case("ownerData"), "owner_data");
    assert_eq!(to_snake_case("HTTPServer"), "h_t_t_p_server");
    assert_eq!(to_snake_case("__leading"), "leading");
    assert_eq!(to_snake_case("trailing__"), "trailing");
    assert_eq!(to_snake_case("-A"), "a");
    assert_eq!(to_snake_case("Größe"), "gr_e");
    assert_eq!(to_snake_case(""), "");
}

#[test]
fn snake_case_of_snake_case_is_unchanged() {
    for name in ["petType", "HTTPServer", "a--b", "Search Input", "x9Y"] {
        let once = to_snake_case(name);
        assert_eq!(to_snake_case(&once), once);
    }
}

#[test]
fn kebab_case_joins_words_with_hyphens() {
    assert_eq!(to_kebab_case("Search Input"), "search-input");
    assert_eq!(to_kebab_case("PersonalData"), "personal-data");
    assert_eq!(to_kebab_case("input-items-item"), "input-items-item");
    assert_eq!(to_kebab_case("greeter_tool"), "greeter-tool");
}

#[test]
fn pascal_case_capitalizes_each_word() {
    assert_eq!(to_pascal_case("greeter-tool"), "GreeterTool");
    assert_eq!(to_pascal_case("search_input"), "SearchInput");
    assert_eq!(to_pascal_case("xml http"), "XmlHttp");
    assert_eq!(to_pascal_case("9lives"), "9lives");
    assert_eq!(to_pascal_case("personalData"), "PersonalData");
}

#[test]
fn generates_exact_package_text() {
    let input = obj(vec![
        ("type", s("object")),
        ("properties", obj(vec![("b", typed("string")), ("a", typed("number"))])),
        ("required", Json::Array(vec![s("b")])),
    ]);
    let output = typed("boolean");
    let wit = generate_wit(&input, &output, &WitConfig::default()).unwrap();
    assert_eq!(
        wit,
        "package acme:app@0.1.0;\n\n/// Generated from JSON Schema. Do not edit manually.\n\
         interface api {\n    record input {\n        a: option<f64>,\n        b: string,\n    }\n\n\
         \x20   run: func(input: input) -> bool;\n}\n\nworld component {\n    export api;\n}\n"
    );
}

#[test]
fn keywords_are_escaped_in_identifiers() {
    let config = WitConfig {
        package: "acme:app".to_string(),
        version: "1.2.3".to_string(),
        interface: "Interface".to_string(),
        world: "my world".to_string(),
        function: "Type".to_string(),
    };
    let input = obj(vec![("properties", obj(vec![("list", typed("string"))]))]);
    let wit = generate_wit(&input, &typed("string"), &config).unwrap();
    assert!(wit.contains("package acme:app@1.2.3;"));
    assert!(wit.contains("interface %interface {"));
    assert!(wit.contains("%list: option<string>,"));
    assert!(wit.contains("%type: func(input: input) -> string;"));
    assert!(wit.contains("world my-world {\n    export %interface;\n}"));
}

#[test]
fn enums_one_of_and_untyped_schemas_become_strings_or_their_first_choice() {
    let input = obj(vec![(
        "properties",
        obj(vec![
            ("kind", obj(vec![("enum", Json::Array(vec![s("a"), s("b")]))])),
            ("count", obj(vec![("oneOf", Json::Array(vec![typed("integer"), typed("string")]))])),
            ("free", obj(vec![])),
            ("tags", typed("array")),
        ]),
    )]);
    let wit = generate_wit(&input, &typed("string"), &WitConfig::default()).unwrap();
    assert!(wit.contains("kind: option<string>,"));
    assert!(wit.contains("count: option<s64>,"));
    assert!(wit.contains("free: option<string>,"));
    assert!(wit.contains("tags: option<list<string>>,"));
}

#[test]
fn reports_unsupported_types() {
    let err = generate_wit(&typed("null"), &typed("string"), &WitConfig::default()).unwrap_err();
    assert_eq!(err.to_string(), "unsupported schema type `null` in input");
}

#[test]
fn reports_missing_definitions() {
    let input = obj(vec![
        ("$defs", obj(vec![("A", typed("string"))])),
        ("$ref", s("#/$defs/B")),
    ]);
    let err = generate_wit(&input, &typed("string"), &WitConfig::default()).unwrap_err();
    assert_eq!(err.to_string(), "missing schema definition for B");
}

#[test]
fn reports_refs_without_definitions() {
    let input = obj(vec![("$ref", s("#/$defs/X"))]);
    let err = generate_wit(&input, &typed("string"), &WitConfig::default()).unwrap_err();
    assert_eq!(err.to_string(), "schema uses `$ref` but does not define `$defs`");
}

#[test]
fn reports_object_schemas_without_properties() {
    let err = generate_wit(&typed("object"), &typed("string"), &WitConfig::default()).unwrap_err();
    assert_eq!(err.to_string(), "expected object schema for input");
}

#[test]
fn reports_missing_tools_and_properties() {
    let all = obj(vec![("properties", obj(vec![("A", typed("string"))]))]);
    let err = generate_wit_for_tools(&all, &[], &WitConfig::default()).unwrap_err();
    assert_eq!(err.to_string(), "expected at least one tool function");

    let tool = ToolFunction {
        name: "t".to_string(),
        input_schema_name: "A".to_string(),
        output_schema_name: "Z".to_string(),
    };
    let err = generate_wit_for_tools(&obj(vec![]), &[tool.clone()], &WitConfig::default())
        .unwrap_err();
    assert_eq!(
        err.to_string(),
        "expected all-schemas JSON Schema document to contain an object `properties` field"
    );
    let err = generate_wit_for_tools(&all, &[tool], &WitConfig::default()).unwrap_err();
    assert_eq!(err.to_string(), "missing schema definition for Z");
}

#[test]
fn definitions_are_found_with_or_without_hash() {
    let all = obj(vec![(
        "properties",
        obj(vec![("#In", obj(vec![("properties", obj(vec![("x", typed("integer"))]))])), ("Out", typed("string"))]),
    )]);
    let tool = ToolFunction {
        name: "Run It".to_string(),
        input_schema_name: "In".to_string(),
        output_schema_name: "Out".to_string(),
    };
    let wit = generate_wit_for_tools(&all, &[tool], &WitConfig::default()).unwrap();
    assert!(wit.contains("record in {\n        x: option<s64>,\n    }"));
    assert!(wit.contains("    run-it: func(input: in) -> string;\n}"));
}

#[test]
fn reference_cycles_exceed_any_depth() {
    let input = obj(vec![
        ("$defs", obj(vec![("A", obj(vec![("$ref", s("#/$defs/A"))]))])),
        ("$ref", s("#/$defs/A")),
    ]);
    assert!(generate_wit_within(&input, &typed("string"), &WitConfig::default(), 7).is_none());
}

#[test]
fn file_errors_come_first_in_order() {
    let first = Error::with_message("failed to read in.json: missing");
    let second = Error::with_message("failed to read out.json: missing");
    let err = generate_wit_from_files(Err(first.clone()), Err(second.clone()), &WitConfig::default())
        .unwrap_err();
    assert_eq!(err, first);
    let err =
        generate_wit_from_files(Ok(typed("string")), Err(second.clone()), &WitConfig::default())
            .unwrap_err();
    assert_eq!(err, second);
    let wit = generate_wit_from_files(Ok(typed("string")), Ok(typed("integer")), &WitConfig::default())
        .unwrap();
    assert!(wit.contains("run: func(input: string) -> s64;"));
}

#[test]
fn pascal_case_of_pascal_case_is_unchanged() {
    for name in ["greeter-tool", "xml http", "9lives", "a_b_c", "--"] {
        let once = to_pascal_case(name);
        assert_eq!(to_pascal_case(&once), once);
        assert!(once.chars().all(|c| c.is_ascii_alphanumeric()));
        assert!(!once.starts_with(|c: char| c.is_ascii_lowercase()));
    }
}

#[test]
fn shared_definitions_are_emitted_once() {
    let input = obj(vec![
        (
            "$defs",
            obj(vec![(
                "Point",
                obj(vec![
                    ("type", s("object")),
                    ("properties", obj(vec![("x", typed("integer"))])),
                    ("required", Json::Array(vec![s("x")])),
                ]),
            )]),
        ),
        ("type", s("object")),
        (
            "properties",
            obj(vec![
                ("from", obj(vec![("$ref", s("#/$defs/Point"))])),
                ("to", obj(vec![("$ref", s("#/$defs/Point"))])),
            ]),
        ),
        ("required", Json::Array(vec![s("from"), s("to")])),
    ]);
    let output = typed("boolean");
    let wit = generate_wit(&input, &output, &WitConfig::default()).unwrap();
    assert_eq!(wit.matches("record point {").count(), 1);
    assert_eq!(wit.matches("record input {").count(), 1);
    assert!(wit.contains("    record point {\n        x: s64,\n    }\n\n    record input {\n"));
    assert!(wit.contains("        %from: point,\n        to: point,\n"));
}

#[test]
fn kebab_case_is_snake_case_with_hyphens() {
    for name in ["petType", "HTTPServer", "Search Input", "__x__y", "a-b_c", "x9Y", ""] {
        assert_eq!(to_kebab_case(name), to_snake_case(name).replace('_', "-"));
    }
}

#[test]
fn pascal_case_of_kebab_case_is_pascal_case() {
    for name in ["personalData", "HTTPServer", "a_Bc", "fooBAR", "9lives", "search-input", "_A"] {
        assert_eq!(to_pascal_case(&to_kebab_case(name)), to_pascal_case(name));
        assert_eq!(to_pascal_case(&to_snake_case(name)), to_pascal_case(name));
    }
    assert_eq!(to_pascal_case(&to_kebab_case("personalData")), "PersonalData");
}
