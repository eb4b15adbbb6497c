use wasmcp_cue::build_common::{check_tool_table, tool_bindings_for_component, ToolBinding};
use wasmcp_cue::component::{greeter_tool, PersonalData};
use wasmcp_cue::component_pet::{ask_pet_health, Pet};
use wasmcp_cue::json::Json;
use wasmcp_cue::mcp::{
    build_tools, build_tools_with_schemas, error_result, finish_call, plan_call, serialize_output,
    success_result, CallToolRequest, CallToolResult, ContentBlock, TextContent, TextData, ToolSpec,
};
use wasmcp_cue::template::{
    parse_args, tool_calls, tools, TestInput, TestInputPet, ToolImplementation, Tools,
    GREETER_INPUT_SCHEMA,
};

fn text_of(result: &CallToolResult) -> String {
    assert_eq!(result.content.len(), 1);
    match &result.content[0] {
        ContentBlock::Text(TextContent { text: TextData::Text(t) }) => t.clone(),
    }
}

fn spec(name: &str) -> ToolSpec {
    ToolSpec {
        name: name.to_string(),
        title: format!("{name} title"),
        description: format!("{name} description"),
        input_schema_name: "In".to_string(),
        output_schema_name: "Out".to_string(),
    }
}

#[test]
fn success_and_error_results() {
    let ok = success_result("done".to_string());
    assert_eq!(text_of(&ok), "done");
    assert_eq!(ok.is_error, None);
    assert_eq!(ok.structured_content.as_deref(), Some("done"));

    let err = error_result("bad".to_string());
    assert_eq!(text_of(&err), "bad");
    assert_eq!(err.is_error, Some(true));
    assert_eq!(err.structured_content, None);
}

#[test]
fn calls_are_planned_only_for_offered_tools() {
    let specs = vec![spec("greeter"), spec("search")];
    let unknown = CallToolRequest { name: "other".to_string(), arguments: None };
    assert_eq!(plan_call(&specs, &unknown), None);
    let bare = CallToolRequest { name: "search".to_string(), arguments: None };
    assert_eq!(plan_call(&specs, &bare).as_deref(), Some("{}"));
    let with_args =
        CallToolRequest { name: "greeter".to_string(), arguments: Some("{\"a\":1}".to_string()) };
    assert_eq!(plan_call(&specs, &with_args).as_deref(), Some("{\"a\":1}"));
}

#[test]
fn refused_input_becomes_an_error_result() {
    let result = finish_call(Err("missing field".to_string()));
    assert_eq!(text_of(&result), "Invalid input: missing field");
    assert_eq!(result.is_error, Some(true));
    let passed = finish_call(Ok(success_result("ok".to_string())));
    assert_eq!(text_of(&passed), "ok");
}

#[test]
fn tool_listings_fall_back_to_empty_schemas() {
    let specs = vec![spec("greeter"), spec("search")];
    let listed = build_tools(&specs, &[(Some("{\"type\":\"object\"}".to_string()), None), (None, Some("{}".to_string()))]);
    assert_eq!(listed.len(), 2);
    assert_eq!(listed[0].name, "greeter");
    assert_eq!(listed[0].input_schema, "{\"type\":\"object\"}");
    let options = listed[0].options.as_ref().unwrap();
    assert_eq!(options.output_schema.as_deref(), Some("{}"));
    assert_eq!(options.title.as_deref(), Some("greeter title"));
    assert_eq!(options.description.as_deref(), Some("greeter description"));
    assert_eq!(listed[1].input_schema, "{}");

    let short = build_tools(&specs, &[(Some("IN".to_string()), Some("OUT".to_string()))]);
    assert_eq!(short[0].input_schema, "IN");
    assert_eq!(short[1].input_schema, "{}");
    assert_eq!(short[1].options.as_ref().unwrap().output_schema.as_deref(), Some("{}"));

    let shared = build_tools_with_schemas(&specs, "IN", "OUT");
    assert_eq!(shared[1].input_schema, "IN");
    assert_eq!(shared[1].options.as_ref().unwrap().output_schema.as_deref(), Some("OUT"));
}

#[test]
fn output_serialization_failures_become_error_objects() {
    assert_eq!(serialize_output(Ok("{\"x\":1}".to_string())), "{\"x\":1}");
    assert_eq!(
        serialize_output(Err("boom".to_string())),
        "{\"error\":\"serialization failed: boom\"}"
    );
}

#[test]
fn greeter_greets_and_reports_bad_arguments() {
    let input = TestInput { name: "Ada".to_string(), pet: TestInputPet::Cat };
    let result = tool_calls("greeter", Some(Ok(input))).unwrap();
    assert_eq!(text_of(&result), "Hello, Ada! How is your cat?");
    assert_eq!(result.is_error, None);

    let missing = tool_calls("greeter", None).unwrap();
    assert_eq!(text_of(&missing), "no arguments given");
    assert_eq!(missing.is_error, Some(true));

    let invalid = ToolImplementation::greeter(Some(Err("expected value".to_string()))).unwrap();
    assert_eq!(text_of(&invalid), "expected value");

    assert!(tool_calls("calculator", None).is_none());
    assert_eq!(parse_args(None).unwrap_err(), "no arguments given");
}

#[test]
fn template_lists_the_greeter() {
    let listed = tools();
    assert_eq!(listed.len(), 1);
    assert_eq!(listed[0].name, "greeter");
    assert_eq!(listed[0].input_schema, GREETER_INPUT_SCHEMA);
    assert!(GREETER_INPUT_SCHEMA.contains("\"$ref\": \"#/$defs/%23Schema\""));
    let options = listed[0].options.as_ref().unwrap();
    assert_eq!(options.description.as_deref(), Some("Greets somebody"));
    assert_eq!(options.title.as_deref(), Some("greeter"));
    assert_eq!(options.output_schema, None);
}

#[test]
fn components_answer_with_both_messages() {
    let greeting = greeter_tool(PersonalData {
        forename: "Ada".to_string(),
        name: "Lovelace".to_string(),
        wish: "an engine".to_string(),
        birthdate: "1815-12-10".to_string(),
    });
    assert_eq!(greeting.nice_message, "Hello, Ada Lovelace. Best wishes for 'an engine' on 1815-12-10!");
    assert_eq!(
        greeting.notso_nice_message,
        "If 'an engine' takes longer than expected, you'll still have to do some work yourself, Lovelace."
    );

    let question = ask_pet_health(Pet { name: "Rex".to_string(), pet_type: "dog".to_string() });
    assert_eq!(question.nice_message, "How is your dog, Rex?");
    assert_eq!(question.notso_nice_message, "Is your dog, Rex, dead already?");
}

fn table(members: Vec<(&str, Json)>) -> Json {
    Json::Object(members.into_iter().map(|(k, v)| (k.to_string(), v)).collect())
}

fn names(input: &str, output: &str) -> Json {
    table(vec![
        ("inputSchemaName", Json::Str(input.to_string())),
        ("outputSchemaName", Json::Str(output.to_string())),
    ])
}

#[test]
fn tool_tables_give_bindings_or_their_problem() {
    assert_eq!(
        check_tool_table(&Json::Null).as_deref(),
        Some("expected `cue export McpTools` to contain a JSON object")
    );
    assert_eq!(
        check_tool_table(&table(vec![])).as_deref(),
        Some("expected at least one tool definition in cue export McpTools")
    );
    let missing = table(vec![("greeter", table(vec![("outputSchemaName", Json::Str("M".to_string()))]))]);
    assert_eq!(
        check_tool_table(&missing).as_deref(),
        Some("tool `greeter` is missing `inputSchemaName`")
    );
    let missing_output = table(vec![("greeter", table(vec![("inputSchemaName", Json::Str("P".to_string()))]))]);
    assert_eq!(
        check_tool_table(&missing_output).as_deref(),
        Some("tool `greeter` is missing `outputSchemaName`")
    );

    let good = table(vec![("greeter", names("PersonalData", "Message")), ("pet", names("Pet", "Message"))]);
    assert_eq!(check_tool_table(&good), None);
    assert_eq!(
        tool_bindings_for_component(&good),
        vec![
            ToolBinding {
                tool_name: "greeter".to_string(),
                input_schema_name: "PersonalData".to_string(),
                output_schema_name: "Message".to_string(),
            },
            ToolBinding {
                tool_name: "pet".to_string(),
                input_schema_name: "Pet".to_string(),
                output_schema_name: "Message".to_string(),
            },
        ]
    );
}
