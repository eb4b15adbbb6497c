//! The greeter tool of the template server: its listing and its calls.
use vstd::prelude::*;
use crate::mcp::{CallToolResult, Tool, ToolOptions, success_result, error_result};
use crate::text::{owned, push_str, str_eq};

verus! {

/// The pet a greeting asks about.
#[derive(Debug, Clone, Copy, PartialEq, Eq)]
pub enum TestInputPet {
    Dog,
    Cat,
}

/// The arguments of the greeter tool.
#[derive(Debug, PartialEq, Eq)]
pub struct TestInput {
    pub name: String,
    pub pet: TestInputPet,
}

/// How a pet is written.
pub open spec fn pet_text(pet: TestInputPet) -> Seq<char> {
    match pet {
        TestInputPet::Dog => "dog"@,
        TestInputPet::Cat => "cat"@,
    }
}

impl TestInputPet {
    /// How this pet is written.
    pub fn to_text(&self) -> (r: String)
        ensures
            r@ == pet_text(*self),
    {
        match self {
            TestInputPet::Dog => owned("dog"),
            TestInputPet::Cat => owned("cat"),
        }
    }
}

/// A pet is written as the value of the schema's `pet` enum it was read
/// from: `dog` for a dog, `cat` for a cat, and no two pets alike.
pub proof fn lemma_pet_text_is_schema_value(p: TestInputPet, q: TestInputPet)
    ensures
        (pet_text(p) == "dog"@) <==> (p == TestInputPet::Dog),
        (pet_text(p) == "cat"@) <==> (p == TestInputPet::Cat),
        pet_text(p) == pet_text(q) ==> p == q,
{
    reveal_strlit("dog");
    reveal_strlit("cat");
    assert("dog"@[0] != "cat"@[0]);
}

/// The greeting for `input`.
pub open spec fn greeting(input: TestInput) -> Seq<char> {
    "Hello, "@ + input.name@ + "! How is your "@ + pet_text(input.pet) + "?"@
}

/// The greeting names the person and asks after the pet by the schema's
/// word for it.
pub proof fn lemma_greeting_asks_after_the_pet(input: TestInput)
    ensures
        greeting(input) == "Hello, "@ + input.name@ + "! How is your "@ + (match input.pet {
            TestInputPet::Dog => "dog"@,
            TestInputPet::Cat => "cat"@,
        }) + "?"@,
{
    lemma_pet_text_is_schema_value(input.pet, input.pet);
}

pub open spec fn no_arguments_message() -> Seq<char> {
    "no arguments given"@
}

/// The tools a server implements.
pub trait Tools {
    /// Answers a call of the greeter tool, given what its arguments parse to.
    fn greeter(arguments: Option<Result<TestInput, String>>) -> Option<CallToolResult>;
}

/// The implementation of the tools.
pub struct ToolImplementation;

impl Tools for ToolImplementation {
    fn greeter(arguments: Option<Result<TestInput, String>>) -> (r: Option<CallToolResult>)
        ensures
            r is Some,
            match arguments {
                None => r.unwrap()@.texts == seq![no_arguments_message()] && r.unwrap()@.is_error
                    == Some(true) && r.unwrap()@.structured_content is None,
                Some(Err(e)) => r.unwrap()@.texts == seq![e@] && r.unwrap()@.is_error == Some(true)
                    && r.unwrap()@.structured_content is None,
                Some(Ok(input)) => r.unwrap()@.texts == seq![greeting(input)]
                    && r.unwrap()@.structured_content == Some(greeting(input))
                    && r.unwrap()@.is_error is None,
            },
    {
        match parse_args(arguments) {
            Ok(test_input) => {
                let mut result = owned("Hello, ");
                push_str(&mut result, test_input.name.as_str());
                push_str(&mut result, "! How is your ");
                let pet = test_input.pet.to_text();
                push_str(&mut result, pet.as_str());
                push_str(&mut result, "?");
                Some(success_result(result))
            },
            Err(msg) => Some(error_result(msg)),
        }
    }
}

/// The arguments of a call: what they parse to, or that none were given.
pub fn parse_args(arguments: Option<Result<TestInput, String>>) -> (r: Result<TestInput, String>)
    ensures
        match arguments {
            None => r matches Err(e) && e@ == no_arguments_message(),
            Some(a) => r == a,
        },
{
    match arguments {
        Some(parsed) => parsed,
        None => Err(owned("no arguments given")),
    }
}

/// Dispatches a call by the tool's name: the greeter answers its calls; no
/// other tool is handled.
pub fn tool_calls(name: &str, arguments: Option<Result<TestInput, String>>) -> (r: Option<
    CallToolResult,
>)
    ensures
        name@ != "greeter"@ ==> r is None,
        name@ == "greeter"@ ==> r is Some,
        name@ == "greeter"@ ==> match arguments {
            Some(Ok(input)) => r.unwrap()@.texts == seq![greeting(input)] && r.unwrap()@.is_error is None
                && r.unwrap()@.structured_content == Some(greeting(input)),
            Some(Err(e)) => r.unwrap()@.texts == seq![e@] && r.unwrap()@.is_error == Some(true)
                && r.unwrap()@.structured_content is None,
            None => r.unwrap()@.texts == seq![no_arguments_message()] && r.unwrap()@.is_error == Some(true)
                && r.unwrap()@.structured_content is None,
        },
{
    if str_eq(name, "greeter") {
        ToolImplementation::greeter(arguments)
    } else {
        None
    }
}

/// The JSON Schema of the greeter's arguments, as the server lists it.
pub fn greeter_input_schema() -> (r: String)
    ensures
        r@ == GREETER_INPUT_SCHEMA@,
{
    owned(GREETER_INPUT_SCHEMA)
}

pub const GREETER_INPUT_SCHEMA: &'static str = "{\n    \"$schema\": \"https://json-schema.org/draft/2020-12/schema\",\n    \"$defs\": {\n        \"#Schema\": {\n            \"const\": {}\n        }\n    },\n    \"type\": \"object\",\n    \"additionalProperties\": true,\n    \"properties\": {\n        \"name\": {\n            \"type\": \"string\"\n        },\n        \"pet\": {\n            \"enum\": [\n                \"dog\",\n                \"cat\"\n            ]\n        }\n    },\n    \"$ref\": \"#/$defs/%23Schema\",\n    \"required\": [\n        \"name\",\n        \"pet\"\n    ]\n}\n";

/// The tools the server lists: the greeter.
pub fn tools() -> (r: Vec<Tool>)
    ensures
        r@.len() == 1,
        r@[0].name@ == "greeter"@,
        r@[0].input_schema@ == GREETER_INPUT_SCHEMA@,
        r@[0].options matches Some(o) && o.output_schema is None,
        crate::mcp::opt_view(r@[0].options.unwrap().description) == Some("Greets somebody"@),
        crate::mcp::opt_view(r@[0].options.unwrap().title) == Some("greeter"@),
{
    let mut v: Vec<Tool> = Vec::new();
    v.push(
        Tool {
            name: owned("greeter"),
            input_schema: greeter_input_schema(),
            options: Some(
                ToolOptions {
                    description: Some(owned("Greets somebody")),
                    output_schema: None,
                    title: Some(owned("greeter")),
                },
            ),
        },
    );
    v
}

} // verus!
