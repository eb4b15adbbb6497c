//! The MCP tool results and tool listings that the servers hand back.
use vstd::prelude::*;
use crate::text::{owned, push_str, str_eq};

verus! {

/// The text of a content block.
#[derive(Debug, PartialEq, Eq)]
pub enum TextData {
    Text(String),
}

/// A text content block.
#[derive(Debug, PartialEq, Eq)]
pub struct TextContent {
    pub text: TextData,
}

/// A block of a tool result's content.
#[derive(Debug, PartialEq, Eq)]
pub enum ContentBlock {
    Text(TextContent),
}

/// The result of a tool call.
#[derive(Debug, PartialEq, Eq)]
pub struct CallToolResult {
    pub content: Vec<ContentBlock>,
    pub is_error: Option<bool>,
    pub structured_content: Option<String>,
}

/// What a tool result says: the texts of its content blocks, whether it
/// reports an error, and its structured content.
pub struct ResultView {
    pub texts: Seq<Seq<char>>,
    pub is_error: Option<bool>,
    pub structured_content: Option<Seq<char>>,
}

pub open spec fn block_text(b: ContentBlock) -> Seq<char> {
    match b {
        ContentBlock::Text(TextContent { text: TextData::Text(t) }) => t@,
    }
}

pub open spec fn opt_view(s: Option<String>) -> Option<Seq<char>> {
    match s {
        Some(t) => Some(t@),
        None => None,
    }
}

impl View for CallToolResult {
    type V = ResultView;

    open spec fn view(&self) -> ResultView {
        ResultView {
            texts: Seq::new(self.content@.len(), |i: int| block_text(self.content@[i])),
            is_error: self.is_error,
            structured_content: opt_view(self.structured_content),
        }
    }
}

fn text_block(text: String) -> (r: ContentBlock)
    ensures
        block_text(r) == text@,
{
    ContentBlock::Text(TextContent { text: TextData::Text(text) })
}

/// A successful result: one text block and the structured content, both
/// `text`.
pub fn success_result(text: String) -> (r: CallToolResult)
    ensures
        r@.texts == seq![text@],
        r@.is_error is None,
        r@.structured_content == Some(text@),
{
    let block = text_block(text.clone());
    let mut content: Vec<ContentBlock> = Vec::new();
    content.push(block);
    let r = CallToolResult { content, is_error: None, structured_content: Some(text) };
    assert(r@.texts =~= seq![text@]);
    r
}

/// A result reporting an error: one text block with `message`.
pub fn error_result(message: String) -> (r: CallToolResult)
    ensures
        r@.texts == seq![message@],
        r@.is_error == Some(true),
        r@.structured_content is None,
{
    let ghost m = message@;
    let block = text_block(message);
    let mut content: Vec<ContentBlock> = Vec::new();
    content.push(block);
    let r = CallToolResult { content, is_error: Some(true), structured_content: None };
    assert(r@.texts =~= seq![m]);
    r
}

/// A tool call as it reaches a server: the tool's name and its arguments as
/// JSON text.
#[derive(Debug, PartialEq, Eq)]
pub struct CallToolRequest {
    pub name: String,
    pub arguments: Option<String>,
}

/// The optional descriptions of a listed tool.
#[derive(Debug, Clone, PartialEq, Eq)]
pub struct ToolOptions {
    pub description: Option<String>,
    pub output_schema: Option<String>,
    pub title: Option<String>,
}

/// A tool as a server lists it.
#[derive(Debug, Clone, PartialEq, Eq)]
pub struct Tool {
    pub name: String,
    pub input_schema: String,
    pub options: Option<ToolOptions>,
}

/// A tool that a server offers, with the names of its schemas.
#[derive(Debug, PartialEq, Eq)]
pub struct ToolSpec {
    pub name: String,
    pub title: String,
    pub description: String,
    pub input_schema_name: String,
    pub output_schema_name: String,
}

/// Whether `tool` lists `spec` with the given schema texts.
pub open spec fn lists_tool(tool: Tool, spec: ToolSpec, input_schema: Seq<char>, output_schema: Seq<char>) -> bool {
    &&& tool.name@ == spec.name@
    &&& tool.input_schema@ == input_schema
    &&& tool.options is Some
    &&& opt_view(tool.options.unwrap().description) == Some(spec.description@)
    &&& opt_view(tool.options.unwrap().output_schema) == Some(output_schema)
    &&& opt_view(tool.options.unwrap().title) == Some(spec.title@)
}

/// A schema text, or `{}` where there is none.
pub open spec fn schema_or_empty(s: Option<Seq<char>>) -> Seq<char> {
    match s {
        Some(t) => t,
        None => "{}"@,
    }
}

/// The listing of `spec` with the given schema texts.
pub fn tool_listing(spec: &ToolSpec, input_schema: &str, output_schema: &str) -> (r: Tool)
    ensures
        lists_tool(r, *spec, input_schema@, output_schema@),
{
    Tool {
        name: spec.name.clone(),
        input_schema: owned(input_schema),
        options: Some(
            ToolOptions {
                description: Some(spec.description.clone()),
                output_schema: Some(owned(output_schema)),
                title: Some(spec.title.clone()),
            },
        ),
    }
}

/// The schema texts given for the `i`-th tool: the `i`-th pair of
/// `schemas`, or none where `schemas` is shorter.
pub open spec fn schema_texts(schemas: Seq<(Option<String>, Option<String>)>, i: int) -> (
    Option<Seq<char>>,
    Option<Seq<char>>,
) {
    if 0 <= i < schemas.len() {
        (opt_view(schemas[i].0), opt_view(schemas[i].1))
    } else {
        (None, None)
    }
}

/// The listing of the tools of `specs`, the `i`-th with the texts of its
/// input and output schemas from `schemas[i]`; a missing text is listed as
/// `{}`.
pub fn build_tools(specs: &[ToolSpec], schemas: &[(Option<String>, Option<String>)]) -> (r: Vec<Tool>)
    ensures
        r@.len() == specs@.len(),
        forall|i: int|
            0 <= i < specs@.len() ==> lists_tool(
                #[trigger] r@[i],
                specs@[i],
                schema_or_empty(schema_texts(schemas@, i).0),
                schema_or_empty(schema_texts(schemas@, i).1),
            ),
{
    let mut out: Vec<Tool> = Vec::new();
    let mut i: usize = 0;
    while i < specs.len()
        invariant
            i <= specs@.len(),
            out@.len() == i,
            forall|j: int|
                0 <= j < i ==> lists_tool(
                    #[trigger] out@[j],
                    specs@[j],
                    schema_or_empty(schema_texts(schemas@, j).0),
                    schema_or_empty(schema_texts(schemas@, j).1),
                ),
        decreases specs@.len() - i,
    {
        let (input, output): (&str, &str) = if i < schemas.len() {
            (
                match &schemas[i].0 {
                    Some(s) => s.as_str(),
                    None => "{}",
                },
                match &schemas[i].1 {
                    Some(s) => s.as_str(),
                    None => "{}",
                },
            )
        } else {
            ("{}", "{}")
        };
        let tool = tool_listing(&specs[i], input, output);
        out.push(tool);
        i = i + 1;
    }
    out
}

/// The listing of the tools of `specs`, all with the same input and output
/// schema texts.
pub fn build_tools_with_schemas(specs: &[ToolSpec], input_schema: &str, output_schema: &str) -> (r: Vec<
    Tool,
>)
    ensures
        r@.len() == specs@.len(),
        forall|i: int|
            0 <= i < specs@.len() ==> lists_tool(
                #[trigger] r@[i],
                specs@[i],
                input_schema@,
                output_schema@,
            ),
{
    let mut out: Vec<Tool> = Vec::new();
    let mut i: usize = 0;
    while i < specs.len()
        invariant
            i <= specs@.len(),
            out@.len() == i,
            forall|j: int|
                0 <= j < i ==> lists_tool(#[trigger] out@[j], specs@[j], input_schema@, output_schema@),
        decreases specs@.len() - i,
    {
        let tool = tool_listing(&specs[i], input_schema, output_schema);
        out.push(tool);
        i = i + 1;
    }
    out
}

// ---------------------------------------------------------------------------
// Handling a call
// ---------------------------------------------------------------------------
/// Whether one of `specs` is named `name`.
pub open spec fn offers_tool(specs: Seq<ToolSpec>, name: Seq<char>) -> bool {
    exists|i: int| 0 <= i < specs.len() && #[trigger] specs[i].name@ == name
}

/// The arguments a call is made with: its arguments text, or `{}`.
pub open spec fn call_arguments(request: CallToolRequest) -> Seq<char> {
    schema_or_empty(opt_view(request.arguments))
}

/// What a server does with a call: nothing for a tool it does not offer;
/// otherwise the call goes to the tool with these arguments.
pub fn plan_call(specs: &[ToolSpec], request: &CallToolRequest) -> (r: Option<String>)
    ensures
        !offers_tool(specs@, request.name@) ==> r is None,
        offers_tool(specs@, request.name@) ==> opt_view(r) == Some(call_arguments(*request)),
{
    let mut i: usize = 0;
    let mut found = false;
    while i < specs.len()
        invariant
            i <= specs@.len(),
            found ==> offers_tool(specs@, request.name@),
            !found ==> forall|j: int| 0 <= j < i ==> #[trigger] specs@[j].name@ != request.name@,
        decreases specs@.len() - i,
    {
        if str_eq(request.name.as_str(), specs[i].name.as_str()) {
            found = true;
        }
        i = i + 1;
    }
    if !found {
        return None;
    }
    match &request.arguments {
        Some(a) => Some(a.clone()),
        None => Some(owned("{}")),
    }
}

/// The message a server answers invalid input with.
pub open spec fn invalid_input_message(error: Seq<char>) -> Seq<char> {
    "Invalid input: "@ + error
}

/// The result of a dispatched call: the tool's result, or an error result
/// for input the tool refused.
pub fn finish_call(outcome: Result<CallToolResult, String>) -> (r: CallToolResult)
    ensures
        outcome matches Ok(res) ==> r == res,
        outcome matches Err(e) ==> r@.texts == seq![invalid_input_message(e@)] && r@.is_error
            == Some(true) && r@.structured_content is None,
{
    match outcome {
        Ok(result) => result,
        Err(error) => {
            let mut m = owned("Invalid input: ");
            push_str(&mut m, error.as_str());
            error_result(m)
        },
    }
}

/// The JSON text of a tool's output: the serialized output, or an error
/// object where serializing failed.
pub open spec fn output_text(serialized: Result<Seq<char>, Seq<char>>) -> Seq<char> {
    match serialized {
        Ok(text) => text,
        Err(e) => "{\"error\":\"serialization failed: "@ + e + "\"}"@,
    }
}

pub fn serialize_output(serialized: Result<String, String>) -> (r: String)
    ensures
        r@ == output_text(
            match serialized {
                Ok(t) => Ok(t@),
                Err(e) => Err(e@),
            },
        ),
{
    match serialized {
        Ok(text) => text,
        Err(error) => {
            let mut m = owned("{\"error\":\"serialization failed: ");
            push_str(&mut m, error.as_str());
            push_str(&mut m, "\"}");
            m
        },
    }
}

} // verus!
