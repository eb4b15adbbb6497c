//! The tool bindings a component build reads from the exported tool table.
use vstd::prelude::*;
use crate::json::{Json, JsonValue, entries_view, lemma_object_view};
use crate::text::{owned, push_str};

verus! {

/// A tool with the names of its input and output schemas.
#[derive(Debug, Clone, PartialEq, Eq)]
pub struct ToolBinding {
    pub tool_name: String,
    pub input_schema_name: String,
    pub output_schema_name: String,
}

pub open spec fn not_an_object_message() -> Seq<char> {
    "expected `cue export McpTools` to contain a JSON object"@
}

pub open spec fn no_tools_message() -> Seq<char> {
    "expected at least one tool definition in cue export McpTools"@
}

pub open spec fn missing_field_message(tool_name: Seq<char>, field: Seq<char>) -> Seq<char> {
    "tool `"@ + tool_name + "` is missing `"@ + field + "`"@
}

/// What is wrong with the tool entry `name`, if anything.
pub open spec fn entry_problem(name: Seq<char>, tool: JsonValue) -> Option<Seq<char>> {
    if tool.get_str("inputSchemaName"@) is None {
        Some(missing_field_message(name, "inputSchemaName"@))
    } else if tool.get_str("outputSchemaName"@) is None {
        Some(missing_field_message(name, "outputSchemaName"@))
    } else {
        None
    }
}

/// The first problem among the tool entries from the `i`-th on.
pub open spec fn entries_problem(entries: Seq<(Seq<char>, JsonValue)>, i: nat) -> Option<Seq<char>>
    decreases entries.len() - i,
{
    if i >= entries.len() {
        None
    } else {
        match entry_problem(entries[i as int].0, entries[i as int].1) {
            Some(p) => Some(p),
            None => entries_problem(entries, i + 1),
        }
    }
}

/// What keeps a tool table from giving bindings: it is not an object, an
/// entry lacks a schema name, or it has no entry; `None` for a good table.
pub open spec fn tool_table_problem(tools: JsonValue) -> Option<Seq<char>> {
    match tools {
        JsonValue::Object(entries) => match entries_problem(entries, 0) {
            Some(p) => Some(p),
            None => if entries.len() == 0 {
                Some(no_tools_message())
            } else {
                None
            },
        },
        _ => Some(not_an_object_message()),
    }
}

fn missing_field(name: &str, field: &str) -> (r: String)
    ensures
        r@ == missing_field_message(name@, field@),
{
    let mut m = owned("tool `");
    push_str(&mut m, name);
    push_str(&mut m, "` is missing `");
    push_str(&mut m, field);
    push_str(&mut m, "`");
    m
}

/// The problem of a tool table, as `tool_table_problem` states it.
pub fn check_tool_table(tools: &Json) -> (r: Option<String>)
    ensures
        crate::mcp::opt_view(r) == tool_table_problem(tools@),
{
    match tools {
        Json::Object(entries) => {
            proof {
                lemma_object_view(*tools);
            }
            let ghost ev = entries_view(entries@);
            let mut i: usize = 0;
            while i < entries.len()
                invariant
                    i <= entries@.len(),
                    ev == entries_view(entries@),
                    tools@ == JsonValue::Object(ev),
                    entries_problem(ev, 0) == entries_problem(ev, i as nat),
                decreases entries@.len() - i,
            {
                let name = &entries[i].0;
                let tool = &entries[i].1;
                let has_input = match tool.get("inputSchemaName") {
                    Some(v) => v.as_str().is_some(),
                    None => false,
                };
                if !has_input {
                    return Some(missing_field(name.as_str(), "inputSchemaName"));
                }
                let has_output = match tool.get("outputSchemaName") {
                    Some(v) => v.as_str().is_some(),
                    None => false,
                };
                if !has_output {
                    return Some(missing_field(name.as_str(), "outputSchemaName"));
                }
                i = i + 1;
            }
            if entries.len() == 0 {
                Some(owned("expected at least one tool definition in cue export McpTools"))
            } else {
                None
            }
        },
        _ => Some(owned("expected `cue export McpTools` to contain a JSON object")),
    }
}

/// The binding that a good tool entry gives.
pub open spec fn binds(b: ToolBinding, name: Seq<char>, tool: JsonValue) -> bool {
    &&& b.tool_name@ == name
    &&& tool.get_str("inputSchemaName"@) == Some(b.input_schema_name@)
    &&& tool.get_str("outputSchemaName"@) == Some(b.output_schema_name@)
}

/// The binding of each entry of a good tool table, in order.
pub fn tool_bindings_for_component(tools: &Json) -> (r: Vec<ToolBinding>)
    requires
        tool_table_problem(tools@) is None,
    ensures
        tools@ is Object,
        r@.len() == tools@->Object_0.len(),
        forall|i: int|
            0 <= i < r@.len() ==> binds(
                #[trigger] r@[i],
                tools@->Object_0[i].0,
                tools@->Object_0[i].1,
            ),
{
    let mut bindings: Vec<ToolBinding> = Vec::new();
    match tools {
        Json::Object(entries) => {
            proof {
                lemma_object_view(*tools);
            }
            let ghost ev = entries_view(entries@);
            let mut i: usize = 0;
            while i < entries.len()
                invariant
                    i <= entries@.len(),
                    ev == entries_view(entries@),
                    tools@ == JsonValue::Object(ev),
                    entries_problem(ev, i as nat) is None,
                    bindings@.len() == i,
                    forall|j: int| 0 <= j < i ==> binds(#[trigger] bindings@[j], ev[j].0, ev[j].1),
                decreases entries@.len() - i,
            {
                let tool = &entries[i].1;
                let input = match tool.get("inputSchemaName") {
                    Some(v) => match v.as_str() {
                        Some(s) => s.clone(),
                        None => {
                            return bindings;
                        },
                    },
                    None => {
                        return bindings;
                    },
                };
                let output = match tool.get("outputSchemaName") {
                    Some(v) => match v.as_str() {
                        Some(s) => s.clone(),
                        None => {
                            return bindings;
                        },
                    },
                    None => {
                        return bindings;
                    },
                };
                bindings.push(
                    ToolBinding {
                        tool_name: entries[i].0.clone(),
                        input_schema_name: input,
                        output_schema_name: output,
                    },
                );
                i = i + 1;
            }
        },
        _ => {},
    }
    bindings
}

} // verus!
