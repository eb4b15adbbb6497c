//! Generation of a WIT package from JSON Schema documents: one interface with
//! a record per object schema and one function per tool, exported by a world.
use vstd::prelude::*;
use crate::json::{
    Json, JsonValue, entries_view, items_view, first_index, keys_of, string_keys, assoc_get,
    find_key, json_size, lemma_get_smaller, lemma_array_item_smaller, lemma_object_entry_smaller,
    lemma_first_index_bounds,
};
use crate::text::{
    owned, str_eq, push_str, chars_of, trim_start_chars, to_kebab_case, separated_case,
    trim_start_char, replace_all, after_last, after_last_char, replace_str, strings_view,
};

verus! {

// ---------------------------------------------------------------------------
// Configuration and errors
// ---------------------------------------------------------------------------
/// Names used in the generated WIT package.
#[derive(Debug, Clone, PartialEq, Eq)]
pub struct WitConfig {
    pub package: String,
    pub version: String,
    pub interface: String,
    pub world: String,
    pub function: String,
}

impl Default for WitConfig {
    fn default() -> (r: Self)
        ensures
            r.package@ == "acme:app"@,
            r.version@ == "0.1.0"@,
            r.interface@ == "api"@,
            r.world@ == "component"@,
            r.function@ == "run"@,
    {
        WitConfig {
            package: owned("acme:app"),
            version: owned("0.1.0"),
            interface: owned("api"),
            world: owned("component"),
            function: owned("run"),
        }
    }
}

/// A tool exported as a WIT function, with the names of its input and output
/// schemas.
#[derive(Debug, Clone, PartialEq, Eq)]
pub struct ToolFunction {
    pub name: String,
    pub input_schema_name: String,
    pub output_schema_name: String,
}

/// A failure to generate WIT from a schema, with a message for people.
#[derive(Debug, Clone, PartialEq, Eq)]
pub struct Error(String);

impl View for Error {
    type V = Seq<char>;

    closed spec fn view(&self) -> Seq<char> {
        self.0@
    }
}

impl Error {
    fn new(message: String) -> (r: Self)
        ensures
            r@ == message@,
    {
        Error(message)
    }

    /// An error with the given message.
    pub fn with_message(message: &str) -> (r: Self)
        ensures
            r@ == message@,
    {
        Error(owned(message))
    }

    /// The message of this error.
    pub fn to_string(&self) -> (r: String)
        ensures
            r@ == self@,
    {
        self.0.clone()
    }
}

// ---------------------------------------------------------------------------
// Identifiers
// ---------------------------------------------------------------------------
/// The words that WIT reserves and that an identifier must escape with `%`.
pub open spec fn is_wit_keyword(s: Seq<char>) -> bool {
    ||| s == "type"@
    ||| s == "record"@
    ||| s == "enum"@
    ||| s == "variant"@
    ||| s == "flags"@
    ||| s == "world"@
    ||| s == "interface"@
    ||| s == "use"@
    ||| s == "func"@
    ||| s == "export"@
    ||| s == "import"@
    ||| s == "package"@
    ||| s == "include"@
    ||| s == "with"@
    ||| s == "from"@
    ||| s == "static"@
    ||| s == "resource"@
    ||| s == "string"@
    ||| s == "option"@
    ||| s == "result"@
    ||| s == "list"@
}

/// `name` as a WIT identifier: prefixed with `%` where it is a keyword.
pub open spec fn escaped_ident(name: Seq<char>) -> Seq<char> {
    if is_wit_keyword(name) {
        seq!['%'] + name
    } else {
        name
    }
}

/// The WIT identifier for a name: its kebab case, escaped.
pub open spec fn wit_ident(name: Seq<char>) -> Seq<char> {
    escaped_ident(separated_case(name, '-'))
}

/// WIT identifiers made from names are never bare keywords: a keyword comes
/// out escaped with `%`.
pub proof fn lemma_wit_ident_not_keyword(name: Seq<char>)
    ensures
        !is_wit_keyword(wit_ident(name)),
        is_wit_keyword(separated_case(name, '-')) ==> wit_ident(name) == seq!['%'] + separated_case(
            name,
            '-',
        ),
        !is_wit_keyword(separated_case(name, '-')) ==> wit_ident(name) == separated_case(name, '-'),
{
    reveal_strlit("type");
    reveal_strlit("record");
    reveal_strlit("enum");
    reveal_strlit("variant");
    reveal_strlit("flags");
    reveal_strlit("world");
    reveal_strlit("interface");
    reveal_strlit("use");
    reveal_strlit("func");
    reveal_strlit("export");
    reveal_strlit("import");
    reveal_strlit("package");
    reveal_strlit("include");
    reveal_strlit("with");
    reveal_strlit("from");
    reveal_strlit("static");
    reveal_strlit("resource");
    reveal_strlit("string");
    reveal_strlit("option");
    reveal_strlit("result");
    reveal_strlit("list");
    let k = separated_case(name, '-');
    if is_wit_keyword(k) {
        let e = seq!['%'] + k;
        assert(e[0] == '%');
        if is_wit_keyword(e) {
            assert(e[0] != '%');
        }
    }
}

fn is_keyword(name: &str) -> (r: bool)
    ensures
        r == is_wit_keyword(name@),
{
    str_eq(name, "type") || str_eq(name, "record") || str_eq(name, "enum") || str_eq(
        name,
        "variant",
    ) || str_eq(name, "flags") || str_eq(name, "world") || str_eq(name, "interface") || str_eq(
        name,
        "use",
    ) || str_eq(name, "func") || str_eq(name, "export") || str_eq(name, "import") || str_eq(
        name,
        "package",
    ) || str_eq(name, "include") || str_eq(name, "with") || str_eq(name, "from") || str_eq(
        name,
        "static",
    ) || str_eq(name, "resource") || str_eq(name, "string") || str_eq(name, "option") || str_eq(
        name,
        "result",
    ) || str_eq(name, "list")
}

fn escape_wit_ident(name: &str) -> (r: String)
    ensures
        r@ == escaped_ident(name@),
{
    if is_keyword(name) {
        let mut r = String::new();
        r.push('%');
        push_str(&mut r, name);
        assert(r@ =~= seq!['%'] + name@);
        r
    } else {
        owned(name)
    }
}

fn ident(name: &str) -> (r: String)
    ensures
        r@ == wit_ident(name@),
{
    let k = to_kebab_case(name);
    escape_wit_ident(k.as_str())
}

/// The name a `$ref` points at: its last path segment, without `%23` and
/// without leading `#`.
pub open spec fn ref_name(reference: Seq<char>) -> Seq<char> {
    trim_start_char(replace_all(after_last(reference, '/'), "%23"@, Seq::empty()), '#')
}

pub(crate) fn decode_ref_name(reference: &str) -> (r: String)
    ensures
        r@ == ref_name(reference@),
{
    let cs = chars_of(reference);
    let tail = after_last_char(&cs, '/');
    let cleaned = replace_str(tail.as_str(), "%23", "");
    proof {
        assert(""@ =~= Seq::<char>::empty()) by {
            reveal_strlit("");
        }
    }
    let cc = chars_of(cleaned.as_str());
    trim_start_chars(&cc, '#')
}


// ---------------------------------------------------------------------------
// The generation, stated over JSON values
// ---------------------------------------------------------------------------
/// The records generated so far: each record name with its fields (name and
/// type), and the record names in the order they were emitted.
#[verifier::ext_equal]
pub struct RecordsModel {
    pub emitted: Seq<(Seq<char>, Seq<(Seq<char>, Seq<char>)>)>,
    pub order: Seq<Seq<char>>,
}

/// A step of the generation: a value and the records after it, a failure
/// with its message and the records as they stood when it failed, or a `$ref`
/// chain deeper than the allowed depth.
pub enum Gen<T> {
    Done(T, RecordsModel),
    Failed(Seq<char>, RecordsModel),
    TooDeep,
}

pub open spec fn empty_records() -> RecordsModel {
    RecordsModel { emitted: Seq::empty(), order: Seq::empty() }
}

/// The first definition whose key, with or without its leading `#`, is `name`.
pub open spec fn find_def_index(defs: Seq<(Seq<char>, JsonValue)>, name: Seq<char>) -> Option<int>
    decreases defs.len(),
{
    if defs.len() == 0 {
        None
    } else if trim_start_char(defs[0].0, '#') == name || defs[0].0 == name {
        Some(0)
    } else {
        match find_def_index(defs.drop_first(), name) {
            Some(i) => Some(i + 1),
            None => None,
        }
    }
}

pub open spec fn find_def(defs: Seq<(Seq<char>, JsonValue)>, name: Seq<char>) -> Option<JsonValue> {
    match find_def_index(defs, name) {
        Some(i) => Some(defs[i].1),
        None => None,
    }
}

pub open spec fn missing_def_message(name: Seq<char>) -> Seq<char> {
    "missing schema definition for "@ + name
}

/// Whether `name` is listed among the strings of the schema's `required` array.
pub open spec fn is_required(schema: JsonValue, name: Seq<char>) -> bool {
    match schema.get_array("required"@) {
        Some(items) => exists|j: int| 0 <= j < items.len() && items[j] == JsonValue::Str(name),
        None => false,
    }
}

/// The properties of an object schema, as given in its `properties` member.
pub open spec fn properties_of(schema: JsonValue) -> Seq<(Seq<char>, JsonValue)> {
    match schema.get_object("properties"@) {
        Some(props) => props,
        None => Seq::empty(),
    }
}

/// Whether a schema describes a record: it has `properties` or its type is
/// `object`.
pub open spec fn is_record_schema(schema: JsonValue) -> bool {
    schema.get("properties"@) is Some || schema.get_str("type"@) == Some("object"@)
}

/// The WIT type for `schema`, emitting the records it needs.
pub open spec fn wit_type(
    fuel: nat,
    logical: Seq<char>,
    schema: JsonValue,
    defs: Seq<(Seq<char>, JsonValue)>,
    st: RecordsModel,
) -> Gen<Seq<char>>
    decreases fuel, json_size(schema), 2nat, 0nat,
{
    if is_record_schema(schema) {
        record_type(fuel, logical, schema, defs, st)
    } else if schema.get("enum"@) is Some {
        Gen::Done("string"@, st)
    } else if schema.get_array("oneOf"@) is Some && schema.get_array("oneOf"@).unwrap().len() > 0 {
        let first = schema.get_array("oneOf"@).unwrap()[0];
        proof {
            lemma_get_smaller(schema, "oneOf"@);
            lemma_array_item_smaller(schema.get("oneOf"@).unwrap(), 0);
        }
        wit_type(fuel, logical, first, defs, st)
    } else if schema.get_str("$ref"@) is Some {
        let def_name = ref_name(schema.get_str("$ref"@).unwrap());
        match find_def(defs, def_name) {
            Some(def_schema) => if fuel == 0 {
                Gen::TooDeep
            } else {
                wit_type((fuel - 1) as nat, def_name, def_schema, defs, st)
            },
            None => Gen::Failed(missing_def_message(def_name), st),
        }
    } else {
        match schema.get_str("type"@) {
            Some(t) => if t == "string"@ {
                Gen::Done("string"@, st)
            } else if t == "integer"@ {
                Gen::Done("s64"@, st)
            } else if t == "number"@ {
                Gen::Done("f64"@, st)
            } else if t == "boolean"@ {
                Gen::Done("bool"@, st)
            } else if t == "array"@ {
                match schema.get("items"@) {
                    Some(items) => {
                        proof {
                            lemma_get_smaller(schema, "items"@);
                        }
                        match wit_type(fuel, logical + "-item"@, items, defs, st) {
                            Gen::Done(item_type, st2) => Gen::Done(
                                "list<"@ + item_type + ">"@,
                                st2,
                            ),
                            Gen::Failed(e, fs) => Gen::Failed(e, fs),
                            Gen::TooDeep => Gen::TooDeep,
                        }
                    },
                    None => Gen::Done("list<string>"@, st),
                }
            } else {
                Gen::Failed("unsupported schema type `"@ + t + "` in "@ + logical, st)
            },
            None => Gen::Done("string"@, st),
        }
    }
}

/// The record for an object schema: its name, after the record and the
/// records of its fields have been emitted; nothing new when a record of that
/// name exists.
pub open spec fn record_type(
    fuel: nat,
    logical: Seq<char>,
    schema: JsonValue,
    defs: Seq<(Seq<char>, JsonValue)>,
    st: RecordsModel,
) -> Gen<Seq<char>>
    decreases fuel, json_size(schema), 1nat, 0nat,
{
    let record_name = wit_ident(logical);
    if assoc_get(st.emitted, record_name) is Some {
        Gen::Done(record_name, st)
    } else if schema.get_object("properties"@) is None {
        Gen::Failed("expected object schema for "@ + logical, st)
    } else {
        match record_fields(fuel, logical, schema, 0, defs, st) {
            Gen::Done(fields, st2) => Gen::Done(
                record_name,
                RecordsModel {
                    emitted: assoc_put(st2.emitted, record_name, fields),
                    order: st2.order.push(record_name),
                },
            ),
            Gen::Failed(e, fs) => Gen::Failed(e, fs),
            Gen::TooDeep => Gen::TooDeep,
        }
    }
}

/// The fields of a record from its `i`-th property on.
pub open spec fn record_fields(
    fuel: nat,
    logical: Seq<char>,
    schema: JsonValue,
    i: nat,
    defs: Seq<(Seq<char>, JsonValue)>,
    st: RecordsModel,
) -> Gen<Seq<(Seq<char>, Seq<char>)>>
    decreases fuel, json_size(schema), 0nat, properties_of(schema).len() - i,
{
    let props = properties_of(schema);
    if i >= props.len() {
        Gen::Done(Seq::empty(), st)
    } else {
        let name = props[i as int].0;
        proof {
            lemma_get_smaller(schema, "properties"@);
            lemma_object_entry_smaller(schema.get("properties"@).unwrap(), i as int);
        }
        match wit_type(fuel, logical + "-"@ + name, props[i as int].1, defs, st) {
            Gen::Done(t, st1) => {
                let field_type = if is_required(schema, name) {
                    t
                } else {
                    "option<"@ + t + ">"@
                };
                match record_fields(fuel, logical, schema, i + 1, defs, st1) {
                    Gen::Done(rest, st2) => Gen::Done(
                        seq![(wit_ident(name), field_type)] + rest,
                        st2,
                    ),
                    Gen::Failed(e, fs) => Gen::Failed(e, fs),
                    Gen::TooDeep => Gen::TooDeep,
                }
            },
            Gen::Failed(e, fs) => Gen::Failed(e, fs),
            Gen::TooDeep => Gen::TooDeep,
        }
    }
}

/// `entries` with the value of key `k` set to `v`: the first entry with that
/// key is replaced, or the entry is added at the end.
pub open spec fn assoc_put<V>(entries: Seq<(Seq<char>, V)>, k: Seq<char>, v: V) -> Seq<(Seq<char>, V)> {
    match first_index(keys_of(entries), k) {
        Some(i) => entries.update(i, (k, v)),
        None => entries.push((k, v)),
    }
}

/// The definitions of a schema document: its `$defs` object, or none.
pub open spec fn defs_of(schema: JsonValue) -> Seq<(Seq<char>, JsonValue)> {
    match schema.get_object("$defs"@) {
        Some(defs) => defs,
        None => Seq::empty(),
    }
}

/// Whether a root schema describes its shape itself rather than only through
/// `$ref`.
pub open spec fn has_inline_shape(schema: JsonValue) -> bool {
    ||| schema.get("properties"@) is Some
    ||| schema.get("enum"@) is Some
    ||| schema.get("oneOf"@) is Some
    ||| schema.get("type"@) is Some
}

/// The WIT type for a root schema document, named `fallback` unless it is
/// only a `$ref` to one of its definitions.
pub open spec fn root_type(fuel: nat, schema: JsonValue, fallback: Seq<char>, st: RecordsModel) -> Gen<
    Seq<char>,
> {
    let defs = defs_of(schema);
    let inline = has_inline_shape(schema);
    match schema.get_str("$ref"@) {
        Some(reference) => if inline {
            wit_type(fuel, fallback, schema, defs, st)
        } else if defs.len() == 0 {
            Gen::Failed("schema uses `$ref` but does not define `$defs`"@, st)
        } else {
            let def_name = ref_name(reference);
            match find_def(defs, def_name) {
                Some(root) => wit_type(fuel, def_name, root, defs, st),
                None => Gen::Failed(missing_def_message(def_name), st),
            }
        },
        None => wit_type(fuel, fallback, schema, defs, st),
    }
}

// ---------------------------------------------------------------------------
// The generated text
// ---------------------------------------------------------------------------
pub open spec fn fields_text(fields: Seq<(Seq<char>, Seq<char>)>) -> Seq<char>
    decreases fields.len(),
{
    if fields.len() == 0 {
        Seq::empty()
    } else {
        fields_text(fields.drop_last()) + "        "@ + fields.last().0 + ": "@ + fields.last().1
            + ",\n"@
    }
}

/// A record as it stands in the interface, followed by an empty line.
pub open spec fn record_block(name: Seq<char>, fields: Seq<(Seq<char>, Seq<char>)>) -> Seq<char> {
    "    record "@ + name + " {\n"@ + fields_text(fields) + "    }\n"@ + "\n"@
}

/// The records, in the order they were emitted.
pub open spec fn records_text(emitted: Seq<(Seq<char>, Seq<(Seq<char>, Seq<char>)>)>, order: Seq<Seq<char>>) -> Seq<char>
    decreases order.len(),
{
    if order.len() == 0 {
        Seq::empty()
    } else {
        records_text(emitted, order.drop_last()) + match assoc_get(emitted, order.last()) {
            Some(fields) => record_block(order.last(), fields),
            None => Seq::empty(),
        }
    }
}

pub open spec fn wit_header(config: WitConfig) -> Seq<char> {
    "package "@ + config.package@ + "@"@ + config.version@ + ";\n\n"@
        + "/// Generated from JSON Schema. Do not edit manually.\n"@ + "interface "@ + wit_ident(
        config.interface@,
    ) + " {\n"@
}

pub open spec fn wit_footer(config: WitConfig) -> Seq<char> {
    "}\n\nworld "@ + wit_ident(config.world@) + " {\n    export "@ + wit_ident(config.interface@)
        + ";\n}\n"@
}

pub open spec fn function_line(name: Seq<char>, input: Seq<char>, output: Seq<char>) -> Seq<char> {
    "    "@ + name + ": func(input: "@ + input + ") -> "@ + output + ";"@
}

/// The result of a whole generation.
pub enum Outcome {
    Wit(Seq<char>),
    Failed(Seq<char>),
    TooDeep,
}

/// The WIT package for one function from `input` to `output`.
pub open spec fn wit_for_schemas(fuel: nat, input: JsonValue, output: JsonValue, config: WitConfig) -> Outcome {
    match root_type(fuel, input, "input"@, empty_records()) {
        Gen::Done(input_type, st1) => match root_type(fuel, output, "output"@, st1) {
            Gen::Done(output_type, st2) => Outcome::Wit(
                wit_header(config) + records_text(st2.emitted, st2.order) + function_line(
                    wit_ident(config.function@),
                    input_type,
                    output_type,
                ) + "\n"@ + wit_footer(config),
            ),
            Gen::Failed(e, _) => Outcome::Failed(e),
            Gen::TooDeep => Outcome::TooDeep,
        },
        Gen::Failed(e, _) => Outcome::Failed(e),
        Gen::TooDeep => Outcome::TooDeep,
    }
}

/// The function lines for the tools from the `i`-th on.
pub open spec fn tool_lines(
    fuel: nat,
    schemas: Seq<(Seq<char>, JsonValue)>,
    defs: Seq<(Seq<char>, JsonValue)>,
    tools: Seq<ToolFunction>,
    i: nat,
    st: RecordsModel,
) -> Gen<Seq<Seq<char>>>
    decreases tools.len() - i,
{
    if i >= tools.len() {
        Gen::Done(Seq::empty(), st)
    } else {
        let tool = tools[i as int];
        match find_def(schemas, tool.input_schema_name@) {
            None => Gen::Failed(missing_def_message(tool.input_schema_name@), st),
            Some(input_schema) => match find_def(schemas, tool.output_schema_name@) {
                None => Gen::Failed(missing_def_message(tool.output_schema_name@), st),
                Some(output_schema) => match wit_type(
                    fuel,
                    tool.input_schema_name@,
                    input_schema,
                    defs,
                    st,
                ) {
                    Gen::Done(input_type, st1) => match wit_type(
                        fuel,
                        tool.output_schema_name@,
                        output_schema,
                        defs,
                        st1,
                    ) {
                        Gen::Done(output_type, st2) => match tool_lines(
                            fuel,
                            schemas,
                            defs,
                            tools,
                            i + 1,
                            st2,
                        ) {
                            Gen::Done(rest, st3) => Gen::Done(
                                seq![function_line(wit_ident(tool.name@), input_type, output_type)]
                                    + rest,
                                st3,
                            ),
                            Gen::Failed(e, fs) => Gen::Failed(e, fs),
                            Gen::TooDeep => Gen::TooDeep,
                        },
                        Gen::Failed(e, fs) => Gen::Failed(e, fs),
                        Gen::TooDeep => Gen::TooDeep,
                    },
                    Gen::Failed(e, fs) => Gen::Failed(e, fs),
                    Gen::TooDeep => Gen::TooDeep,
                },
            },
        }
    }
}

/// `lines` joined by newlines.
pub open spec fn join_lines(lines: Seq<Seq<char>>) -> Seq<char>
    decreases lines.len(),
{
    if lines.len() == 0 {
        Seq::empty()
    } else if lines.len() == 1 {
        lines[0]
    } else {
        join_lines(lines.drop_last()) + "\n"@ + lines.last()
    }
}

pub open spec fn no_tools_message() -> Seq<char> {
    "expected at least one tool function"@
}

pub open spec fn no_properties_message() -> Seq<char> {
    "expected all-schemas JSON Schema document to contain an object `properties` field"@
}

/// The WIT package with one function per tool, the tools' schemas taken from
/// the `properties` of `all_schemas`.
pub open spec fn wit_for_tools(fuel: nat, all_schemas: JsonValue, tools: Seq<ToolFunction>, config: WitConfig) -> Outcome {
    if tools.len() == 0 {
        Outcome::Failed(no_tools_message())
    } else {
        match all_schemas.get_object("properties"@) {
            None => Outcome::Failed(no_properties_message()),
            Some(schemas) => match tool_lines(
                fuel,
                schemas,
                defs_of(all_schemas),
                tools,
                0,
                empty_records(),
            ) {
                Gen::Done(lines, st) => Outcome::Wit(
                    wit_header(config) + records_text(st.emitted, st.order) + join_lines(lines)
                        + "\n"@ + wit_footer(config),
                ),
                Gen::Failed(e, _) => Outcome::Failed(e),
                Gen::TooDeep => Outcome::TooDeep,
            },
        }
    }
}


// ---------------------------------------------------------------------------
// What the generation keeps of its records
// ---------------------------------------------------------------------------
/// Whether every record named in the order has a definition, and every
/// definition is named in the order.
pub open spec fn records_consistent(st: RecordsModel) -> bool {
    &&& forall|i: int| 0 <= i < st.order.len() ==> keys_of(st.emitted).contains(#[trigger] st.order[i])
    &&& forall|i: int| 0 <= i < st.emitted.len() ==> st.order.contains(#[trigger] st.emitted[i].0)
}

/// Whether `st2` holds the records of `st` as they were, in the same places,
/// and the order of `st` as its beginning.
pub open spec fn records_extend(st: RecordsModel, st2: RecordsModel) -> bool {
    &&& st.emitted.len() <= st2.emitted.len()
    &&& st2.emitted.take(st.emitted.len() as int) == st.emitted
    &&& st.order.len() <= st2.order.len()
    &&& st2.order.take(st.order.len() as int) == st.order
}

/// The records a step ends with, whether it succeeded or failed.
pub open spec fn gen_records<T>(g: Gen<T>) -> Option<RecordsModel> {
    match g {
        Gen::Done(_, st) => Some(st),
        Gen::Failed(_, st) => Some(st),
        Gen::TooDeep => None,
    }
}

/// Whether a step started from `st` ends, on success or failure, with
/// consistent records that extend those of `st`.
pub open spec fn keeps_records<T>(st: RecordsModel, g: Gen<T>) -> bool {
    match gen_records(g) {
        Some(st2) => records_consistent(st2) && records_extend(st, st2),
        None => true,
    }
}

proof fn lemma_extend_refl(st: RecordsModel)
    ensures
        records_extend(st, st),
{
    assert(st.emitted.take(st.emitted.len() as int) =~= st.emitted);
    assert(st.order.take(st.order.len() as int) =~= st.order);
}

proof fn lemma_extend_trans(a: RecordsModel, b: RecordsModel, c: RecordsModel)
    requires
        records_extend(a, b),
        records_extend(b, c),
    ensures
        records_extend(a, c),
{
    assert(c.emitted.take(a.emitted.len() as int) =~= c.emitted.take(b.emitted.len() as int).take(
        a.emitted.len() as int,
    ));
    assert(c.order.take(a.order.len() as int) =~= c.order.take(b.order.len() as int).take(
        a.order.len() as int,
    ));
}

/// Adding a record of a name that `st0` did not hold keeps the records
/// consistent and those of `st0` in place.
proof fn lemma_add_record(st0: RecordsModel, st: RecordsModel, name: Seq<char>, fields: Seq<(Seq<char>, Seq<char>)>)
    requires
        records_consistent(st),
        records_extend(st0, st),
        assoc_get(st0.emitted, name) is None,
    ensures
        records_consistent(
            RecordsModel { emitted: assoc_put(st.emitted, name, fields), order: st.order.push(name) },
        ),
        records_extend(
            st0,
            RecordsModel { emitted: assoc_put(st.emitted, name, fields), order: st.order.push(name) },
        ),
        keys_of(assoc_put(st.emitted, name, fields)).contains(name),
{
    let e2 = assoc_put(st.emitted, name, fields);
    let o2 = st.order.push(name);
    let ks = keys_of(st.emitted);
    lemma_first_index_bounds(ks, name);
    lemma_first_index_bounds(keys_of(st0.emitted), name);
    assert forall|i: int| 0 <= i < ks.len() implies keys_of(e2).contains(#[trigger] ks[i]) by {
        assert(keys_of(e2)[i] == ks[i]);
    }
    let j = match first_index(ks, name) {
        Some(k) => k,
        None => ks.len() as int,
    };
    assert(keys_of(e2)[j] == name);
    assert forall|i: int| 0 <= i < o2.len() implies keys_of(e2).contains(#[trigger] o2[i]) by {
        if i < st.order.len() {
            assert(o2[i] == st.order[i]);
            assert(ks.contains(st.order[i]));
        }
    }
    assert forall|i: int| 0 <= i < e2.len() implies o2.contains(#[trigger] e2[i].0) by {
        if e2[i].0 == name {
            assert(o2[st.order.len() as int] == name);
        } else {
            assert(e2[i] == st.emitted[i]);
            assert(st.order.contains(st.emitted[i].0));
            let q = choose|q: int| 0 <= q < st.order.len() && st.order[q] == st.emitted[i].0;
            assert(o2[q] == st.order[q]);
        }
    }
    // The name sits, if anywhere, after the records of `st0`.
    if j < st0.emitted.len() {
        assert(st.emitted[j] == st.emitted.take(st0.emitted.len() as int)[j]);
        assert(keys_of(st0.emitted)[j] == name);
    }
    assert(e2.take(st0.emitted.len() as int) =~= st.emitted.take(st0.emitted.len() as int));
    assert(o2.take(st0.order.len() as int) =~= st.order.take(st0.order.len() as int));
}

proof fn lemma_wit_type_keeps(
    fuel: nat,
    logical: Seq<char>,
    schema: JsonValue,
    defs: Seq<(Seq<char>, JsonValue)>,
    st: RecordsModel,
)
    requires
        records_consistent(st),
    ensures
        keeps_records(st, wit_type(fuel, logical, schema, defs, st)),
    decreases fuel, json_size(schema), 2nat, 0nat,
{
    lemma_extend_refl(st);
    if is_record_schema(schema) {
        lemma_record_type_keeps(fuel, logical, schema, defs, st);
    } else if schema.get("enum"@) is Some {
    } else if schema.get_array("oneOf"@) is Some && schema.get_array("oneOf"@).unwrap().len() > 0 {
        let first = schema.get_array("oneOf"@).unwrap()[0];
        lemma_get_smaller(schema, "oneOf"@);
        lemma_array_item_smaller(schema.get("oneOf"@).unwrap(), 0);
        lemma_wit_type_keeps(fuel, logical, first, defs, st);
    } else if schema.get_str("$ref"@) is Some {
        let def_name = ref_name(schema.get_str("$ref"@).unwrap());
        if let Some(def_schema) = find_def(defs, def_name) {
            if fuel > 0 {
                lemma_wit_type_keeps((fuel - 1) as nat, def_name, def_schema, defs, st);
            }
        }
    } else if schema.get_str("type"@) == Some("array"@) {
        if let Some(items) = schema.get("items"@) {
            lemma_get_smaller(schema, "items"@);
            lemma_wit_type_keeps(fuel, logical + "-item"@, items, defs, st);
        }
    }
}

proof fn lemma_record_type_keeps(
    fuel: nat,
    logical: Seq<char>,
    schema: JsonValue,
    defs: Seq<(Seq<char>, JsonValue)>,
    st: RecordsModel,
)
    requires
        records_consistent(st),
    ensures
        keeps_records(st, record_type(fuel, logical, schema, defs, st)),
        record_type(fuel, logical, schema, defs, st) matches Gen::Done(n, st2) ==> keys_of(
            st2.emitted,
        ).contains(n),
    decreases fuel, json_size(schema), 1nat, 0nat,
{
    lemma_extend_refl(st);
    let record_name = wit_ident(logical);
    if assoc_get(st.emitted, record_name) is Some {
        lemma_first_index_bounds(keys_of(st.emitted), record_name);
    } else if schema.get_object("properties"@) is Some {
        lemma_record_fields_keeps(fuel, logical, schema, 0, defs, st);
        if let Gen::Done(fields, st2) = record_fields(fuel, logical, schema, 0, defs, st) {
            lemma_add_record(st, st2, record_name, fields);
        }
    }
}

proof fn lemma_record_fields_keeps(
    fuel: nat,
    logical: Seq<char>,
    schema: JsonValue,
    i: nat,
    defs: Seq<(Seq<char>, JsonValue)>,
    st: RecordsModel,
)
    requires
        records_consistent(st),
    ensures
        keeps_records(st, record_fields(fuel, logical, schema, i, defs, st)),
    decreases fuel, json_size(schema), 0nat, properties_of(schema).len() - i,
{
    lemma_extend_refl(st);
    let props = properties_of(schema);
    if i < props.len() {
        let name = props[i as int].0;
        lemma_get_smaller(schema, "properties"@);
        lemma_object_entry_smaller(schema.get("properties"@).unwrap(), i as int);
        lemma_wit_type_keeps(fuel, logical + "-"@ + name, props[i as int].1, defs, st);
        if let Gen::Done(t, st1) = wit_type(fuel, logical + "-"@ + name, props[i as int].1, defs, st) {
            lemma_record_fields_keeps(fuel, logical, schema, i + 1, defs, st1);
            if let Some(st2) = gen_records(record_fields(fuel, logical, schema, i + 1, defs, st1)) {
                lemma_extend_trans(st, st1, st2);
            }
        }
    }
}

/// A record whose name was emitted before is not emitted again: its name is
/// the result and the records stay as they were, whatever the schema.
pub proof fn lemma_record_type_emitted_before(
    fuel: nat,
    logical: Seq<char>,
    schema: JsonValue,
    defs: Seq<(Seq<char>, JsonValue)>,
    st: RecordsModel,
)
    requires
        assoc_get(st.emitted, wit_ident(logical)) is Some,
    ensures
        record_type(fuel, logical, schema, defs, st) == Gen::Done(wit_ident(logical), st),
{
}

/// A new record needs `properties`: without them the step fails with its
/// message and the records stay as they were.
pub proof fn lemma_record_type_needs_properties(
    fuel: nat,
    logical: Seq<char>,
    schema: JsonValue,
    defs: Seq<(Seq<char>, JsonValue)>,
    st: RecordsModel,
)
    requires
        assoc_get(st.emitted, wit_ident(logical)) is None,
        schema.get_object("properties"@) is None,
    ensures
        record_type(fuel, logical, schema, defs, st) == Gen::<Seq<char>>::Failed(
            "expected object schema for "@ + logical,
            st,
        ),
{
}

/// Generating the type of a schema, whether it succeeds or fails, keeps the
/// records whole (every record named in the order of emission has its
/// definition, and every definition is named there) and keeps the records and
/// the order from before as they were, in front; a record type that succeeds
/// names a record that is emitted.
pub proof fn lemma_wit_type_keeps_records(
    fuel: nat,
    logical: Seq<char>,
    schema: JsonValue,
    defs: Seq<(Seq<char>, JsonValue)>,
    st: RecordsModel,
)
    requires
        records_consistent(st),
    ensures
        keeps_records(st, wit_type(fuel, logical, schema, defs, st)),
        keeps_records(st, record_type(fuel, logical, schema, defs, st)),
        record_type(fuel, logical, schema, defs, st) matches Gen::Done(n, st2) ==> keys_of(
            st2.emitted,
        ).contains(n),
{
    lemma_wit_type_keeps(fuel, logical, schema, defs, st);
    lemma_record_type_keeps(fuel, logical, schema, defs, st);
}

/// Generating the type of a root schema keeps the records as
/// `lemma_wit_type_keeps_records` says, on success and on failure.
pub proof fn lemma_root_type_consistent(fuel: nat, schema: JsonValue, fallback: Seq<char>, st: RecordsModel)
    requires
        records_consistent(st),
    ensures
        keeps_records(st, root_type(fuel, schema, fallback, st)),
{
    lemma_extend_refl(st);
    let defs = defs_of(schema);
    match schema.get_str("$ref"@) {
        Some(reference) => {
            if has_inline_shape(schema) {
                lemma_wit_type_keeps(fuel, fallback, schema, defs, st);
            } else if let Some(root) = find_def(defs, ref_name(reference)) {
                lemma_wit_type_keeps(fuel, ref_name(reference), root, defs, st);
            }
        },
        None => lemma_wit_type_keeps(fuel, fallback, schema, defs, st),
    }
}

/// Generating the tool functions keeps the records as for a root schema.
pub proof fn lemma_tool_lines_consistent(
    fuel: nat,
    schemas: Seq<(Seq<char>, JsonValue)>,
    defs: Seq<(Seq<char>, JsonValue)>,
    tools: Seq<ToolFunction>,
    i: nat,
    st: RecordsModel,
)
    requires
        records_consistent(st),
    ensures
        keeps_records(st, tool_lines(fuel, schemas, defs, tools, i, st)),
    decreases tools.len() - i,
{
    lemma_extend_refl(st);
    if i < tools.len() {
        let tool = tools[i as int];
        if let Some(input_schema) = find_def(schemas, tool.input_schema_name@) {
            if let Some(output_schema) = find_def(schemas, tool.output_schema_name@) {
                lemma_wit_type_keeps(fuel, tool.input_schema_name@, input_schema, defs, st);
                if let Gen::Done(a, st1) = wit_type(fuel, tool.input_schema_name@, input_schema, defs, st) {
                    lemma_wit_type_keeps(fuel, tool.output_schema_name@, output_schema, defs, st1);
                    if let Some(s2) = gen_records(
                        wit_type(fuel, tool.output_schema_name@, output_schema, defs, st1),
                    ) {
                        lemma_extend_trans(st, st1, s2);
                    }
                    if let Gen::Done(b, st2) = wit_type(
                        fuel,
                        tool.output_schema_name@,
                        output_schema,
                        defs,
                        st1,
                    ) {
                        lemma_tool_lines_consistent(fuel, schemas, defs, tools, i + 1, st2);
                        if let Some(st3) = gen_records(tool_lines(fuel, schemas, defs, tools, i + 1, st2)) {
                            lemma_extend_trans(st, st2, st3);
                        }
                    }
                }
            }
        }
    }
}

// ---------------------------------------------------------------------------
// What a record field's type and a tool's definitions depend on
// ---------------------------------------------------------------------------
/// A record field is optional exactly when its property's own name, as it
/// stands in `properties`, is not among the strings of the schema's
/// `required` array: the field of property `p` is named `p` as a WIT
/// identifier and has the property's type `t`, or `option<t>` when `p` is not
/// required.
pub proof fn lemma_field_optional_unless_required(
    fuel: nat,
    logical: Seq<char>,
    schema: JsonValue,
    i: nat,
    defs: Seq<(Seq<char>, JsonValue)>,
    st: RecordsModel,
)
    requires
        i < properties_of(schema).len(),
    ensures
        ({
            let p = properties_of(schema)[i as int];
            let required = match schema.get_array("required"@) {
                Some(items) => items.contains(JsonValue::Str(p.0)),
                None => false,
            };
            wit_type(fuel, logical + "-"@ + p.0, p.1, defs, st) matches Gen::Done(t, _) ==> (record_fields(
                fuel,
                logical,
                schema,
                i,
                defs,
                st,
            ) matches Gen::Done(fields, _) ==> fields.len() > 0 && fields[0] == (
                wit_ident(p.0),
                if required {
                    t
                } else {
                    "option<"@ + t + ">"@
                },
            ))
        }),
{
    let p = properties_of(schema)[i as int];
    if let Some(items) = schema.get_array("required"@) {
        if items.contains(JsonValue::Str(p.0)) {
            let j = choose|j: int| 0 <= j < items.len() && items[j] == JsonValue::Str(p.0);
            assert(is_required(schema, p.0));
        }
    }
}

proof fn lemma_tool_lines_same_schemas(
    fuel: nat,
    s1: Seq<(Seq<char>, JsonValue)>,
    s2: Seq<(Seq<char>, JsonValue)>,
    defs: Seq<(Seq<char>, JsonValue)>,
    tools: Seq<ToolFunction>,
    i: nat,
    st: RecordsModel,
)
    requires
        forall|k: int|
            0 <= k < tools.len() ==> find_def(s1, (#[trigger] tools[k]).input_schema_name@) == find_def(
                s2,
                tools[k].input_schema_name@,
            ) && find_def(s1, tools[k].output_schema_name@) == find_def(s2, tools[k].output_schema_name@),
    ensures
        tool_lines(fuel, s1, defs, tools, i, st) == tool_lines(fuel, s2, defs, tools, i, st),
    decreases tools.len() - i,
{
    if i < tools.len() {
        let tool = tools[i as int];
        assert(find_def(s1, tool.input_schema_name@) == find_def(s2, tool.input_schema_name@));
        if let Some(input_schema) = find_def(s1, tool.input_schema_name@) {
            if let Some(output_schema) = find_def(s1, tool.output_schema_name@) {
                if let Gen::Done(a, st1) = wit_type(fuel, tool.input_schema_name@, input_schema, defs, st) {
                    if let Gen::Done(b, st2) = wit_type(fuel, tool.output_schema_name@, output_schema, defs, st1) {
                        lemma_tool_lines_same_schemas(fuel, s1, s2, defs, tools, i + 1, st2);
                    }
                }
            }
        }
    }
}

/// The tools' `$ref`s are resolved in the document's `$defs` and nowhere
/// else: two documents with the same `$defs`, whose `properties` give the
/// same schema for every name a tool uses, give the same WIT, whatever else
/// their `properties` hold.
pub proof fn lemma_tools_read_only_their_schemas_and_defs(
    fuel: nat,
    a1: JsonValue,
    a2: JsonValue,
    tools: Seq<ToolFunction>,
    config: WitConfig,
)
    requires
        a1.get_object("properties"@) is Some,
        a2.get_object("properties"@) is Some,
        defs_of(a1) == defs_of(a2),
        forall|k: int|
            0 <= k < tools.len() ==> find_def(
                a1.get_object("properties"@).unwrap(),
                (#[trigger] tools[k]).input_schema_name@,
            ) == find_def(a2.get_object("properties"@).unwrap(), tools[k].input_schema_name@)
                && find_def(a1.get_object("properties"@).unwrap(), tools[k].output_schema_name@)
                == find_def(a2.get_object("properties"@).unwrap(), tools[k].output_schema_name@),
    ensures
        wit_for_tools(fuel, a1, tools, config) == wit_for_tools(fuel, a2, tools, config),
{
    lemma_tool_lines_same_schemas(
        fuel,
        a1.get_object("properties"@).unwrap(),
        a2.get_object("properties"@).unwrap(),
        defs_of(a1),
        tools,
        0,
        empty_records(),
    );
}

/// The first tool's input type is generated with the definitions of the
/// document's `$defs`: where that fails, the whole generation fails with the
/// same message.
pub proof fn lemma_tool_input_failure_fails_all(
    fuel: nat,
    all: JsonValue,
    tools: Seq<ToolFunction>,
    config: WitConfig,
)
    requires
        tools.len() > 0,
        all.get_object("properties"@) is Some,
        find_def(all.get_object("properties"@).unwrap(), tools[0].input_schema_name@) is Some,
        find_def(all.get_object("properties"@).unwrap(), tools[0].output_schema_name@) is Some,
    ensures
        wit_type(
            fuel,
            tools[0].input_schema_name@,
            find_def(all.get_object("properties"@).unwrap(), tools[0].input_schema_name@).unwrap(),
            defs_of(all),
            empty_records(),
        ) matches Gen::Failed(e, _) ==> wit_for_tools(fuel, all, tools, config) == Outcome::Failed(e),
{
}

// ---------------------------------------------------------------------------
// Executable generation
// ---------------------------------------------------------------------------
pub open spec fn gen_matches(r: Option<Result<String, Error>>, st: RecordsModel, g: Gen<Seq<char>>) -> bool {
    match g {
        Gen::Done(t, st2) => r matches Some(Ok(s)) && s@ == t && st == st2,
        Gen::Failed(e, st2) => r matches Some(Err(err)) && err@ == e && st == st2,
        Gen::TooDeep => r is None,
    }
}

pub open spec fn outcome_matches(r: Option<Result<String, Error>>, o: Outcome) -> bool {
    match o {
        Outcome::Wit(t) => r matches Some(Ok(s)) && s@ == t,
        Outcome::Failed(e) => r matches Some(Err(err)) && err@ == e,
        Outcome::TooDeep => r is None,
    }
}

pub open spec fn prepend<T>(acc: Seq<T>, g: Gen<Seq<T>>) -> Gen<Seq<T>> {
    match g {
        Gen::Done(rest, st) => Gen::Done(acc + rest, st),
        Gen::Failed(e, fs) => Gen::Failed(e, fs),
        Gen::TooDeep => Gen::TooDeep,
    }
}

pub open spec fn fields_view(fields: Seq<(String, String)>) -> Seq<(Seq<char>, Seq<char>)> {
    Seq::new(fields.len(), |i: int| (fields[i].0@, fields[i].1@))
}

/// The records emitted while generating, with the order of emission.
struct Records {
    emitted: Vec<(String, Vec<(String, String)>)>,
    order: Vec<String>,
}

impl View for Records {
    type V = RecordsModel;

    closed spec fn view(&self) -> RecordsModel {
        RecordsModel {
            emitted: Seq::new(
                self.emitted@.len(),
                |i: int| (self.emitted@[i].0@, fields_view(self.emitted@[i].1@)),
            ),
            order: strings_view(self.order@),
        }
    }
}

impl Records {
    fn new() -> (r: Records)
        ensures
            r@ == empty_records(),
    {
        let r = Records { emitted: Vec::new(), order: Vec::new() };
        assert(r@ =~= empty_records());
        r
    }

    fn position(&self, name: &str) -> (r: Option<usize>)
        ensures
            r matches Some(i) ==> first_index(keys_of(self@.emitted), name@) == Some(i as int),
            r is None ==> first_index(keys_of(self@.emitted), name@) is None,
    {
        assert(keys_of(self@.emitted) =~= string_keys(self.emitted@));
        find_key(&self.emitted, name)
    }

    fn contains(&self, name: &str) -> (r: bool)
        ensures
            r == (assoc_get(self@.emitted, name@) is Some),
    {
        self.position(name).is_some()
    }

    fn insert(&mut self, name: String, fields: Vec<(String, String)>)
        ensures
            final(self)@ == (RecordsModel {
                emitted: assoc_put(old(self)@.emitted, name@, fields_view(fields@)),
                order: old(self)@.order.push(name@),
            }),
    {
        let ghost old_model = self@;
        let key = name.clone();
        match self.position(name.as_str()) {
            Some(i) => {
                proof {
                    lemma_first_index_bounds(keys_of(old_model.emitted), name@);
                }
                self.emitted.set(i, (key, fields));
            },
            None => {
                self.emitted.push((key, fields));
            },
        }
        self.order.push(name);
        assert(self@.emitted =~= assoc_put(old_model.emitted, name@, fields_view(fields@)));
        assert(self@.order =~= old_model.order.push(name@));
    }
}

fn get_str<'a>(j: &'a Json, key: &str) -> (r: Option<&'a String>)
    ensures
        r matches Some(s) ==> j@.get_str(key@) == Some(s@),
        r is None ==> j@.get_str(key@) is None,
{
    match j.get(key) {
        Some(v) => v.as_str(),
        None => None,
    }
}

fn get_object<'a>(j: &'a Json, key: &str) -> (r: Option<&'a Vec<(String, Json)>>)
    ensures
        r matches Some(es) ==> j@.get_object(key@) == Some(entries_view(es@)) && j@.get(key@)
            == Some(JsonValue::Object(entries_view(es@))),
        r is None ==> j@.get_object(key@) is None,
{
    match j.get(key) {
        Some(v) => v.as_object(),
        None => None,
    }
}

fn get_array<'a>(j: &'a Json, key: &str) -> (r: Option<&'a Vec<Json>>)
    ensures
        r matches Some(items) ==> j@.get_array(key@) == Some(items_view(items@)) && j@.get(key@)
            == Some(JsonValue::Array(items_view(items@))),
        r is None ==> j@.get_array(key@) is None,
{
    match j.get(key) {
        Some(v) => v.as_array(),
        None => None,
    }
}

/// Whether `j` is the string `s`.
fn str_is(j: Option<&String>, s: &str) -> (r: bool)
    ensures
        r == (j matches Some(v) && v@ == s@),
{
    match j {
        Some(v) => str_eq(v.as_str(), s),
        None => false,
    }
}

proof fn lemma_find_def_index(defs: Seq<(Seq<char>, JsonValue)>, name: Seq<char>, i: int)
    requires
        0 <= i <= defs.len(),
        forall|j: int|
            0 <= j < i ==> !(trim_start_char(#[trigger] defs[j].0, '#') == name || defs[j].0 == name),
        i == defs.len() || trim_start_char(defs[i].0, '#') == name || defs[i].0 == name,
    ensures
        find_def_index(defs, name) == (if i == defs.len() { None::<int> } else { Some(i) }),
    decreases i,
{
    if i > 0 {
        assert forall|j: int| 0 <= j < i - 1 implies !(trim_start_char(
            #[trigger] defs.drop_first()[j].0,
            '#',
        ) == name || defs.drop_first()[j].0 == name) by {
            assert(defs.drop_first()[j] == defs[j + 1]);
        }
        lemma_find_def_index(defs.drop_first(), name, i - 1);
    }
}

fn find_definition<'a>(defs: &'a Vec<(String, Json)>, def_name: &str) -> (r: Option<&'a Json>)
    ensures
        r matches Some(v) ==> find_def(entries_view(defs@), def_name@) == Some(v@),
        r is None ==> find_def(entries_view(defs@), def_name@) is None,
{
    let ghost dv = entries_view(defs@);
    let mut i: usize = 0;
    while i < defs.len()
        invariant
            i <= defs@.len(),
            dv == entries_view(defs@),
            forall|j: int|
                0 <= j < i ==> !(trim_start_char(#[trigger] dv[j].0, '#') == def_name@ || dv[j].0
                    == def_name@),
        decreases defs@.len() - i,
    {
        let key = &defs[i].0;
        let kc = chars_of(key.as_str());
        let cleaned = trim_start_chars(&kc, '#');
        if str_eq(cleaned.as_str(), def_name) || str_eq(key.as_str(), def_name) {
            proof {
                lemma_find_def_index(dv, def_name@, i as int);
            }
            return Some(&defs[i].1);
        }
        i = i + 1;
    }
    proof {
        lemma_find_def_index(dv, def_name@, i as int);
    }
    None
}

fn missing_definition(name: &str) -> (r: Error)
    ensures
        r@ == missing_def_message(name@),
{
    let mut m = owned("missing schema definition for ");
    push_str(&mut m, name);
    Error::new(m)
}

fn required_contains(schema: &Json, name: &str) -> (r: bool)
    ensures
        r == is_required(schema@, name@),
{
    match get_array(schema, "required") {
        Some(items) => {
            let mut i: usize = 0;
            while i < items.len()
                invariant
                    i <= items@.len(),
                    schema@.get_array("required"@) == Some(items_view(items@)),
                    forall|j: int| 0 <= j < i ==> items_view(items@)[j] != JsonValue::Str(name@),
                decreases items@.len() - i,
            {
                if str_is(items[i].as_str(), name) {
                    assert(items_view(items@)[i as int] == JsonValue::Str(name@));
                    return true;
                }
                i = i + 1;
            }
            false
        },
        None => false,
    }
}

fn wit_type_exec(
    logical: &str,
    schema: &Json,
    defs: &Vec<(String, Json)>,
    records: &mut Records,
    depth: usize,
) -> (r: Option<Result<String, Error>>)
    ensures
        gen_matches(
            r,
            final(records)@,
            wit_type(depth as nat, logical@, schema@, entries_view(defs@), old(records)@),
        ),
    decreases depth, json_size(schema@), 2nat, 0nat,
{
    let ghost dv = entries_view(defs@);
    if schema.get("properties").is_some() || str_is(get_str(schema, "type"), "object") {
        return record_type_exec(logical, schema, defs, records, depth);
    }
    if schema.get("enum").is_some() {
        return Some(Ok(owned("string")));
    }
    match get_array(schema, "oneOf") {
        Some(items) => {
            if items.len() > 0 {
                proof {
                    lemma_get_smaller(schema@, "oneOf"@);
                    lemma_array_item_smaller(schema@.get("oneOf"@).unwrap(), 0);
                }
                return wit_type_exec(logical, &items[0], defs, records, depth);
            }
        },
        None => {},
    }
    match get_str(schema, "$ref") {
        Some(reference) => {
            let def_name = decode_ref_name(reference.as_str());
            match find_definition(defs, def_name.as_str()) {
                Some(def_schema) => {
                    if depth == 0 {
                        return None;
                    }
                    return wit_type_exec(def_name.as_str(), def_schema, defs, records, depth - 1);
                },
                None => {
                    return Some(Err(missing_definition(def_name.as_str())));
                },
            }
        },
        None => {},
    }
    match get_str(schema, "type") {
        Some(t) => {
            if str_eq(t.as_str(), "string") {
                Some(Ok(owned("string")))
            } else if str_eq(t.as_str(), "integer") {
                Some(Ok(owned("s64")))
            } else if str_eq(t.as_str(), "number") {
                Some(Ok(owned("f64")))
            } else if str_eq(t.as_str(), "boolean") {
                Some(Ok(owned("bool")))
            } else if str_eq(t.as_str(), "array") {
                match schema.get("items") {
                    Some(items) => {
                        proof {
                            lemma_get_smaller(schema@, "items"@);
                        }
                        let mut item_name = owned(logical);
                        push_str(&mut item_name, "-item");
                        match wit_type_exec(item_name.as_str(), items, defs, records, depth) {
                            Some(Ok(item_type)) => {
                                let mut out = owned("list<");
                                push_str(&mut out, item_type.as_str());
                                push_str(&mut out, ">");
                                Some(Ok(out))
                            },
                            other => other,
                        }
                    },
                    None => Some(Ok(owned("list<string>"))),
                }
            } else {
                let mut m = owned("unsupported schema type `");
                push_str(&mut m, t.as_str());
                push_str(&mut m, "` in ");
                push_str(&mut m, logical);
                Some(Err(Error::new(m)))
            }
        },
        None => Some(Ok(owned("string"))),
    }
}

fn record_type_exec(
    logical: &str,
    schema: &Json,
    defs: &Vec<(String, Json)>,
    records: &mut Records,
    depth: usize,
) -> (r: Option<Result<String, Error>>)
    ensures
        gen_matches(
            r,
            final(records)@,
            record_type(depth as nat, logical@, schema@, entries_view(defs@), old(records)@),
        ),
    decreases depth, json_size(schema@), 1nat, 0nat,
{
    let ghost dv = entries_view(defs@);
    let ghost st0 = records@;
    let record_name = ident(logical);
    if records.contains(record_name.as_str()) {
        return Some(Ok(record_name));
    }
    let props = match get_object(schema, "properties") {
        Some(p) => p,
        None => {
            let mut m = owned("expected object schema for ");
            push_str(&mut m, logical);
            return Some(Err(Error::new(m)));
        },
    };
    let mut fields: Vec<(String, String)> = Vec::new();
    let mut i: usize = 0;
    assert(properties_of(schema@) == entries_view(props@));
    while i < props.len()
        invariant
            i <= props@.len(),
            dv == entries_view(defs@),
            st0 == old(records)@,
            record_name@ == wit_ident(logical@),
            assoc_get(st0.emitted, record_name@) is None,
            schema@.get_object("properties"@) is Some,
            properties_of(schema@) == entries_view(props@),
            schema@.get("properties"@) == Some(JsonValue::Object(entries_view(props@))),
            record_fields(depth as nat, logical@, schema@, 0, dv, st0) == prepend(
                fields_view(fields@),
                record_fields(depth as nat, logical@, schema@, i as nat, dv, records@),
            ),
        decreases props@.len() - i,
    {
        let ghost st_i = records@;
        let pname = &props[i].0;
        let pschema = &props[i].1;
        let mut sub = owned(logical);
        push_str(&mut sub, "-");
        push_str(&mut sub, pname.as_str());
        proof {
            lemma_get_smaller(schema@, "properties"@);
            lemma_object_entry_smaller(schema@.get("properties"@).unwrap(), i as int);
            assert(entries_view(props@)[i as int].1 == pschema@);
        }
        assert(properties_of(schema@)[i as int] == (pname@, pschema@));
        assert(sub@ == logical@ + "-"@ + pname@);
        let t = match wit_type_exec(sub.as_str(), pschema, defs, records, depth) {
            Some(Ok(t)) => t,
            Some(Err(e)) => {
                assert(record_fields(depth as nat, logical@, schema@, i as nat, dv, st_i)
                    == Gen::<Seq<(Seq<char>, Seq<char>)>>::Failed(e@, records@));
                return Some(Err(e));
            },
            None => {
                assert(record_fields(depth as nat, logical@, schema@, i as nat, dv, st_i)
                    == Gen::<Seq<(Seq<char>, Seq<char>)>>::TooDeep);
                return None;
            },
        };
        let field_type = if required_contains(schema, pname.as_str()) {
            t
        } else {
            let mut o = owned("option<");
            push_str(&mut o, t.as_str());
            push_str(&mut o, ">");
            o
        };
        let field_name = ident(pname.as_str());
        let ghost before = fields@;
        fields.push((field_name, field_type));
        assert(fields_view(fields@) =~= fields_view(before).push(
            (wit_ident(pname@), field_type@),
        ));
        i = i + 1;
        proof {
            let g = record_fields(depth as nat, logical@, schema@, i as nat, dv, records@);
            assert(prepend(fields_view(before), prepend(seq![(wit_ident(pname@), field_type@)], g))
                =~= prepend(fields_view(fields@), g)) by {
                match g {
                    Gen::Done(rest, st) => {
                        assert(fields_view(before) + (seq![(wit_ident(pname@), field_type@)] + rest)
                            =~= fields_view(fields@) + rest);
                    },
                    _ => {},
                }
            }
        }
    }
    assert(fields_view(fields@) + Seq::<(Seq<char>, Seq<char>)>::empty() =~= fields_view(fields@));
    records.insert(record_name.clone(), fields);
    Some(Ok(record_name))
}


fn root_type_exec(schema: &Json, fallback: &str, records: &mut Records, depth: usize) -> (r: Option<
    Result<String, Error>,
>)
    ensures
        gen_matches(r, final(records)@, root_type(depth as nat, schema@, fallback@, old(records)@)),
{
    let empty: Vec<(String, Json)> = Vec::new();
    let defs: &Vec<(String, Json)> = match get_object(schema, "$defs") {
        Some(d) => d,
        None => &empty,
    };
    assert(entries_view(defs@) == defs_of(schema@)) by {
        if schema@.get_object("$defs"@) is None {
            assert(entries_view(defs@) =~= Seq::<(Seq<char>, JsonValue)>::empty());
        }
    }
    let inline = schema.get("properties").is_some() || schema.get("enum").is_some() || schema.get(
        "oneOf",
    ).is_some() || schema.get("type").is_some();
    match get_str(schema, "$ref") {
        Some(reference) => {
            if inline {
                wit_type_exec(fallback, schema, defs, records, depth)
            } else if defs.len() == 0 {
                Some(Err(Error::with_message("schema uses `$ref` but does not define `$defs`")))
            } else {
                let def_name = decode_ref_name(reference.as_str());
                match find_definition(defs, def_name.as_str()) {
                    Some(root) => wit_type_exec(def_name.as_str(), root, defs, records, depth),
                    None => Some(Err(missing_definition(def_name.as_str()))),
                }
            }
        },
        None => wit_type_exec(fallback, schema, defs, records, depth),
    }
}

fn push_fields(out: &mut String, fields: &Vec<(String, String)>)
    ensures
        final(out)@ == old(out)@ + fields_text(fields_view(fields@)),
{
    let ghost fv = fields_view(fields@);
    let mut j: usize = 0;
    assert(fv.take(0) =~= Seq::<(Seq<char>, Seq<char>)>::empty());
    while j < fields.len()
        invariant
            j <= fields@.len(),
            fv == fields_view(fields@),
            out@ == old(out)@ + fields_text(fv.take(j as int)),
        decreases fields@.len() - j,
    {
        assert(fv.take(j + 1).drop_last() =~= fv.take(j as int));
        let ghost before = out@;
        push_str(out, "        ");
        push_str(out, fields[j].0.as_str());
        push_str(out, ": ");
        push_str(out, fields[j].1.as_str());
        push_str(out, ",\n");
        assert(out@ =~= old(out)@ + fields_text(fv.take(j + 1)));
        j = j + 1;
    }
    assert(fv.take(fields@.len() as int) =~= fv);
}

fn push_records(out: &mut String, records: &Records)
    ensures
        final(out)@ == old(out)@ + records_text(records@.emitted, records@.order),
{
    let ghost model = records@;
    let mut i: usize = 0;
    assert(model.order.take(0) =~= Seq::<Seq<char>>::empty());
    while i < records.order.len()
        invariant
            i <= records.order@.len(),
            model == records@,
            model.order == strings_view(records.order@),
            out@ == old(out)@ + records_text(model.emitted, model.order.take(i as int)),
        decreases records.order@.len() - i,
    {
        assert(model.order.take(i + 1).drop_last() =~= model.order.take(i as int));
        let name = &records.order[i];
        assert(model.order.take(i + 1).last() == name@);
        let ghost before = out@;
        match records.position(name.as_str()) {
            Some(k) => {
                proof {
                    lemma_first_index_bounds(keys_of(model.emitted), name@);
                }
                let fields = &records.emitted[k].1;
                push_str(out, "    record ");
                push_str(out, name.as_str());
                push_str(out, " {\n");
                push_fields(out, fields);
                push_str(out, "    }\n");
                push_str(out, "\n");
                assert(assoc_get(model.emitted, name@) == Some(fields_view(fields@)));
                assert(out@ =~= before + record_block(name@, fields_view(fields@)));
            },
            None => {
                assert(out@ =~= before + Seq::<char>::empty());
            },
        }
        i = i + 1;
    }
    assert(model.order.take(records.order@.len() as int) =~= model.order);
}

fn push_header(out: &mut String, config: &WitConfig)
    ensures
        final(out)@ == old(out)@ + wit_header(*config),
{
    let interface_name = ident(config.interface.as_str());
    push_str(out, "package ");
    push_str(out, config.package.as_str());
    push_str(out, "@");
    push_str(out, config.version.as_str());
    push_str(out, ";\n\n");
    push_str(out, "/// Generated from JSON Schema. Do not edit manually.\n");
    push_str(out, "interface ");
    push_str(out, interface_name.as_str());
    push_str(out, " {\n");
    assert(out@ =~= old(out)@ + wit_header(*config));
}

fn push_footer(out: &mut String, config: &WitConfig)
    ensures
        final(out)@ == old(out)@ + wit_footer(*config),
{
    let interface_name = ident(config.interface.as_str());
    let world_name = ident(config.world.as_str());
    push_str(out, "}\n\nworld ");
    push_str(out, world_name.as_str());
    push_str(out, " {\n    export ");
    push_str(out, interface_name.as_str());
    push_str(out, ";\n}\n");
    assert(out@ =~= old(out)@ + wit_footer(*config));
}

fn function_line_exec(name: &str, input: &str, output: &str) -> (r: String)
    ensures
        r@ == function_line(name@, input@, output@),
{
    let mut line = owned("    ");
    push_str(&mut line, name);
    push_str(&mut line, ": func(input: ");
    push_str(&mut line, input);
    push_str(&mut line, ") -> ");
    push_str(&mut line, output);
    push_str(&mut line, ";");
    line
}

/// The WIT package for one function from `input_schema` to `output_schema`,
/// where following `$ref` definitions nests at most `depth` deep; `None` where
/// it would nest deeper.
pub fn generate_wit_within(
    input_schema: &Json,
    output_schema: &Json,
    config: &WitConfig,
    depth: usize,
) -> (r: Option<Result<String, Error>>)
    ensures
        outcome_matches(r, wit_for_schemas(depth as nat, input_schema@, output_schema@, *config)),
{
    let mut records = Records::new();
    let input_type = match root_type_exec(input_schema, "input", &mut records, depth) {
        Some(Ok(t)) => t,
        Some(Err(e)) => {
            return Some(Err(e));
        },
        None => {
            return None;
        },
    };
    let output_type = match root_type_exec(output_schema, "output", &mut records, depth) {
        Some(Ok(t)) => t,
        Some(Err(e)) => {
            return Some(Err(e));
        },
        None => {
            return None;
        },
    };
    let function_name = ident(config.function.as_str());
    let mut wit = String::new();
    push_header(&mut wit, config);
    push_records(&mut wit, &records);
    let line = function_line_exec(function_name.as_str(), input_type.as_str(), output_type.as_str());
    push_str(&mut wit, line.as_str());
    push_str(&mut wit, "\n");
    push_footer(&mut wit, config);
    assert(wit@ =~= wit_for_schemas(depth as nat, input_schema@, output_schema@, *config)->Wit_0);
    Some(Ok(wit))
}

/// The WIT package for one function from `input_schema` to `output_schema`:
/// an interface with a record for each object schema met on the way and the
/// function, and a world that exports the interface.
pub fn generate_wit(input_schema: &Json, output_schema: &Json, config: &WitConfig) -> (r: Result<
    String,
    Error,
>)
    requires
        !(wit_for_schemas(usize::MAX as nat, input_schema@, output_schema@, *config) is TooDeep),
    ensures
        match wit_for_schemas(usize::MAX as nat, input_schema@, output_schema@, *config) {
            Outcome::Wit(t) => r matches Ok(s) && s@ == t,
            Outcome::Failed(e) => r matches Err(err) && err@ == e,
            Outcome::TooDeep => false,
        },
{
    match generate_wit_within(input_schema, output_schema, config, usize::MAX) {
        Some(r) => r,
        None => {
            assert(false);
            Err(Error::with_message(""))
        },
    }
}


/// The WIT package for `tool_functions`, where following `$ref` definitions
/// nests at most `depth` deep; `None` where it would nest deeper.
pub fn generate_wit_for_tools_within(
    all_schemas: &Json,
    tool_functions: &[ToolFunction],
    config: &WitConfig,
    depth: usize,
) -> (r: Option<Result<String, Error>>)
    ensures
        outcome_matches(r, wit_for_tools(depth as nat, all_schemas@, tool_functions@, *config)),
{
    if tool_functions.len() == 0 {
        return Some(Err(Error::with_message("expected at least one tool function")));
    }
    let schemas = match get_object(all_schemas, "properties") {
        Some(p) => p,
        None => {
            return Some(
                Err(
                    Error::with_message(
                        "expected all-schemas JSON Schema document to contain an object `properties` field",
                    ),
                ),
            );
        },
    };
    let empty: Vec<(String, Json)> = Vec::new();
    let defs: &Vec<(String, Json)> = match get_object(all_schemas, "$defs") {
        Some(d) => d,
        None => &empty,
    };
    assert(entries_view(defs@) == defs_of(all_schemas@)) by {
        if all_schemas@.get_object("$defs"@) is None {
            assert(entries_view(defs@) =~= Seq::<(Seq<char>, JsonValue)>::empty());
        }
    }
    let ghost sv = entries_view(schemas@);
    let ghost dv = entries_view(defs@);
    let ghost tools = tool_functions@;
    let mut records = Records::new();
    let ghost st0 = records@;
    let mut lines: Vec<String> = Vec::new();
    let mut i: usize = 0;
    while i < tool_functions.len()
        invariant
            i <= tools.len(),
            tools == tool_functions@,
            tools.len() > 0,
            sv == entries_view(schemas@),
            all_schemas@.get_object("properties"@) == Some(sv),
            dv == entries_view(defs@),
            dv == defs_of(all_schemas@),
            st0 == empty_records(),
            tool_lines(depth as nat, sv, dv, tools, 0, st0) == prepend(
                strings_view(lines@),
                tool_lines(depth as nat, sv, dv, tools, i as nat, records@),
            ),
        decreases tools.len() - i,
    {
        let ghost st_i = records@;
        let tool = &tool_functions[i];
        let function_name = ident(tool.name.as_str());
        let input_schema = match find_definition(schemas, tool.input_schema_name.as_str()) {
            Some(v) => v,
            None => {
                assert(tool_lines(depth as nat, sv, dv, tools, i as nat, st_i) == Gen::<
                    Seq<Seq<char>>,
                >::Failed(missing_def_message(tool.input_schema_name@), st_i));
                return Some(Err(missing_definition(tool.input_schema_name.as_str())));
            },
        };
        let output_schema = match find_definition(schemas, tool.output_schema_name.as_str()) {
            Some(v) => v,
            None => {
                assert(tool_lines(depth as nat, sv, dv, tools, i as nat, st_i) == Gen::<
                    Seq<Seq<char>>,
                >::Failed(missing_def_message(tool.output_schema_name@), st_i));
                return Some(Err(missing_definition(tool.output_schema_name.as_str())));
            },
        };
        let input_type = match wit_type_exec(
            tool.input_schema_name.as_str(),
            input_schema,
            defs,
            &mut records,
            depth,
        ) {
            Some(Ok(t)) => t,
            Some(Err(e)) => {
                return Some(Err(e));
            },
            None => {
                return None;
            },
        };
        let output_type = match wit_type_exec(
            tool.output_schema_name.as_str(),
            output_schema,
            defs,
            &mut records,
            depth,
        ) {
            Some(Ok(t)) => t,
            Some(Err(e)) => {
                return Some(Err(e));
            },
            None => {
                return None;
            },
        };
        let line = function_line_exec(
            function_name.as_str(),
            input_type.as_str(),
            output_type.as_str(),
        );
        let ghost before = lines@;
        lines.push(line);
        assert(strings_view(lines@) =~= strings_view(before).push(line@));
        i = i + 1;
        proof {
            let g = tool_lines(depth as nat, sv, dv, tools, i as nat, records@);
            assert(prepend(strings_view(before), prepend(seq![line@], g)) =~= prepend(
                strings_view(lines@),
                g,
            )) by {
                match g {
                    Gen::Done(rest, st) => {
                        assert(strings_view(before) + (seq![line@] + rest) =~= strings_view(lines@)
                            + rest);
                    },
                    _ => {},
                }
            }
        }
    }
    assert(strings_view(lines@) + Seq::<Seq<char>>::empty() =~= strings_view(lines@));
    let mut wit = String::new();
    push_header(&mut wit, config);
    push_records(&mut wit, &records);
    push_joined(&mut wit, &lines);
    push_str(&mut wit, "\n");
    push_footer(&mut wit, config);
    assert(wit@ =~= wit_for_tools(depth as nat, all_schemas@, tool_functions@, *config)->Wit_0);
    Some(Ok(wit))
}

fn push_joined(out: &mut String, lines: &Vec<String>)
    ensures
        final(out)@ == old(out)@ + join_lines(strings_view(lines@)),
{
    let ghost lv = strings_view(lines@);
    let mut i: usize = 0;
    assert(lv.take(0) =~= Seq::<Seq<char>>::empty());
    while i < lines.len()
        invariant
            i <= lines@.len(),
            lv == strings_view(lines@),
            out@ == old(out)@ + join_lines(lv.take(i as int)),
        decreases lines@.len() - i,
    {
        assert(lv.take(i + 1).drop_last() =~= lv.take(i as int));
        if i > 0 {
            push_str(out, "\n");
        } else {
            assert(lv.take(1) =~= seq![lv[0]]);
        }
        push_str(out, lines[i].as_str());
        assert(out@ =~= old(out)@ + join_lines(lv.take(i + 1)));
        i = i + 1;
    }
    assert(lv.take(lines@.len() as int) =~= lv);
}

/// The WIT package with one function per entry of `tool_functions`, whose
/// input and output schemas are members of the `properties` of
/// `all_schemas`, with the definitions in its `$defs`.
pub fn generate_wit_for_tools(
    all_schemas: &Json,
    tool_functions: &[ToolFunction],
    config: &WitConfig,
) -> (r: Result<String, Error>)
    requires
        !(wit_for_tools(usize::MAX as nat, all_schemas@, tool_functions@, *config) is TooDeep),
    ensures
        match wit_for_tools(usize::MAX as nat, all_schemas@, tool_functions@, *config) {
            Outcome::Wit(t) => r matches Ok(s) && s@ == t,
            Outcome::Failed(e) => r matches Err(err) && err@ == e,
            Outcome::TooDeep => false,
        },
{
    match generate_wit_for_tools_within(all_schemas, tool_functions, config, usize::MAX) {
        Some(r) => r,
        None => {
            assert(false);
            Err(Error::with_message(""))
        },
    }
}

/// The WIT package for the schemas read from two files: the first failure to
/// read one of them, in order, or the package for the two schemas.
pub fn generate_wit_from_files(
    input_schema: Result<Json, Error>,
    output_schema: Result<Json, Error>,
    config: &WitConfig,
) -> (r: Result<String, Error>)
    requires
        match (input_schema, output_schema) {
            (Ok(i), Ok(o)) => !(wit_for_schemas(usize::MAX as nat, i@, o@, *config) is TooDeep),
            _ => true,
        },
    ensures
        match (input_schema, output_schema) {
            (Err(e), _) => r matches Err(e2) && e2@ == e@,
            (Ok(_), Err(e)) => r matches Err(e2) && e2@ == e@,
            (Ok(i), Ok(o)) => match wit_for_schemas(usize::MAX as nat, i@, o@, *config) {
                Outcome::Wit(t) => r matches Ok(s) && s@ == t,
                Outcome::Failed(e) => r matches Err(err) && err@ == e,
                Outcome::TooDeep => false,
            },
        },
{
    let input = match input_schema {
        Ok(v) => v,
        Err(e) => {
            return Err(e);
        },
    };
    let output = match output_schema {
        Ok(v) => v,
        Err(e) => {
            return Err(e);
        },
    };
    generate_wit(&input, &output, config)
}

/// The WIT package for the tools, with the schemas read from a file: the
/// failure to read it, or the package.
pub fn generate_wit_for_tools_from_file(
    all_schemas: Result<Json, Error>,
    tool_functions: &[ToolFunction],
    config: &WitConfig,
) -> (r: Result<String, Error>)
    requires
        match all_schemas {
            Ok(a) => !(wit_for_tools(usize::MAX as nat, a@, tool_functions@, *config) is TooDeep),
            Err(_) => true,
        },
    ensures
        match all_schemas {
            Err(e) => r matches Err(e2) && e2@ == e@,
            Ok(a) => match wit_for_tools(usize::MAX as nat, a@, tool_functions@, *config) {
                Outcome::Wit(t) => r matches Ok(s) && s@ == t,
                Outcome::Failed(e) => r matches Err(err) && err@ == e,
                Outcome::TooDeep => false,
            },
        },
{
    match all_schemas {
        Ok(a) => generate_wit_for_tools(&a, tool_functions, config),
        Err(e) => Err(e),
    }
}

} // verus!
