//! Between `serde_json::Value` and [`Json`].
use crate::gemma4::{
    Tool, ToolDefinition, choices_end_with_the_first, has_native_tag, law_tag_wf, name_of, structural_tag_for_parser, tools_of,
    turn_format,
};
use crate::format::structural_tag_tree;
use crate::json::{
    Json, JsonTree, entry_trees, keys_distinct, lemma_array_tree, lemma_object_tree, trees,
};
use crate::language::SchemaTexts;
use crate::reader::tag_admits;
use crate::turn_language::is_turn;
use serde_json::{Number, Value};
use vstd::prelude::*;

verus! {

/// A JSON value of `serde_json`: a container of further such values.
#[verifier::external_type_specification]
#[verifier::external_body]
pub struct ExValue(serde_json::Value);

/// What a `serde_json::Value` holds, an object as its entries in the order in which its map
/// gives them out.
pub uninterp spec fn value_tree(value: serde_json::Value) -> JsonTree;

/// What each of these values holds.
pub open spec fn value_trees(values: Seq<Value>) -> Seq<JsonTree> {
    Seq::new(values.len(), |i: int| value_tree(values[i]))
}

/// What an optional value holds.
pub open spec fn value_tree_of(value: Option<&Value>) -> Option<JsonTree> {
    match value {
        Some(v) => Some(value_tree(*v)),
        None => None,
    }
}

/// The top of a `serde_json::Value`, one variant for each of its own.
pub enum ValueTop<'a> {
    Null,
    Bool(bool),
    Number(&'a Number),
    Text(&'a String),
    Array(&'a Vec<Value>),
    Object(Vec<(&'a String, &'a Value)>),
}

/// Keys and trees of borrowed entries.
pub open spec fn borrowed_entry_trees(entries: Seq<(&String, &Value)>) -> Seq<
    (Seq<char>, JsonTree),
> {
    Seq::new(entries.len(), |i: int| (entries[i].0@, value_tree(*entries[i].1)))
}

/// Keys and trees of owned entries.
pub open spec fn owned_entry_trees(entries: Seq<(String, Value)>) -> Seq<(Seq<char>, JsonTree)> {
    Seq::new(entries.len(), |i: int| (entries[i].0@, value_tree(entries[i].1)))
}

/// Tells the variants of `serde_json::Value` apart and hands out what each holds. The entries
/// of an object come from `Map::iter`, in the map's order, and no key comes twice.
#[verifier::external_body]
fn top_of<'a>(value: &'a Value) -> (top: ValueTop<'a>)
    ensures
        match top {
            ValueTop::Null => value_tree(*value) == JsonTree::Null,
            ValueTop::Bool(b) => value_tree(*value) == JsonTree::Bool(b),
            ValueTop::Number(n) => value_tree(*value) == JsonTree::Number(*n),
            ValueTop::Text(s) => value_tree(*value) == JsonTree::Text(s@),
            ValueTop::Array(items) => value_tree(*value) == JsonTree::Array(value_trees(items@)),
            ValueTop::Object(entries) => {
                &&& value_tree(*value) == JsonTree::Object(borrowed_entry_trees(entries@))
                &&& keys_distinct(borrowed_entry_trees(entries@))
            },
        },
{
    match value {
        Value::Null => ValueTop::Null,
        Value::Bool(b) => ValueTop::Bool(*b),
        Value::Number(n) => ValueTop::Number(n),
        Value::String(s) => ValueTop::Text(s),
        Value::Array(items) => ValueTop::Array(items),
        Value::Object(map) => ValueTop::Object(map.iter().collect()),
    }
}

/// `Value::Null` holds nothing.
#[verifier::external_body]
fn null_value() -> (r: Value)
    ensures
        value_tree(r) == JsonTree::Null,
{
    Value::Null
}

/// `Value::Bool` holds the truth value.
#[verifier::external_body]
fn bool_value(b: bool) -> (r: Value)
    ensures
        value_tree(r) == JsonTree::Bool(b),
{
    Value::Bool(b)
}

/// `Value::Number` holds the number.
#[verifier::external_body]
fn number_value(n: Number) -> (r: Value)
    ensures
        value_tree(r) == JsonTree::Number(n),
{
    Value::Number(n)
}

/// `Value::String` holds the string.
#[verifier::external_body]
fn text_value(s: String) -> (r: Value)
    ensures
        value_tree(r) == JsonTree::Text(s@),
{
    Value::String(s)
}

/// `Value::Array` holds the values in their order.
#[verifier::external_body]
fn array_value(items: Vec<Value>) -> (r: Value)
    ensures
        value_tree(r) == JsonTree::Array(value_trees(items@)),
{
    Value::Array(items)
}

/// `Value::Object` of the map that `Map::from_iter` makes. With the `preserve_order` feature the
/// map gives out the entries in the order in which they went in, as long as no key is given
/// twice.
#[verifier::external_body]
fn object_value(entries: Vec<(String, Value)>) -> (r: Value)
    requires
        keys_distinct(owned_entry_trees(entries@)),
    ensures
        value_tree(r) == JsonTree::Object(owned_entry_trees(entries@)),
{
    Value::Object(entries.into_iter().collect())
}

impl Json {
    /// The same value as a [`Json`].
    pub fn from_value(value: &Value) -> (r: Json)
        ensures
            r@ == value_tree(*value),
            r@.wf(),
        decreases value_tree(*value),
    {
        broadcast use {lemma_array_tree, lemma_object_tree};

        match top_of(value) {
            ValueTop::Null => Json::Null,
            ValueTop::Bool(b) => Json::Bool(b),
            ValueTop::Number(n) => Json::Number(n.clone()),
            ValueTop::Text(s) => Json::Text(s.clone()),
            ValueTop::Array(items) => {
                let mut out: Vec<Json> = Vec::new();
                let mut i: usize = 0;
                while i < items.len()
                    invariant
                        value_tree(*value) == JsonTree::Array(value_trees(items@)),
                        i <= items@.len(),
                        out@.len() == i,
                        forall|k: int|
                            0 <= k < i ==> (#[trigger] out@[k])@ == value_tree(items@[k])
                                && out@[k]@.wf(),
                    decreases items.len() - i,
                {
                    assert(decreases_to!(value_tree(*value) => value_tree(*value)->Array_0));
                    assert(value_trees(items@)[i as int] == value_tree(items@[i as int]));
                    out.push(Json::from_value(&items[i]));
                    i += 1;
                }
                assert(trees(out@) =~= value_trees(items@));
                Json::Array(out)
            },
            ValueTop::Object(entries) => {
                let mut out: Vec<(String, Json)> = Vec::new();
                let mut i: usize = 0;
                while i < entries.len()
                    invariant
                        value_tree(*value) == JsonTree::Object(borrowed_entry_trees(entries@)),
                        i <= entries@.len(),
                        out@.len() == i,
                        forall|k: int|
                            0 <= k < i ==> (#[trigger] out@[k]).0@ == entries@[k].0@
                                && out@[k].1@ == value_tree(*entries@[k].1) && out@[k].1@.wf(),
                    decreases entries.len() - i,
                {
                    let ghost all = borrowed_entry_trees(entries@);
                    assert(decreases_to!(value_tree(*value) => value_tree(*value)->Object_0));
                    assert(decreases_to!(all => all[i as int]));
                    assert(all[i as int].1 == value_tree(*entries@[i as int].1));
                    out.push((entries[i].0.clone(), Json::from_value(entries[i].1)));
                    i += 1;
                }
                assert(entry_trees(out@) =~= borrowed_entry_trees(entries@));
                Json::Object(out)
            },
        }
    }

    /// The same value as a `serde_json::Value`.
    pub fn to_value(&self) -> (r: Value)
        requires
            self@.wf(),
        ensures
            value_tree(r) == self@,
        decreases self,
    {
        broadcast use {lemma_array_tree, lemma_object_tree};

        match self {
            Json::Null => null_value(),
            Json::Bool(b) => bool_value(*b),
            Json::Number(n) => number_value(n.clone()),
            Json::Text(s) => text_value(s.clone()),
            Json::Array(items) => {
                let mut out: Vec<Value> = Vec::new();
                let mut i: usize = 0;
                while i < items.len()
                    invariant
                        self == Json::Array(*items),
                        self@ == JsonTree::Array(trees(items@)),
                        self@.wf(),
                        i <= items@.len(),
                        out@.len() == i,
                        forall|k: int| 0 <= k < i ==> value_tree(#[trigger] out@[k]) == items@[k]@,
                    decreases items.len() - i,
                {
                    assert(decreases_to!(self => self->Array_0));
                    assert(self@->Array_0[i as int].wf());
                    out.push(items[i].to_value());
                    i += 1;
                }
                assert(value_trees(out@) =~= trees(items@));
                array_value(out)
            },
            Json::Object(entries) => {
                let mut out: Vec<(String, Value)> = Vec::new();
                let mut i: usize = 0;
                while i < entries.len()
                    invariant
                        self == Json::Object(*entries),
                        self@ == JsonTree::Object(entry_trees(entries@)),
                        self@.wf(),
                        i <= entries@.len(),
                        out@.len() == i,
                        forall|k: int|
                            0 <= k < i ==> (#[trigger] out@[k]).0@ == entries@[k].0@ && value_tree(
                                out@[k].1,
                            ) == entries@[k].1@,
                    decreases entries.len() - i,
                {
                    assert(decreases_to!(self => self->Object_0));
                    assert(decreases_to!(entries => entries[i as int]));
                    assert(entry_trees(entries@)[i as int].1.wf());
                    out.push((entries[i].0.clone(), entries[i].1.to_value()));
                    i += 1;
                }
                assert(owned_entry_trees(out@) =~= entry_trees(entries@));
                object_value(out)
            },
        }
    }
}

/// A tool whose parameters are a `serde_json::Value`.
#[derive(Debug)]
pub struct ValueTool {
    pub name: String,
    pub parameters: Option<Value>,
}

impl View for ValueTool {
    type V = Tool;

    open spec fn view(&self) -> Tool {
        Tool {
            name: self.name@,
            parameters: match self.parameters {
                Some(p) => Some(value_tree(p)),
                None => None,
            },
        }
    }
}

/// What each of these tools holds.
pub open spec fn value_tools(tools: Seq<ValueTool>) -> Seq<Tool> {
    Seq::new(tools.len(), |i: int| tools[i]@)
}

/// An optional value as a [`Json`].
fn optional_json(value: Option<&Value>) -> (r: Option<Json>)
    ensures
        match (value, r) {
            (Some(v), Some(j)) => j@ == value_tree(*v) && j@.wf(),
            (None, None) => true,
            _ => false,
        },
{
    match value {
        Some(v) => Some(Json::from_value(v)),
        None => None,
    }
}

/// Build the tag for `parser` from and to `serde_json` values, or `None` when it has no native
/// format or there are no tools.
pub fn structural_tag_value_for_parser(
    parser: Option<&str>,
    tools: &[ValueTool],
    content_schema: Option<&Value>,
    tools_mandatory: bool,
    allow_reasoning: bool,
    allow_tool_only_turn: bool,
    allow_parallel_calls: bool,
    prompt_opened_thought: bool,
) -> (r: Option<Value>)
    ensures
        match r {
            Some(value) => {
                &&& has_native_tag(name_of(parser))
                &&& tools@.len() > 0
                &&& value_tree(value) == structural_tag_tree(
                    turn_format(
                        value_tools(tools@),
                        value_tree_of(content_schema),
                        tools_mandatory,
                        allow_reasoning,
                        allow_tool_only_turn,
                        allow_parallel_calls,
                        prompt_opened_thought,
                    ).render(),
                )
                &&& forall|fits: SchemaTexts, s: Seq<char>| #[trigger]
                    tag_admits(value_tree(value), fits, s) <==> exists|n: int|
                    is_turn(
                        value_tools(tools@),
                        value_tree_of(content_schema),
                        tools_mandatory,
                        allow_reasoning,
                        allow_tool_only_turn,
                        allow_parallel_calls,
                        prompt_opened_thought,
                        fits,
                        s,
                        n,
                    )
                &&& choices_end_with_the_first(value_tree(value))
            },
            None => !has_native_tag(name_of(parser)) || tools@.len() == 0,
        },
        r is Some <==> tools@.len() > 0 && has_native_tag(name_of(parser)),
{
    let mut offered: Vec<ToolDefinition> = Vec::new();
    let mut i: usize = 0;
    while i < tools.len()
        invariant
            i <= tools@.len(),
            offered@.len() == i,
            forall|k: int| 0 <= k < i ==> (#[trigger] offered@[k])@ == tools@[k]@,
        decreases tools.len() - i,
    {
        let parameters = optional_json(tools[i].parameters.as_ref());
        offered.push(ToolDefinition { name: tools[i].name.clone(), parameters });
        i += 1;
    }
    assert(tools_of(offered@) =~= value_tools(tools@));
    let schema = optional_json(content_schema);
    let tag = structural_tag_for_parser(
        parser,
        offered.as_slice(),
        schema.as_ref(),
        tools_mandatory,
        allow_reasoning,
        allow_tool_only_turn,
        allow_parallel_calls,
        prompt_opened_thought,
    );
    match tag {
        Some(json) => {
            proof {
                law_tag_wf(
                    value_tools(tools@),
                    value_tree_of(content_schema),
                    tools_mandatory,
                    allow_reasoning,
                    allow_tool_only_turn,
                    allow_parallel_calls,
                    prompt_opened_thought,
                );
            }
            Some(json.to_value())
        },
        None => None,
    }
}

/// Values and tools are taken item by item, in their order, with what each holds.
pub proof fn law_values_are_taken_as_given(values: Seq<Value>, tools: Seq<ValueTool>, i: int)
    ensures
        value_trees(values).len() == values.len(),
        0 <= i < values.len() ==> value_trees(values)[i] == value_tree(values[i]),
        value_tools(tools).len() == tools.len(),
        0 <= i < tools.len() ==> value_tools(tools)[i].name == tools[i].name@,
        0 <= i < tools.len() ==> (value_tools(tools)[i].parameters is Some
            <==> tools[i].parameters is Some),
        0 <= i < tools.len() && tools[i].parameters is Some ==> value_tools(tools)[i].parameters->0
            == value_tree(tools[i].parameters->0),
        value_tree_of(None) is None,
        0 <= i < values.len() ==> value_tree_of(Some(&values[i])) == Some(value_tree(values[i])),
{
}

} // verus!
