//! Structural tags for Gemma 4's native tool calls.
//!
//! A backend takes one constraint for a turn, so a `response_format` schema and `tools` have to
//! be one grammar, which accepts every legitimate shape:
//!
//! ```text
//! [ reasoning_prefix ] ( content_schema [ tool_calls ] | tool_calls )
//! ```
use crate::args::{
    choice, gemma4_tool_args_content, holds_of_arguments, lemma_tool_args_every, one_of,
    tool_args_format,
};
use crate::format::{
    Format, any_text, either, json_schema, law_render_wf, law_structural_tag_wf,
    lemma_keys_differ, lemma_render_each, lemma_render_rules, lemma_spelt, optional, schema_is_wf, sequence,
    stops_after_first, structural_tag, structural_tag_tree, tag, tags_with_separator,
};
use crate::json::{Json, JsonTree, tree_of};
use crate::language::SchemaTexts;
use crate::markers::{
    GEMMA4_REASONING_END, GEMMA4_THOUGHT_BEGIN, GEMMA4_TOOL_CALL_BEGIN, GEMMA4_TOOL_CALL_END,
};
use crate::reader::{admits, law_json_admits_what_the_format_admits, tag_admits};
use crate::turn_language::{
    is_call, is_row_of_calls, is_turn, law_single_tool_call_language, law_tool_calls_language,
    law_tool_tag_language, law_turn_language,
};
use vstd::prelude::*;

verus! {

/// A tool that the model may call: its name, and the JSON schema of its parameters.
#[derive(Debug)]
pub struct ToolDefinition {
    pub name: String,
    pub parameters: Option<Json>,
}

/// What a [`ToolDefinition`] holds.
#[verifier::ext_equal]
pub struct Tool {
    pub name: Seq<char>,
    pub parameters: Option<JsonTree>,
}

impl View for ToolDefinition {
    type V = Tool;

    open spec fn view(&self) -> Tool {
        Tool {
            name: self.name@,
            parameters: match self.parameters {
                Some(p) => Some(p@),
                None => None,
            },
        }
    }
}

/// What each of these definitions holds.
pub open spec fn tools_of(tools: Seq<ToolDefinition>) -> Seq<Tool> {
    Seq::new(tools.len(), |i: int| tools[i]@)
}

/// A call of the tool: the markers and the name are fixed, the body is as its schema allows.
pub open spec fn tool_tag_format(tool: Tool) -> Format {
    Format::Tag {
        begin: GEMMA4_TOOL_CALL_BEGIN@ + tool.name,
        content: Box::new(tool_args_format(tool.parameters)),
        end: GEMMA4_TOOL_CALL_END@,
    }
}

/// A call of each tool.
pub open spec fn tool_tags(tools: Seq<Tool>) -> Seq<Format> {
    Seq::new(tools.len(), |i: int| tool_tag_format(tools[i]))
}

/// A slot for each tool in turn. The slot at `must` has to be filled, the others may be.
pub open spec fn tool_slots(tools: Seq<Tool>, must: int) -> Seq<Format> {
    Seq::new(
        tools.len(),
        |i: int|
            if i == must {
                tool_tag_format(tools[i])
            } else {
                Format::Optional(Box::new(tool_tag_format(tools[i])))
            },
    )
}

/// For each tool, the slots of all in which that tool's has to be filled.
pub open spec fn slot_branches(tools: Seq<Tool>) -> Seq<Format> {
    Seq::new(tools.len(), |i: int| Format::Sequence(tool_slots(tools, i)))
}

/// Calls of distinct tools, each at most once, in the order of `tools`.
pub open spec fn tool_calls_format(tools: Seq<Tool>, at_least_one: bool) -> Format {
    if at_least_one {
        one_of(slot_branches(tools))
    } else {
        Format::Sequence(tool_slots(tools, -1))
    }
}

/// Exactly one call, of any of `tools`.
pub open spec fn single_tool_call_format(tools: Seq<Tool>) -> Format {
    Format::TagsWithSeparator {
        tags: tool_tags(tools),
        separator: ""@,
        at_least_one: true,
        stop_after_first: true,
    }
}

/// The calls of a turn: of several tools only where `parallel`, and none only where it need not
/// be `at_least_one`.
pub open spec fn turn_calls_format(tools: Seq<Tool>, parallel: bool, at_least_one: bool) -> Format {
    if parallel {
        tool_calls_format(tools, at_least_one)
    } else if at_least_one {
        single_tool_call_format(tools)
    } else {
        Format::Optional(Box::new(single_tool_call_format(tools)))
    }
}

/// A message that fits the schema, and then the calls, if any.
pub open spec fn message_format(tools: Seq<Tool>, schema: JsonTree, parallel: bool) -> Format {
    Format::Sequence(seq![Format::JsonSchema(schema), turn_calls_format(tools, parallel, false)])
}

/// What a turn consists of behind its reasoning.
pub open spec fn body_format(
    tools: Seq<Tool>,
    content_schema: Option<JsonTree>,
    tools_mandatory: bool,
    allow_tool_only_turn: bool,
    allow_parallel_calls: bool,
) -> Format {
    if tools_mandatory {
        single_tool_call_format(tools)
    } else {
        match content_schema {
            Some(schema) => if allow_tool_only_turn {
                Format::Or(
                    seq![
                        message_format(tools, schema, allow_parallel_calls),
                        turn_calls_format(tools, allow_parallel_calls, true),
                    ],
                )
            } else {
                message_format(tools, schema, allow_parallel_calls)
            },
            None => turn_calls_format(tools, allow_parallel_calls, true),
        }
    }
}

/// What opens the thought channel in the completion: nothing where the prompt left it open.
pub open spec fn thought_begin(prompt_opened_thought: bool) -> Seq<char> {
    if prompt_opened_thought {
        ""@
    } else {
        GEMMA4_THOUGHT_BEGIN@
    }
}

/// A thinking block, or nothing.
pub open spec fn reasoning_prefix_format(prompt_opened_thought: bool) -> Format {
    Format::Optional(
        Box::new(
            Format::Tag {
                begin: thought_begin(prompt_opened_thought),
                content: Box::new(Format::AnyText),
                end: GEMMA4_REASONING_END@,
            },
        ),
    )
}

/// What a turn consists of.
pub open spec fn turn_format(
    tools: Seq<Tool>,
    content_schema: Option<JsonTree>,
    tools_mandatory: bool,
    allow_reasoning: bool,
    allow_tool_only_turn: bool,
    allow_parallel_calls: bool,
    prompt_opened_thought: bool,
) -> Format {
    let body = body_format(
        tools,
        content_schema,
        tools_mandatory,
        allow_tool_only_turn,
        allow_parallel_calls,
    );
    if allow_reasoning {
        Format::Sequence(seq![reasoning_prefix_format(prompt_opened_thought), body])
    } else {
        body
    }
}

/// The call of one tool.
pub fn gemma4_tool_tag(tool: &ToolDefinition) -> (r: Json)
    ensures
        r@ == tool_tag_format(tool@).render(),
        forall|fits: SchemaTexts, s: Seq<char>| #[trigger]
            admits(r@, fits, s) <==> is_call(tool@, fits, s),
{
    proof {
        let format = tool_tag_format(tool@);
        assert forall|fits: SchemaTexts, s: Seq<char>| #[trigger]
            admits(format.render(), fits, s) <==> is_call(tool@, fits, s) by {
            law_json_admits_what_the_format_admits(format, fits, s);
            law_tool_tag_language(tool@, fits, s);
        }
    }
    let begin = GEMMA4_TOOL_CALL_BEGIN.to_owned().concat(tool.name.as_str());
    let content = gemma4_tool_args_content(tool.parameters.as_ref());
    tag(begin.as_str(), content, GEMMA4_TOOL_CALL_END)
}

/// The slots of all tools, of which the one at `must`, if there is one, has to be filled.
fn slots_json(tools: &[ToolDefinition], must: Option<usize>) -> (r: Json)
    ensures
        r@ == Format::Sequence(
            tool_slots(
                tools_of(tools@),
                match must {
                    Some(m) => m as int,
                    None => -1,
                },
            ),
        ).render(),
{
    let ghost at: int = match must {
        Some(m) => m as int,
        None => -1,
    };
    let ghost spelt = tool_slots(tools_of(tools@), at);
    let mut elements: Vec<Json> = Vec::new();
    let mut i: usize = 0;
    while i < tools.len()
        invariant
            at == (match must {
                Some(m) => m as int,
                None => -1,
            }),
            spelt == tool_slots(tools_of(tools@), at),
            i <= tools@.len(),
            elements@.len() == i,
            forall|k: int| 0 <= k < i ==> (#[trigger] elements@[k])@ == spelt[k].render(),
        decreases tools.len() - i,
    {
        let call = gemma4_tool_tag(&tools[i]);
        let filled = match must {
            Some(m) => m == i,
            None => false,
        };
        if filled {
            elements.push(call);
        } else {
            elements.push(optional(call));
        }
        i += 1;
    }
    proof {
        lemma_spelt(elements@, spelt);
    }
    sequence(elements)
}

/// Tool-call branch: one optional slot per tool, so that a call of every tool fits in at most once.
///
/// A sequence of optionals is the right language: each slot is filled once or not at all, and any
/// subset of distinct tools is legal. Without `at_least_one` it also matches the empty string, which is
/// right behind a message. As a branch of its own that would make empty output legal, so it is
/// then one alternative per tool, with that tool's slot mandatory.
///
/// The slots are ordered, so calls arrive in the order in which the tools were declared.
pub fn gemma4_tool_calls(tools: &[ToolDefinition], at_least_one: bool) -> (r: Json)
    ensures
        r@ == tool_calls_format(tools_of(tools@), at_least_one).render(),
        forall|fits: SchemaTexts, s: Seq<char>| #[trigger]
            admits(r@, fits, s) <==> is_row_of_calls(tools_of(tools@), at_least_one, fits, s),
{
    proof {
        let format = tool_calls_format(tools_of(tools@), at_least_one);
        assert forall|fits: SchemaTexts, s: Seq<char>| #[trigger]
            admits(format.render(), fits, s) <==> is_row_of_calls(tools_of(tools@), at_least_one, fits, s) by {
            law_json_admits_what_the_format_admits(format, fits, s);
            law_tool_calls_language(tools_of(tools@), at_least_one, fits, s);
        }
    }
    if !at_least_one {
        return slots_json(tools, None);
    }
    let ghost spelt = slot_branches(tools_of(tools@));
    let mut branches: Vec<Json> = Vec::new();
    let mut i: usize = 0;
    while i < tools.len()
        invariant
            spelt == slot_branches(tools_of(tools@)),
            i <= tools@.len(),
            branches@.len() == i,
            forall|k: int| 0 <= k < i ==> (#[trigger] branches@[k])@ == spelt[k].render(),
        decreases tools.len() - i,
    {
        branches.push(slots_json(tools, Some(i)));
        i += 1;
    }
    choice(branches, Ghost(spelt))
}

/// Exactly one tool call, chosen from the offered tools. With `stop_after_first` the choice ends
/// with the first call, so that neither a repetition nor an extra tool has a place behind it.
pub fn gemma4_single_tool_call(tools: &[ToolDefinition]) -> (r: Json)
    ensures
        r@ == single_tool_call_format(tools_of(tools@)).render(),
        forall|fits: SchemaTexts, s: Seq<char>| #[trigger]
            admits(r@, fits, s) <==> exists|i: int|
                0 <= i < tools@.len() && is_call(#[trigger] tools_of(tools@)[i], fits, s),
{
    proof {
        let format = single_tool_call_format(tools_of(tools@));
        assert forall|fits: SchemaTexts, s: Seq<char>| #[trigger]
            admits(format.render(), fits, s) <==> exists|i: int|
                0 <= i < tools@.len() && is_call(#[trigger] tools_of(tools@)[i], fits, s) by {
            law_json_admits_what_the_format_admits(format, fits, s);
            law_single_tool_call_language(tools_of(tools@), fits, s);
        }
    }
    let ghost spelt = tool_tags(tools_of(tools@));
    let mut tags: Vec<Json> = Vec::new();
    let mut i: usize = 0;
    while i < tools.len()
        invariant
            spelt == tool_tags(tools_of(tools@)),
            i <= tools@.len(),
            tags@.len() == i,
            forall|k: int| 0 <= k < i ==> (#[trigger] tags@[k])@ == spelt[k].render(),
        decreases tools.len() - i,
    {
        tags.push(gemma4_tool_tag(&tools[i]));
        i += 1;
    }
    proof {
        lemma_spelt(tags@, spelt);
    }
    tags_with_separator(tags, "", true, true)
}

/// At most one call per turn, unless the caller asked for parallel calls.
///
/// Both halves of the single form matter. Without `stop_after_first` the model fills every slot
/// that there is. Without the `optional` around it the call is mandatory, and a turn that only
/// speaks could not end.
fn turn_calls(tools: &[ToolDefinition], parallel: bool, at_least_one: bool) -> (r: Json)
    ensures
        r@ == turn_calls_format(tools_of(tools@), parallel, at_least_one).render(),
{
    if parallel {
        gemma4_tool_calls(tools, at_least_one)
    } else if at_least_one {
        gemma4_single_tool_call(tools)
    } else {
        optional(gemma4_single_tool_call(tools))
    }
}

/// What a turn consists of behind its reasoning.
///
/// A forced choice offers no content branch. The schema object is a legal prefix of "content,
/// then tool call", so the model could write it and end the turn with a special token, which no
/// grammar masks, and leave the demanded call unmade. It is one call whatever
/// `allow_parallel_calls` says, which is about batches of independent calls.
///
/// A turn of calls alone carries no message, and for a caller with a schema the message is what
/// gets spoken. Where that shape is offered it is what the model takes, so it is offered only
/// on request.
fn turn_body(
    tools: &[ToolDefinition],
    content_schema: Option<&Json>,
    tools_mandatory: bool,
    allow_tool_only_turn: bool,
    allow_parallel_calls: bool,
) -> (r: Json)
    ensures
        r@ == body_format(
            tools_of(tools@),
            tree_of(content_schema),
            tools_mandatory,
            allow_tool_only_turn,
            allow_parallel_calls,
        ).render(),
{
    let ghost offered = tools_of(tools@);
    if tools_mandatory {
        return gemma4_single_tool_call(tools);
    }
    match content_schema {
        Some(schema) => {
            let elements = vec![
                json_schema(schema.clone()),
                turn_calls(tools, allow_parallel_calls, false),
            ];
            let ghost message = message_format(offered, schema@, allow_parallel_calls);
            proof {
                lemma_spelt(elements@, message->Sequence_0);
            }
            let with_message = sequence(elements);
            if allow_tool_only_turn {
                let branches = vec![with_message, turn_calls(tools, allow_parallel_calls, true)];
                proof {
                    lemma_spelt(
                        branches@,
                        seq![message, turn_calls_format(offered, allow_parallel_calls, true)],
                    );
                }
                either(branches)
            } else {
                with_message
            }
        },
        None => turn_calls(tools, allow_parallel_calls, true),
    }
}

/// Build the Gemma 4 tool-call structural tag.
///
/// * `tools`: the tools the model may call, name and JSON-schema parameters. Where there are
///   none, there is no tag.
/// * `content_schema`: the caller's `response_format` JSON schema, if any. It becomes a branch
///   of the union, so that the schema guarantee survives.
/// * `tools_mandatory`: for a required or a named choice. The turn is then one call, without
///   a message.
/// * `allow_reasoning`: permit a thinking block at the start.
/// * `allow_tool_only_turn`: permit a turn of calls without a message, where there is a schema.
/// * `allow_parallel_calls`: permit calls of more than one distinct tool in the turn. Each tool
///   has one slot.
/// * `prompt_opened_thought`: the chat template left the prompt inside an open thought channel,
///   so that the completion emits only the closer. An opener that accepts arbitrary text is a
///   hole through the grammar, so this has to be known and is never assumed.
pub fn gemma4_structural_tag(
    tools: &[ToolDefinition],
    content_schema: Option<&Json>,
    tools_mandatory: bool,
    allow_reasoning: bool,
    allow_tool_only_turn: bool,
    allow_parallel_calls: bool,
    prompt_opened_thought: bool,
) -> (r: Option<Json>)
    ensures
        match r {
            Some(json) => {
                &&& tools@.len() > 0
                &&& json@ == structural_tag_tree(
                    turn_format(
                        tools_of(tools@),
                        tree_of(content_schema),
                        tools_mandatory,
                        allow_reasoning,
                        allow_tool_only_turn,
                        allow_parallel_calls,
                        prompt_opened_thought,
                    ).render(),
                )
                &&& forall|fits: SchemaTexts, s: Seq<char>| #[trigger]
                    tag_admits(json@, fits, s) <==> exists|n: int|
                    is_turn(
                        tools_of(tools@),
                        tree_of(content_schema),
                        tools_mandatory,
                        allow_reasoning,
                        allow_tool_only_turn,
                        allow_parallel_calls,
                        prompt_opened_thought,
                        fits,
                        s,
                        n,
                    )
                &&& choices_end_with_the_first(json@)
            },
            None => tools@.len() == 0,
        },
        r is Some <==> tools@.len() > 0,
{
    proof {
        let format = turn_format(
            tools_of(tools@),
            tree_of(content_schema),
            tools_mandatory,
            allow_reasoning,
            allow_tool_only_turn,
            allow_parallel_calls,
            prompt_opened_thought,
        );
        law_no_repeatable_branch_in_the_json(
            tools_of(tools@),
            tree_of(content_schema),
            tools_mandatory,
            allow_reasoning,
            allow_tool_only_turn,
            allow_parallel_calls,
            prompt_opened_thought,
        );
        assert forall|fits: SchemaTexts, s: Seq<char>| #[trigger]
            tag_admits(structural_tag_tree(format.render()), fits, s) <==> exists|n: int|
                is_turn(
                    tools_of(tools@),
                    tree_of(content_schema),
                    tools_mandatory,
                    allow_reasoning,
                    allow_tool_only_turn,
                    allow_parallel_calls,
                    prompt_opened_thought,
                    fits,
                    s,
                    n,
                ) by {
            law_json_admits_what_the_format_admits(format, fits, s);
            law_turn_language(
                tools_of(tools@),
                tree_of(content_schema),
                tools_mandatory,
                allow_reasoning,
                allow_tool_only_turn,
                allow_parallel_calls,
                prompt_opened_thought,
                fits,
                s,
            );
        }
    }
    if tools.len() == 0 {
        return None;
    }
    let body = turn_body(
        tools,
        content_schema,
        tools_mandatory,
        allow_tool_only_turn,
        allow_parallel_calls,
    );
    if !allow_reasoning {
        return Some(structural_tag(body));
    }
    let opener = if prompt_opened_thought {
        ""
    } else {
        GEMMA4_THOUGHT_BEGIN
    };
    let reasoning_prefix = optional(tag(opener, any_text(), GEMMA4_REASONING_END));
    let elements = vec![reasoning_prefix, body];
    proof {
        reveal_with_fuel(Format::render, 3);
        lemma_spelt(
            elements@,
            seq![
                reasoning_prefix_format(prompt_opened_thought),
                body_format(
                    tools_of(tools@),
                    tree_of(content_schema),
                    tools_mandatory,
                    allow_tool_only_turn,
                    allow_parallel_calls,
                ),
            ],
        );
    }
    Some(structural_tag(sequence(elements)))
}

/// Whether a parser of that name has a native structural tag.
pub open spec fn has_native_tag(parser: Option<Seq<char>>) -> bool {
    parser == Some("gemma4"@) || parser == Some("gemma-4"@)
}

/// The characters of an optional name.
pub open spec fn name_of(parser: Option<&str>) -> Option<Seq<char>> {
    match parser {
        Some(name) => Some(name@),
        None => None,
    }
}

/// Whether this tool-call parser has a native structural tag.
pub fn parser_has_structural_tag(parser: Option<&str>) -> (r: bool)
    ensures
        r == has_native_tag(name_of(parser)),
{
    match parser {
        Some(name) => {
            let name = name.to_owned();
            name == "gemma4".to_owned() || name == "gemma-4".to_owned()
        },
        None => false,
    }
}

/// Build the tag for `parser`, or `None` when it has no native format.
pub fn structural_tag_for_parser(
    parser: Option<&str>,
    tools: &[ToolDefinition],
    content_schema: Option<&Json>,
    tools_mandatory: bool,
    allow_reasoning: bool,
    allow_tool_only_turn: bool,
    allow_parallel_calls: bool,
    prompt_opened_thought: bool,
) -> (r: Option<Json>)
    ensures
        match r {
            Some(json) => {
                &&& has_native_tag(name_of(parser))
                &&& tools@.len() > 0
                &&& json@ == structural_tag_tree(
                    turn_format(
                        tools_of(tools@),
                        tree_of(content_schema),
                        tools_mandatory,
                        allow_reasoning,
                        allow_tool_only_turn,
                        allow_parallel_calls,
                        prompt_opened_thought,
                    ).render(),
                )
                &&& forall|fits: SchemaTexts, s: Seq<char>| #[trigger]
                    tag_admits(json@, fits, s) <==> exists|n: int|
                    is_turn(
                        tools_of(tools@),
                        tree_of(content_schema),
                        tools_mandatory,
                        allow_reasoning,
                        allow_tool_only_turn,
                        allow_parallel_calls,
                        prompt_opened_thought,
                        fits,
                        s,
                        n,
                    )
                &&& choices_end_with_the_first(json@)
            },
            None => !has_native_tag(name_of(parser)) || tools@.len() == 0,
        },
        r is Some <==> tools@.len() > 0 && has_native_tag(name_of(parser)),
{
    if !parser_has_structural_tag(parser) {
        return None;
    }
    gemma4_structural_tag(
        tools,
        content_schema,
        tools_mandatory,
        allow_reasoning,
        allow_tool_only_turn,
        allow_parallel_calls,
        prompt_opened_thought,
    )
}

/// Calls are made of what their arguments are made of, and of optional tags.
proof fn lemma_tool_tag_every(tool: Tool, p: spec_fn(Format) -> bool)
    requires
        holds_of_arguments(p),
    ensures
        tool_tag_format(tool).every(p),
        Format::Optional(Box::new(tool_tag_format(tool))).every(p),
{
    lemma_tool_args_every(tool.parameters, p);
    assert(p(tool_tag_format(tool)));
    assert(tool_tag_format(tool).every(p));
    assert(p(Format::Optional(Box::new(tool_tag_format(tool)))));
}

proof fn lemma_tool_slots_every(tools: Seq<Tool>, must: int, p: spec_fn(Format) -> bool)
    requires
        holds_of_arguments(p),
    ensures
        Format::Sequence(tool_slots(tools, must)).every(p),
{
    let slots = tool_slots(tools, must);
    assert forall|i: int| 0 <= i < slots.len() implies (#[trigger] slots[i]).every(p) by {
        lemma_tool_tag_every(tools[i], p);
    }
    assert(p(Format::Sequence(slots)));
}

proof fn lemma_turn_calls_every(
    tools: Seq<Tool>,
    parallel: bool,
    at_least_one: bool,
    p: spec_fn(Format) -> bool,
)
    requires
        holds_of_arguments(p),
        p(single_tool_call_format(tools)),
    ensures
        turn_calls_format(tools, parallel, at_least_one).every(p),
        single_tool_call_format(tools).every(p),
{
    let single = single_tool_call_format(tools);
    let tags = tool_tags(tools);
    assert forall|i: int| 0 <= i < tags.len() implies (#[trigger] tags[i]).every(p) by {
        lemma_tool_tag_every(tools[i], p);
    }
    assert(single.every(p));
    assert(p(Format::Optional(Box::new(single))));
    lemma_tool_slots_every(tools, -1, p);
    let branches = slot_branches(tools);
    assert forall|i: int| 0 <= i < branches.len() implies (#[trigger] branches[i]).every(p) by {
        lemma_tool_slots_every(tools, i, p);
    }
    assert(p(Format::Or(branches)));
}

/// What holds of the schema, of a single call and of all that arguments are made of holds of
/// every format in the turn.
proof fn lemma_turn_every(
    tools: Seq<Tool>,
    content_schema: Option<JsonTree>,
    tools_mandatory: bool,
    allow_reasoning: bool,
    allow_tool_only_turn: bool,
    allow_parallel_calls: bool,
    prompt_opened_thought: bool,
    p: spec_fn(Format) -> bool,
)
    requires
        holds_of_arguments(p),
        p(single_tool_call_format(tools)),
        content_schema matches Some(schema) ==> p(Format::JsonSchema(schema)),
    ensures
        turn_format(
            tools,
            content_schema,
            tools_mandatory,
            allow_reasoning,
            allow_tool_only_turn,
            allow_parallel_calls,
            prompt_opened_thought,
        ).every(p),
{
    let body = body_format(
        tools,
        content_schema,
        tools_mandatory,
        allow_tool_only_turn,
        allow_parallel_calls,
    );
    lemma_turn_calls_every(tools, allow_parallel_calls, true, p);
    lemma_turn_calls_every(tools, allow_parallel_calls, false, p);
    if let Some(schema) = content_schema {
        let message = message_format(tools, schema, allow_parallel_calls);
        assert(p(message));
        assert(Format::JsonSchema(schema).every(p));
        assert(message.every(p));
        let calls = turn_calls_format(tools, allow_parallel_calls, true);
        assert(p(Format::Or(seq![message, calls])));
        assert(Format::Or(seq![message, calls]).every(p));
    }
    assert(body.every(p));
    let prefix = reasoning_prefix_format(prompt_opened_thought);
    assert(prefix.every(p)) by {
        reveal_with_fuel(Format::every, 3);
        assert(p(Format::AnyText));
        assert(p(*prefix->Optional_0));
        assert(p(prefix));
    }
    assert(p(Format::Sequence(seq![prefix, body])));
}

/// Whatever the schema and the flags, every choice of calls in the tag ends with the first call.
pub proof fn law_no_repeatable_branch(
    tools: Seq<Tool>,
    content_schema: Option<JsonTree>,
    tools_mandatory: bool,
    allow_reasoning: bool,
    allow_tool_only_turn: bool,
    allow_parallel_calls: bool,
    prompt_opened_thought: bool,
)
    ensures
        turn_format(
            tools,
            content_schema,
            tools_mandatory,
            allow_reasoning,
            allow_tool_only_turn,
            allow_parallel_calls,
            prompt_opened_thought,
        ).no_repeatable_branch(),
{
    lemma_turn_every(
        tools,
        content_schema,
        tools_mandatory,
        allow_reasoning,
        allow_tool_only_turn,
        allow_parallel_calls,
        prompt_opened_thought,
        stops_after_first(),
    );
}

/// The tag is a well-formed value wherever the schema in it is.
pub proof fn law_tag_wf(
    tools: Seq<Tool>,
    content_schema: Option<JsonTree>,
    tools_mandatory: bool,
    allow_reasoning: bool,
    allow_tool_only_turn: bool,
    allow_parallel_calls: bool,
    prompt_opened_thought: bool,
)
    requires
        content_schema matches Some(schema) ==> schema.wf(),
    ensures
        structural_tag_tree(
            turn_format(
                tools,
                content_schema,
                tools_mandatory,
                allow_reasoning,
                allow_tool_only_turn,
                allow_parallel_calls,
                prompt_opened_thought,
            ).render(),
        ).wf(),
{
    let format = turn_format(
        tools,
        content_schema,
        tools_mandatory,
        allow_reasoning,
        allow_tool_only_turn,
        allow_parallel_calls,
        prompt_opened_thought,
    );
    lemma_turn_every(
        tools,
        content_schema,
        tools_mandatory,
        allow_reasoning,
        allow_tool_only_turn,
        allow_parallel_calls,
        prompt_opened_thought,
        schema_is_wf(),
    );
    law_render_wf(format);
    law_structural_tag_wf(format.render());
}

/// A parser has a native tag if and only if its name is `gemma4`, with a hyphen before the digit
/// or without.
pub proof fn law_native_parsers(parser: Option<Seq<char>>)
    ensures
        has_native_tag(parser) <==> parser is Some && (parser->0 == seq![
            'g',
            'e',
            'm',
            'm',
            'a',
            '4',
        ] || parser->0 == seq!['g', 'e', 'm', 'm', 'a', '-', '4']),
        forall|name: &str| #[trigger] name_of(Some(name)) == Some(name@),
        name_of(None) is None,
{
    reveal_strlit("gemma4");
    reveal_strlit("gemma-4");
    assert("gemma4"@ =~= seq!['g', 'e', 'm', 'm', 'a', '4']);
    assert("gemma-4"@ =~= seq!['g', 'e', 'm', 'm', 'a', '-', '4']);
}

/// Tools are taken as they are given, each in its place, with its name and its parameters.
pub proof fn law_tools_are_taken_as_given(tools: Seq<ToolDefinition>, i: int)
    requires
        0 <= i < tools.len(),
    ensures
        tools_of(tools).len() == tools.len(),
        tools_of(tools)[i].name == tools[i].name@,
        tools_of(tools)[i].parameters is Some <==> tools[i].parameters is Some,
        tools[i].parameters is Some ==> tools_of(tools)[i].parameters->0 == tools[i].parameters->0@,
{
}

/// Whether every choice of calls in the JSON asks for one and ends with it. Schemas are what the
/// caller gave, and are not looked into.
pub open spec fn choices_end_with_the_first(tree: JsonTree) -> bool
    decreases tree,
{
    match tree {
        JsonTree::Array(items) => forall|i: int|
            0 <= i < items.len() ==> choices_end_with_the_first(#[trigger] items[i]),
        JsonTree::Object(entries) => {
            &&& entries.contains(("type"@, JsonTree::Text("tags_with_separator"@))) ==> {
                &&& entries.contains(("at_least_one"@, JsonTree::Bool(true)))
                &&& entries.contains(("stop_after_first"@, JsonTree::Bool(true)))
                &&& !entries.contains(("at_least_one"@, JsonTree::Bool(false)))
                &&& !entries.contains(("stop_after_first"@, JsonTree::Bool(false)))
            }
            &&& forall|i: int|
                0 <= i < entries.len() && (#[trigger] entries[i]).0 != "json_schema"@
                    ==> choices_end_with_the_first(entries[i].1)
        },
        _ => true,
    }
}

/// If a format is a choice of tags, it is one for exactly one.
spec fn is_for_one() -> spec_fn(Format) -> bool {
    |format: Format|
        format is TagsWithSeparator ==> format->TagsWithSeparator_at_least_one
            && format->TagsWithSeparator_stop_after_first
}

proof fn lemma_type_names()
    ensures
        "any_text"@ != "tags_with_separator"@,
        "const_string"@ != "tags_with_separator"@,
        "regex"@ != "tags_with_separator"@,
        "json_schema"@ != "tags_with_separator"@,
        "sequence"@ != "tags_with_separator"@,
        "or"@ != "tags_with_separator"@,
        "optional"@ != "tags_with_separator"@,
        "tag"@ != "tags_with_separator"@,
        "dispatch"@ != "tags_with_separator"@,
        "structural_tag"@ != "tags_with_separator"@,
        "type"@ != "at_least_one"@,
        "type"@ != "stop_after_first"@,
        "type"@ != "json_schema"@,
        "at_least_one"@ != "stop_after_first"@,
{
    reveal_strlit("any_text");
    reveal_strlit("const_string");
    reveal_strlit("regex");
    reveal_strlit("json_schema");
    reveal_strlit("sequence");
    reveal_strlit("or");
    reveal_strlit("optional");
    reveal_strlit("tag");
    reveal_strlit("tags_with_separator");
    reveal_strlit("dispatch");
    reveal_strlit("structural_tag");
    reveal_strlit("type");
    reveal_strlit("at_least_one");
    reveal_strlit("stop_after_first");
    assert("tags_with_separator"@.len() == 19);
    assert("type"@.len() == 4 && "at_least_one"@.len() == 12 && "stop_after_first"@.len() == 16);
    assert("json_schema"@.len() == 11);
}

proof fn lemma_choices_each(formats: Seq<Format>)
    requires
        forall|i: int| 0 <= i < formats.len() ==> (#[trigger] formats[i]).every(is_for_one()),
    ensures
        choices_end_with_the_first(JsonTree::Array(Format::render_each(formats))),
    decreases formats,
{
    lemma_render_each(formats);
    let items = Format::render_each(formats);
    assert forall|i: int| 0 <= i < items.len() implies choices_end_with_the_first(
        #[trigger] items[i],
    ) by {
        lemma_choices(formats[i]);
    }
}

/// An object is as it should be if what its type asks for is there and its entries are as they
/// should be.
proof fn lemma_choices_object(entries: Seq<(Seq<char>, JsonTree)>)
    requires
        entries.len() > 0,
        entries[0].0 == "type"@,
        entries[0].1 is Text,
        forall|i: int| 0 < i < entries.len() ==> (#[trigger] entries[i]).0 != "type"@,
        entries[0].1 == JsonTree::Text("tags_with_separator"@) ==> {
            &&& entries.contains(("at_least_one"@, JsonTree::Bool(true)))
            &&& entries.contains(("stop_after_first"@, JsonTree::Bool(true)))
            &&& !entries.contains(("at_least_one"@, JsonTree::Bool(false)))
            &&& !entries.contains(("stop_after_first"@, JsonTree::Bool(false)))
        },
        forall|i: int|
            0 < i < entries.len() && (#[trigger] entries[i]).0 != "json_schema"@
                ==> choices_end_with_the_first(entries[i].1),
    ensures
        choices_end_with_the_first(JsonTree::Object(entries)),
{
    assert(choices_end_with_the_first(entries[0].1));
    if entries.contains(("type"@, JsonTree::Text("tags_with_separator"@))) {
        let i = entries.index_of(("type"@, JsonTree::Text("tags_with_separator"@)));
        assert(i == 0);
    }
}

proof fn lemma_choices(format: Format)
    requires
        format.every(is_for_one()),
    ensures
        choices_end_with_the_first(format.render()),
    decreases format,
{
    lemma_type_names();
    lemma_keys_differ();
    let entries = format.render()->Object_0;
    assert(is_for_one()(format));
    match format {
        Format::Sequence(elements) => lemma_choices_each(elements),
        Format::Or(elements) => lemma_choices_each(elements),
        Format::Optional(content) => lemma_choices(*content),
        Format::Tag { begin, content, end } => lemma_choices(*content),
        Format::TagsWithSeparator { tags, separator, at_least_one, stop_after_first } => {
            lemma_choices_each(tags);
            assert(entries[3] == ("at_least_one"@, JsonTree::Bool(true)));
            assert(entries[4] == ("stop_after_first"@, JsonTree::Bool(true)));
        },
        Format::Dispatch { rules, repeat } => {
            lemma_render_rules(rules);
            let spelt = Format::render_rules(rules);
            assert forall|i: int| 0 <= i < spelt.len() implies choices_end_with_the_first(
                #[trigger] spelt[i],
            ) by {
                lemma_choices(rules[i].1);
                let pair = spelt[i]->Array_0;
                assert(spelt[i] == JsonTree::Array(pair));
                assert(choices_end_with_the_first(pair[0]) && choices_end_with_the_first(pair[1]));
            }
            assert(choices_end_with_the_first(JsonTree::Array(spelt)));
            assert(choices_end_with_the_first(JsonTree::Array(Seq::empty())));
        },
        _ => {
            assert(choices_end_with_the_first(JsonTree::Array(Seq::empty())));
        },
    }
    assert forall|i: int|
        0 < i < entries.len() && (#[trigger] entries[i]).0 != "json_schema"@ implies
        choices_end_with_the_first(entries[i].1) by {}
    lemma_choices_object(entries);
}

/// In the JSON of the tag, for any tools, schema and flags, every choice of calls asks for one
/// and ends with it: no branch of it lets a call be followed by another.
pub proof fn law_no_repeatable_branch_in_the_json(
    tools: Seq<Tool>,
    content_schema: Option<JsonTree>,
    tools_mandatory: bool,
    allow_reasoning: bool,
    allow_tool_only_turn: bool,
    allow_parallel_calls: bool,
    prompt_opened_thought: bool,
)
    ensures
        choices_end_with_the_first(
            structural_tag_tree(
                turn_format(
                    tools,
                    content_schema,
                    tools_mandatory,
                    allow_reasoning,
                    allow_tool_only_turn,
                    allow_parallel_calls,
                    prompt_opened_thought,
                ).render(),
            ),
        ),
{
    let format = turn_format(
        tools,
        content_schema,
        tools_mandatory,
        allow_reasoning,
        allow_tool_only_turn,
        allow_parallel_calls,
        prompt_opened_thought,
    );
    lemma_turn_every(
        tools,
        content_schema,
        tools_mandatory,
        allow_reasoning,
        allow_tool_only_turn,
        allow_parallel_calls,
        prompt_opened_thought,
        is_for_one(),
    );
    lemma_choices(format);
    lemma_type_names();
    let entries = structural_tag_tree(format.render())->Object_0;
    lemma_keys_differ();
    lemma_choices_object(entries);
}

} // verus!
