//! What the structural tag admits as a turn.
use crate::args::{
    exact_tier, is_string, one_of, required_names, required_string_keys, tool_args_format,
};
use crate::args_language::{
    empty_value_body, law_empty_required_string_is_refused,
    law_plain_arguments_hold_no_end_marker, law_required_key_appears, lemma_exact_body_opens,
    lemma_one_of, stands_in,
};
use crate::arguments::{are_arguments, is_unconstrained, law_grammar_admits_the_arguments};
use crate::format::Format;
use crate::gemma4::{
    Tool, body_format, message_format, reasoning_prefix_format, single_tool_call_format,
    slot_branches, thought_begin, tool_calls_format, tool_slots, tool_tag_format, tool_tags,
    turn_calls_format, turn_format,
};
use crate::json::JsonTree;
use crate::language::{
    SchemaTexts, fills_tag, lemma_exactly_one_tag, lemma_in_turn_two, lemma_tag, up_to_first,
};
use crate::markers::{
    GEMMA4_REASONING_END, GEMMA4_STRING_DELIM, GEMMA4_THOUGHT_BEGIN, GEMMA4_TOOL_CALL_BEGIN,
    GEMMA4_TOOL_CALL_END,
};
use vstd::prelude::*;

verus! {

/// Whether the text starts with `start`.
pub open spec fn starts_with(s: Seq<char>, start: Seq<char>) -> bool {
    start.len() <= s.len() && s.take(start.len() as int) == start
}

/// Whether the text may stand as the arguments of a call of this tool: it is what its schema
/// allows, and if that is any text, it runs up to the first end marker.
pub open spec fn is_call_body(tool: Tool, body: Seq<char>) -> bool {
    &&& are_arguments(tool.parameters, body)
    &&& is_unconstrained(tool.parameters) ==> up_to_first(body, GEMMA4_TOOL_CALL_END@)
}

/// What may stand in the tag of a tool is what may stand as the arguments of a call of it.
proof fn lemma_call_body(tool: Tool, fits: SchemaTexts, body: Seq<char>)
    ensures
        fills_tag(tool_args_format(tool.parameters), GEMMA4_TOOL_CALL_END@, fits, body)
            <==> is_call_body(tool, body),
{
    law_grammar_admits_the_arguments(tool.parameters, fits, body);
}

/// Whether the text is a call of this tool.
pub open spec fn is_call(tool: Tool, fits: SchemaTexts, s: Seq<char>) -> bool {
    exists|body: Seq<char>|
        is_call_body(tool, body) && s == #[trigger] (GEMMA4_TOOL_CALL_BEGIN@ + tool.name
            + body + GEMMA4_TOOL_CALL_END@)
}

/// For each tool no call, or one.
pub open spec fn are_calls(
    tools: Seq<Tool>,
    fits: SchemaTexts,
    calls: Seq<Option<Seq<char>>>,
) -> bool {
    &&& calls.len() == tools.len()
    &&& forall|i: int|
        0 <= i < tools.len() && (#[trigger] calls[i]) is Some ==> is_call(
            tools[i],
            fits,
            calls[i]->0,
        )
}

/// Whether a tool is called at all.
pub open spec fn some_call(calls: Seq<Option<Seq<char>>>) -> bool {
    exists|i: int| 0 <= i < calls.len() && (#[trigger] calls[i]) is Some
}

/// The calls that are made, one after the other.
pub open spec fn calls_text(calls: Seq<Option<Seq<char>>>) -> Seq<char>
    decreases calls.len(),
{
    if calls.len() == 0 {
        Seq::empty()
    } else {
        let first = match calls[0] {
            Some(call) => call,
            None => Seq::empty(),
        };
        first + calls_text(calls.drop_first())
    }
}

/// A tool's tag admits its calls: the markers and the name are fixed, and what stands between
/// them is what the grammar of the arguments admits, up to the first end marker where that is
/// any text.
pub proof fn law_tool_tag_language(tool: Tool, fits: SchemaTexts, s: Seq<char>)
    ensures
        tool_tag_format(tool).accepts(fits, s) <==> is_call(tool, fits, s),
{
    lemma_tag(
        GEMMA4_TOOL_CALL_BEGIN@ + tool.name,
        tool_args_format(tool.parameters),
        GEMMA4_TOOL_CALL_END@,
        fits,
        s,
    );
    assert forall|body: Seq<char>|
        fills_tag(tool_args_format(tool.parameters), GEMMA4_TOOL_CALL_END@, fits, body)
            <==> #[trigger] is_call_body(tool, body) by {
        lemma_call_body(tool, fits, body);
    }
    if is_call(tool, fits, s) {
        let body = choose|body: Seq<char>|
            is_call_body(tool, body) && s == #[trigger] (GEMMA4_TOOL_CALL_BEGIN@ + tool.name + body
                + GEMMA4_TOOL_CALL_END@);
        assert(fills_tag(
            tool_args_format(tool.parameters),
            GEMMA4_TOOL_CALL_END@,
            fits,
            body,
        ));
    }
    if tool_tag_format(tool).accepts(fits, s) {
        let body = choose|body: Seq<char>|
            fills_tag(tool_args_format(tool.parameters), GEMMA4_TOOL_CALL_END@, fits, body) && s
                == #[trigger] (GEMMA4_TOOL_CALL_BEGIN@ + tool.name + body + GEMMA4_TOOL_CALL_END@);
        assert(is_call_body(tool, body));
    }
}

/// Of a tool without a schema the name is constrained and the arguments are not: they are any
/// text up to the first end marker.
pub proof fn law_arguments_without_schema_are_free(
    name: Seq<char>,
    fits: SchemaTexts,
    s: Seq<char>,
)
    ensures
        is_call(Tool { name, parameters: None }, fits, s) <==> exists|body: Seq<char>|
            up_to_first(body, GEMMA4_TOOL_CALL_END@) && s == #[trigger] (GEMMA4_TOOL_CALL_BEGIN@
                + name + body + GEMMA4_TOOL_CALL_END@),
{
    let tool = Tool { name, parameters: None };
    if exists|body: Seq<char>|
        up_to_first(body, GEMMA4_TOOL_CALL_END@) && s == #[trigger] (GEMMA4_TOOL_CALL_BEGIN@ + name
            + body + GEMMA4_TOOL_CALL_END@) {
        let body = choose|body: Seq<char>|
            up_to_first(body, GEMMA4_TOOL_CALL_END@) && s == #[trigger] (GEMMA4_TOOL_CALL_BEGIN@
                + name + body + GEMMA4_TOOL_CALL_END@);
        assert(is_call_body(tool, body));
        assert(s == GEMMA4_TOOL_CALL_BEGIN@ + tool.name + body + GEMMA4_TOOL_CALL_END@);
    }
}

/// Whether no text that may stand as the arguments of a call of this tool holds the end marker.
pub open spec fn holds_no_end_marker(tool: Tool, fits: SchemaTexts) -> bool {
    forall|body: Seq<char>| #[trigger]
        is_call_body(tool, body) ==> !stands_in(GEMMA4_TOOL_CALL_END@, body)
}

/// A text runs up to the end marker of a call if and only if it does not hold it.
proof fn lemma_up_to_end_marker(body: Seq<char>)
    ensures
        up_to_first(body, GEMMA4_TOOL_CALL_END@) <==> !stands_in(GEMMA4_TOOL_CALL_END@, body),
{
    let end = GEMMA4_TOOL_CALL_END@;
    let all = body + end;
    reveal_strlit("<tool_call|>");
    assert(end.len() == 12 && end[0] == '<');
    assert(forall|k: int| 0 < k < 12 ==> end[k] != '<');
    if stands_in(end, body) {
        let at = choose|at: int|
            0 <= at && at + end.len() <= body.len() && #[trigger] body.subrange(at, at + end.len())
                == end;
        assert(all.subrange(at, at + end.len()) =~= body.subrange(at, at + end.len()));
    } else {
        assert forall|at: int| 0 <= at < body.len() implies #[trigger] all.subrange(
            at,
            at + end.len(),
        ) != end by {
            let here = all.subrange(at, at + end.len());
            if at + end.len() <= body.len() {
                assert(body.subrange(at, at + end.len()) =~= here);
            } else {
                assert(here[body.len() - at] == end[0]);
                assert(end[body.len() - at] != '<');
            }
        }
    }
}

/// Arguments that are any text hold no end marker.
pub proof fn law_free_arguments_hold_no_end_marker(tool: Tool, fits: SchemaTexts)
    requires
        tool_args_format(tool.parameters) is AnyText,
    ensures
        holds_no_end_marker(tool, fits),
{
    assert forall|body: Seq<char>| #[trigger] is_call_body(tool, body) implies !stands_in(
        GEMMA4_TOOL_CALL_END@,
        body,
    ) by {
        law_grammar_admits_the_arguments(tool.parameters, fits, body);
        lemma_up_to_end_marker(body);
    }
}

/// Arguments of which none is a string, and whose grammar is exact, hold no end marker where no
/// key does.
pub proof fn law_plain_tool_holds_no_end_marker(tool: Tool, fits: SchemaTexts)
    requires
        has_exact_arguments(tool),
        ({
            let properties = tool.parameters->0.field("properties"@)->0->Object_0;
            forall|i: int|
                0 <= i < properties.len() ==> !is_string((#[trigger] properties[i]).1)
                    && !stands_in(GEMMA4_TOOL_CALL_END@, properties[i].0)
        }),
    ensures
        holds_no_end_marker(tool, fits),
{
    let parameters = tool.parameters->0;
    let properties = parameters.field("properties"@)->0->Object_0;
    assert forall|body: Seq<char>| #[trigger] is_call_body(tool, body) implies !stands_in(
        GEMMA4_TOOL_CALL_END@,
        body,
    ) by {
        law_grammar_admits_the_arguments(tool.parameters, fits, body);
        law_plain_arguments_hold_no_end_marker(
            properties,
            required_names(parameters),
            fits,
            body,
        );
    }
}

/// Whether the grammar of the tool's arguments is exact.
pub open spec fn has_exact_arguments(tool: Tool) -> bool {
    tool.parameters is Some && exact_tier(tool.parameters->0) is Some
}

/// Whether the names tell calls of the two tools apart: the name of `b` does not start with that
/// of `a`, or it goes on with something else than the brace with which exact arguments of `a`
/// start.
pub open spec fn tells_apart(a: Tool, b: Tool) -> bool {
    starts_with(b.name, a.name) ==> {
        &&& has_exact_arguments(a)
        &&& a.name.len() < b.name.len()
        &&& b.name[a.name.len() as int] != '{'
    }
}

/// Whether the names tell calls of any two of the tools apart.
pub open spec fn names_apart(tools: Seq<Tool>) -> bool {
    forall|i: int, j: int|
        0 <= i < tools.len() && 0 <= j < tools.len() && i != j ==> tells_apart(
            #[trigger] tools[i],
            #[trigger] tools[j],
        )
}

/// A call ends with the first end marker: with anything behind it, another call for one, it is
/// no longer a call of a tool whose arguments hold no end marker, unless that tool's name goes on
/// beyond the arguments.
pub proof fn law_call_ends_at_first_marker(
    tool: Tool,
    other: Tool,
    fits: SchemaTexts,
    call: Seq<char>,
    more: Seq<char>,
)
    requires
        is_call(tool, fits, call),
        holds_no_end_marker(other, fits),
        more.len() > 0,
        GEMMA4_TOOL_CALL_BEGIN@.len() + other.name.len() + GEMMA4_TOOL_CALL_END@.len()
            <= call.len(),
    ensures
        !is_call(other, fits, call + more),
{
    let begin = GEMMA4_TOOL_CALL_BEGIN@ + other.name;
    let end = GEMMA4_TOOL_CALL_END@;
    let s = call + more;
    if is_call(other, fits, s) {
        let body = choose|body: Seq<char>|
            is_call_body(other, body) && s == #[trigger] (GEMMA4_TOOL_CALL_BEGIN@
                + other.name + body + end);
        let first = choose|first: Seq<char>|
            is_call_body(tool, first) && call == #[trigger] (GEMMA4_TOOL_CALL_BEGIN@
                + tool.name + first + end);
        lemma_up_to_end_marker(body);
        reveal_strlit("<tool_call|>");
        let at = call.len() - end.len() - begin.len();
        assert(s.len() == begin.len() + body.len() + end.len());
        assert(call.skip(call.len() - end.len()) =~= end);
        assert((body + end).subrange(at, at + end.len()) =~= call.skip(call.len() - end.len()))
            by {
            assert(body + end =~= s.skip(begin.len() as int));
        }
    }
}

/// A tool's call starts with the marker and the tool's name, and has room for the end marker.
proof fn lemma_call_shape(tool: Tool, fits: SchemaTexts, call: Seq<char>)
    requires
        is_call(tool, fits, call),
    ensures
        starts_with(call, GEMMA4_TOOL_CALL_BEGIN@ + tool.name),
        GEMMA4_TOOL_CALL_BEGIN@.len() + tool.name.len() + GEMMA4_TOOL_CALL_END@.len()
            <= call.len(),
{
    let begin = GEMMA4_TOOL_CALL_BEGIN@ + tool.name;
    let body = choose|body: Seq<char>|
        is_call_body(tool, body) && call == #[trigger] (GEMMA4_TOOL_CALL_BEGIN@ + tool.name
            + body + GEMMA4_TOOL_CALL_END@);
    assert(call.take(begin.len() as int) =~= begin);
}

/// Behind the name in a call with exact arguments stands a brace.
proof fn lemma_brace_behind_name(tool: Tool, fits: SchemaTexts, call: Seq<char>)
    requires
        has_exact_arguments(tool),
        is_call(tool, fits, call),
    ensures
        (GEMMA4_TOOL_CALL_BEGIN@ + tool.name).len() < call.len(),
        call[(GEMMA4_TOOL_CALL_BEGIN@ + tool.name).len() as int] == '{',
{
    let begin = GEMMA4_TOOL_CALL_BEGIN@ + tool.name;
    let body = choose|body: Seq<char>|
        is_call_body(tool, body) && call == #[trigger] (GEMMA4_TOOL_CALL_BEGIN@ + tool.name
            + body + GEMMA4_TOOL_CALL_END@);
    let parameters = tool.parameters->0;
    let properties = parameters.field("properties"@)->0->Object_0;
    law_grammar_admits_the_arguments(tool.parameters, fits, body);
    lemma_exact_body_opens(properties, required_names(parameters), fits, body);
    assert(call[begin.len() as int] == body[0]);
}

/// Where a text starts with calls of two tools and the name of `b` starts with that of `a`, the
/// names do not tell them apart.
proof fn lemma_not_told_apart(
    a: Tool,
    b: Tool,
    fits: SchemaTexts,
    s: Seq<char>,
    one: Seq<char>,
    other: Seq<char>,
)
    requires
        is_call(a, fits, one),
        is_call(b, fits, other),
        starts_with(s, one),
        starts_with(s, other),
        starts_with(b.name, a.name),
    ensures
        !tells_apart(a, b),
{
    if tells_apart(a, b) {
        let at = (GEMMA4_TOOL_CALL_BEGIN@ + a.name).len() as int;
        lemma_brace_behind_name(a, fits, one);
        lemma_call_shape(b, fits, other);
        assert(s.take(one.len() as int)[at] == s[at]);
        assert(s.take(other.len() as int)[at] == s[at]);
        let start = GEMMA4_TOOL_CALL_BEGIN@ + b.name;
        assert(other.take(start.len() as int)[at] == other[at]);
        assert(start[at] == b.name[a.name.len() as int]);
    }
}

/// Where names are apart, texts of which one starts with the other are calls of one tool.
proof fn lemma_same_tool(
    tools: Seq<Tool>,
    fits: SchemaTexts,
    i: int,
    j: int,
    s: Seq<char>,
    one: Seq<char>,
    other: Seq<char>,
)
    requires
        names_apart(tools),
        0 <= i < tools.len(),
        0 <= j < tools.len(),
        is_call(tools[i], fits, one),
        is_call(tools[j], fits, other),
        starts_with(s, one),
        starts_with(s, other),
    ensures
        i == j,
{
    let begin = GEMMA4_TOOL_CALL_BEGIN@;
    let a = tools[i].name;
    let b = tools[j].name;
    lemma_call_shape(tools[i], fits, one);
    lemma_call_shape(tools[j], fits, other);
    assert(s.subrange(begin.len() as int, (begin + a).len() as int) =~= a) by {
        assert(s.take((begin + a).len() as int) =~= s.take(one.len() as int).take(
            (begin + a).len() as int,
        ));
        assert((begin + a).skip(begin.len() as int) =~= a);
    }
    assert(s.subrange(begin.len() as int, (begin + b).len() as int) =~= b) by {
        assert(s.take((begin + b).len() as int) =~= s.take(other.len() as int).take(
            (begin + b).len() as int,
        ));
        assert((begin + b).skip(begin.len() as int) =~= b);
    }
    if i != j {
        if a.len() <= b.len() {
            assert(b.take(a.len() as int) =~= a);
            lemma_not_told_apart(tools[i], tools[j], fits, s, one, other);
        } else {
            assert(a.take(b.len() as int) =~= b);
            lemma_not_told_apart(tools[j], tools[i], fits, s, other, one);
        }
    }
}

/// Of tools whose names are apart and whose arguments hold no end marker, a text starts with one
/// call at most.
proof fn lemma_one_first_call(
    tools: Seq<Tool>,
    fits: SchemaTexts,
    i: int,
    j: int,
    s: Seq<char>,
    one: Seq<char>,
    other: Seq<char>,
)
    requires
        names_apart(tools),
        0 <= i < tools.len(),
        0 <= j < tools.len(),
        holds_no_end_marker(tools[i], fits),
        is_call(tools[i], fits, one),
        is_call(tools[j], fits, other),
        starts_with(s, one),
        starts_with(s, other),
    ensures
        i == j,
        one == other,
{
    lemma_same_tool(tools, fits, i, j, s, one, other);
    lemma_call_shape(tools[i], fits, one);
    lemma_call_shape(tools[i], fits, other);
    if one.len() < other.len() {
        let more = other.skip(one.len() as int);
        assert(other =~= one + more) by {
            assert(s.take(one.len() as int) =~= s.take(other.len() as int).take(one.len() as int));
        }
        law_call_ends_at_first_marker(tools[i], tools[i], fits, one, more);
    } else if other.len() < one.len() {
        let more = one.skip(other.len() as int);
        assert(one =~= other + more) by {
            assert(s.take(other.len() as int) =~= s.take(one.len() as int).take(
                other.len() as int,
            ));
        }
        law_call_ends_at_first_marker(tools[i], tools[i], fits, other, more);
    }
}

/// A body that the grammar of the arguments does not admit is not that of a call.
proof fn lemma_refused_body(tool: Tool, fits: SchemaTexts, body: Seq<char>)
    requires
        !tool_args_format(tool.parameters).accepts(fits, body),
    ensures
        !is_call(
            tool,
            fits,
            GEMMA4_TOOL_CALL_BEGIN@ + tool.name + body + GEMMA4_TOOL_CALL_END@,
        ),
{
    let begin = GEMMA4_TOOL_CALL_BEGIN@ + tool.name;
    let s = begin + body + GEMMA4_TOOL_CALL_END@;
    law_grammar_admits_the_arguments(tool.parameters, fits, body);
    if is_call(tool, fits, s) {
        let other = choose|other: Seq<char>|
            is_call_body(tool, other) && s == #[trigger] (GEMMA4_TOOL_CALL_BEGIN@ + tool.name
                + other + GEMMA4_TOOL_CALL_END@);
        assert(s.len() == begin.len() + other.len() + GEMMA4_TOOL_CALL_END@.len());
        let n = begin.len() as int;
        assert(s.subrange(n, n + body.len()) =~= body);
        assert(s.subrange(n, n + body.len()) =~= other);
    }
}

/// A call without arguments is not admitted where any argument is required and the grammar of
/// the arguments is exact.
pub proof fn law_call_without_required_argument_is_refused(
    tool: Tool,
    fits: SchemaTexts,
    key: Seq<char>,
)
    requires
        has_exact_arguments(tool),
        required_names(tool.parameters->0).contains(key),
    ensures
        !is_call(
            tool,
            fits,
            GEMMA4_TOOL_CALL_BEGIN@ + tool.name + "{}"@ + GEMMA4_TOOL_CALL_END@,
        ),
{
    let parameters = tool.parameters->0;
    let properties = parameters.field("properties"@)->0->Object_0;
    law_required_key_appears(properties, required_names(parameters), fits, "{}"@, key);
    lemma_refused_body(tool, fits, "{}"@);
}

/// A call that gives a required string argument an empty value is not admitted. Where the grammar
/// of the arguments is not exact, that is so of the keys that hold no delimiter themselves.
pub proof fn law_call_with_empty_required_string_is_refused(
    tool: Tool,
    fits: SchemaTexts,
    key: Seq<char>,
)
    requires
        required_string_keys(tool.parameters).contains(key),
        exact_tier(tool.parameters->0) is None ==> !stands_in(GEMMA4_STRING_DELIM@, key),
    ensures
        !is_call(
            tool,
            fits,
            GEMMA4_TOOL_CALL_BEGIN@ + tool.name + empty_value_body(key, ":"@)
                + GEMMA4_TOOL_CALL_END@,
        ),
{
    law_empty_required_string_is_refused(tool.parameters->0, key, fits);
    lemma_refused_body(tool, fits, empty_value_body(key, ":"@));
}

proof fn lemma_call_begins(tool: Tool, fits: SchemaTexts, s: Seq<char>)
    requires
        is_call(tool, fits, s),
    ensures
        GEMMA4_TOOL_CALL_BEGIN@.len() > 0,
        GEMMA4_TOOL_CALL_BEGIN@.len() <= s.len(),
        s.take(GEMMA4_TOOL_CALL_BEGIN@.len() as int) == GEMMA4_TOOL_CALL_BEGIN@,
{
    reveal_strlit("<|tool_call>call:");
    let body = choose|body: Seq<char>|
        is_call_body(tool, body) && s == #[trigger] (GEMMA4_TOOL_CALL_BEGIN@ + tool.name
            + body + GEMMA4_TOOL_CALL_END@);
    assert(s.take(GEMMA4_TOOL_CALL_BEGIN@.len() as int) =~= GEMMA4_TOOL_CALL_BEGIN@);
}

/// The slots admit calls, one at most for each tool, and one for that at `must`.
proof fn lemma_tool_slots(tools: Seq<Tool>, must: int, fits: SchemaTexts, s: Seq<char>)
    ensures
        Format::accepts_in_turn(tool_slots(tools, must), fits, s) <==> exists|
            calls: Seq<Option<Seq<char>>>,
        |
            {
                &&& are_calls(tools, fits, calls)
                &&& 0 <= must < tools.len() ==> calls[must] is Some
                &&& s == #[trigger] calls_text(calls)
            },
    decreases tools.len(),
{
    let slots = tool_slots(tools, must);
    if tools.len() == 0 {
        let none = Seq::<Option<Seq<char>>>::empty();
        assert(are_calls(tools, fits, none));
        assert(calls_text(none).len() == 0);
        if s.len() == 0 {
            assert(s =~= calls_text(none));
        }
    } else {
        let rest = tools.drop_first();
        let tag = tool_tag_format(tools[0]);
        assert(slots.drop_first() =~= tool_slots(rest, must - 1));
        if Format::accepts_in_turn(slots, fits, s) {
            let n = choose|n: int|
                0 <= n <= s.len() && slots[0].accepts(fits, #[trigger] s.take(n))
                    && Format::accepts_in_turn(slots.drop_first(), fits, s.skip(n));
            lemma_tool_slots(rest, must - 1, fits, s.skip(n));
            let later = choose|calls: Seq<Option<Seq<char>>>|
                {
                    &&& are_calls(rest, fits, calls)
                    &&& 0 <= must - 1 < rest.len() ==> calls[must - 1] is Some
                    &&& s.skip(n) == #[trigger] calls_text(calls)
                };
            law_tool_tag_language(tools[0], fits, s.take(n));
            let first = if tag.accepts(fits, s.take(n)) {
                Some(s.take(n))
            } else {
                None
            };
            let calls = seq![first] + later;
            assert(calls.drop_first() =~= later);
            assert forall|i: int|
                0 <= i < tools.len() && (#[trigger] calls[i]) is Some implies is_call(
                tools[i],
                fits,
                calls[i]->0,
            ) by {
                if i > 0 {
                    assert(later[i - 1] == calls[i]);
                    assert(rest[i - 1] == tools[i]);
                }
            }
            assert(s =~= calls_text(calls)) by {
                assert(s =~= s.take(n) + s.skip(n));
                if first is None {
                    assert(s.take(n).len() == 0);
                }
            }
            assert(are_calls(tools, fits, calls));
            if 0 < must < tools.len() {
                assert(calls[must] == later[must - 1]);
            }
        }
        if exists|calls: Seq<Option<Seq<char>>>|
            {
                &&& are_calls(tools, fits, calls)
                &&& 0 <= must < tools.len() ==> calls[must] is Some
                &&& s == #[trigger] calls_text(calls)
            } {
            let calls = choose|calls: Seq<Option<Seq<char>>>|
                {
                    &&& are_calls(tools, fits, calls)
                    &&& 0 <= must < tools.len() ==> calls[must] is Some
                    &&& s == #[trigger] calls_text(calls)
                };
            let later = calls.drop_first();
            let head = match calls[0] {
                Some(call) => call,
                None => Seq::empty(),
            };
            let n = head.len() as int;
            assert(s.take(n) =~= head);
            assert(s.skip(n) =~= calls_text(later));
            assert forall|i: int|
                0 <= i < rest.len() && (#[trigger] later[i]) is Some implies is_call(
                rest[i],
                fits,
                later[i]->0,
            ) by {
                assert(calls[i + 1] == later[i]);
            }
            assert(are_calls(rest, fits, later));
            lemma_tool_slots(rest, must - 1, fits, s.skip(n));
            law_tool_tag_language(tools[0], fits, head);
            assert(slots[0].accepts(fits, s.take(n)));
        }
    }
}

/// Whether the text is calls of some of the tools, in their order, none of them twice, and of
/// one at least where that is asked for.
pub open spec fn is_row_of_calls(
    tools: Seq<Tool>,
    at_least_one: bool,
    fits: SchemaTexts,
    s: Seq<char>,
) -> bool {
    exists|calls: Seq<Option<Seq<char>>>|
        {
            &&& are_calls(tools, fits, calls)
            &&& at_least_one ==> some_call(calls)
            &&& s == #[trigger] calls_text(calls)
        }
}

/// Calls of several tools: a text is admitted if and only if it can be divided into calls of some
/// of them, in the order of the tools, none of them twice, and of one at least where that is
/// asked for. Any subset of the tools can be called.
pub proof fn law_tool_calls_language(
    tools: Seq<Tool>,
    at_least_one: bool,
    fits: SchemaTexts,
    s: Seq<char>,
)
    ensures
        tool_calls_format(tools, at_least_one).accepts(fits, s) <==> is_row_of_calls(
            tools,
            at_least_one,
            fits,
            s,
        ),
{
    if at_least_one {
        let branches = slot_branches(tools);
        lemma_one_of(branches, fits, s);
        if one_of(branches).accepts(fits, s) {
            let i = choose|i: int|
                0 <= i < branches.len() && (#[trigger] branches[i]).accepts(fits, s);
            lemma_tool_slots(tools, i, fits, s);
            let calls = choose|calls: Seq<Option<Seq<char>>>|
                {
                    &&& are_calls(tools, fits, calls)
                    &&& 0 <= i < tools.len() ==> calls[i] is Some
                    &&& s == #[trigger] calls_text(calls)
                };
            assert(calls[i] is Some);
        }
        if exists|calls: Seq<Option<Seq<char>>>|
            {
                &&& are_calls(tools, fits, calls)
                &&& some_call(calls)
                &&& s == #[trigger] calls_text(calls)
            } {
            let calls = choose|calls: Seq<Option<Seq<char>>>|
                {
                    &&& are_calls(tools, fits, calls)
                    &&& some_call(calls)
                    &&& s == #[trigger] calls_text(calls)
                };
            let i = choose|i: int| 0 <= i < calls.len() && (#[trigger] calls[i]) is Some;
            lemma_tool_slots(tools, i, fits, s);
            assert(branches[i].accepts(fits, s));
        }
    } else {
        lemma_tool_slots(tools, -1, fits, s);
    }
}

/// The single call is exactly one call, of any of the tools.
pub proof fn law_single_tool_call_language(tools: Seq<Tool>, fits: SchemaTexts, s: Seq<char>)
    ensures
        single_tool_call_format(tools).accepts(fits, s) <==> exists|i: int|
            0 <= i < tools.len() && is_call(#[trigger] tools[i], fits, s),
{
    let tags = tool_tags(tools);
    lemma_exactly_one_tag(tags, ""@, fits, s);
    assert forall|i: int| 0 <= i < tools.len() implies (#[trigger] tags[i]).accepts(fits, s)
        == is_call(tools[i], fits, s) by {
        law_tool_tag_language(tools[i], fits, s);
    }
    if exists|i: int| 0 <= i < tools.len() && is_call(#[trigger] tools[i], fits, s) {
        let i = choose|i: int| 0 <= i < tools.len() && is_call(#[trigger] tools[i], fits, s);
        assert(tags[i].accepts(fits, s));
    }
    if Format::accepts_any(tags, fits, s) {
        let i = choose|i: int| 0 <= i < tags.len() && (#[trigger] tags[i]).accepts(fits, s);
        assert(is_call(tools[i], fits, s));
    }
}

/// Behind the single call nothing can follow, where arguments hold no end marker: a text that is
/// a call and more is not admitted, unless the name of another tool goes on beyond the arguments
/// of that call.
pub proof fn law_no_second_call(
    tools: Seq<Tool>,
    fits: SchemaTexts,
    call: Seq<char>,
    more: Seq<char>,
)
    requires
        forall|i: int| 0 <= i < tools.len() ==> holds_no_end_marker(#[trigger] tools[i], fits),
        single_tool_call_format(tools).accepts(fits, call),
        more.len() > 0,
        forall|i: int|
            0 <= i < tools.len() && starts_with(
                call + more,
                GEMMA4_TOOL_CALL_BEGIN@ + (#[trigger] tools[i]).name,
            ) ==> GEMMA4_TOOL_CALL_BEGIN@.len() + tools[i].name.len() + GEMMA4_TOOL_CALL_END@.len()
                <= call.len(),
    ensures
        !single_tool_call_format(tools).accepts(fits, call + more),
{
    law_single_tool_call_language(tools, fits, call);
    law_single_tool_call_language(tools, fits, call + more);
    let i = choose|i: int| 0 <= i < tools.len() && is_call(#[trigger] tools[i], fits, call);
    if single_tool_call_format(tools).accepts(fits, call + more) {
        let k = choose|k: int|
            0 <= k < tools.len() && is_call(#[trigger] tools[k], fits, call + more);
        lemma_call_shape(tools[k], fits, call + more);
        law_call_ends_at_first_marker(tools[i], tools[k], fits, call, more);
    }
}

/// Whether each of `texts` is a call of the tool that `which` names in its place.
pub open spec fn are_calls_of(
    tools: Seq<Tool>,
    fits: SchemaTexts,
    which: Seq<int>,
    texts: Seq<Seq<char>>,
) -> bool {
    &&& which.len() == texts.len()
    &&& forall|k: int|
        0 <= k < which.len() ==> 0 <= which[k] < tools.len() && is_call(
            tools[#[trigger] which[k]],
            fits,
            texts[k],
        )
}

/// Whether each number is less than the next.
pub open spec fn ascends(which: Seq<int>) -> bool {
    forall|a: int, b: int| 0 <= a < b < which.len() ==> #[trigger] which[a] < #[trigger] which[b]
}

/// The texts one after the other.
pub open spec fn in_a_row(texts: Seq<Seq<char>>) -> Seq<char>
    decreases texts.len(),
{
    if texts.len() == 0 {
        Seq::empty()
    } else {
        texts[0] + in_a_row(texts.drop_first())
    }
}

/// Where the slots of the tools from `from` on hold calls in a row, these are of those tools, and
/// each of one behind that of the call before it.
proof fn lemma_slots_are_the_calls(
    tools: Seq<Tool>,
    fits: SchemaTexts,
    from: int,
    calls: Seq<Option<Seq<char>>>,
    which: Seq<int>,
    texts: Seq<Seq<char>>,
)
    requires
        forall|i: int| 0 <= i < tools.len() ==> holds_no_end_marker(#[trigger] tools[i], fits),
        names_apart(tools),
        0 <= from <= tools.len(),
        are_calls(tools.skip(from), fits, calls),
        are_calls_of(tools, fits, which, texts),
        calls_text(calls) == in_a_row(texts),
    ensures
        ascends(which),
        forall|k: int| 0 <= k < which.len() ==> from <= #[trigger] which[k],
    decreases calls.len(),
{
    let s = calls_text(calls);
    let rest = tools.skip(from);
    if calls.len() == 0 {
        if which.len() > 0 {
            assert(is_call(tools[which[0]], fits, texts[0]));
            lemma_call_begins(tools[which[0]], fits, texts[0]);
            assert(in_a_row(texts).len() == texts[0].len() + in_a_row(texts.drop_first()).len());
            assert(s.len() == 0);
        }
    } else {
        let later = calls.drop_first();
        assert(tools.skip(from + 1) =~= rest.drop_first());
        assert forall|i: int|
            0 <= i < tools.skip(from + 1).len() && (#[trigger] later[i]) is Some implies is_call(
            tools.skip(from + 1)[i],
            fits,
            later[i]->0,
        ) by {
            assert(calls[i + 1] == later[i]);
            assert(rest[i + 1] == tools.skip(from + 1)[i]);
        }
        match calls[0] {
            None => {
                assert(s =~= calls_text(later));
                lemma_slots_are_the_calls(tools, fits, from + 1, later, which, texts);
                assert forall|k: int| 0 <= k < which.len() implies from <= #[trigger] which[k] by {
                    assert(from + 1 <= which[k]);
                }
            },
            Some(call) => {
                assert(rest[0] == tools[from]);
                assert(is_call(tools[from], fits, call));
                lemma_call_begins(tools[from], fits, call);
                if which.len() > 0 {
                    assert(is_call(tools[which[0]], fits, texts[0]));
                    assert(s.take(call.len() as int) =~= call);
                    assert(s.take(texts[0].len() as int) =~= texts[0]);
                    lemma_one_first_call(tools, fits, from, which[0], s, call, texts[0]);
                    let which_later = which.drop_first();
                    let texts_later = texts.drop_first();
                    assert(calls_text(later) =~= s.skip(call.len() as int));
                    assert(in_a_row(texts_later) =~= s.skip(call.len() as int));
                    assert forall|k: int| 0 <= k < which_later.len() implies 0 <= which_later[k]
                        < tools.len() && is_call(
                        tools[#[trigger] which_later[k]],
                        fits,
                        texts_later[k],
                    ) by {
                        assert(which[k + 1] == which_later[k]);
                    }
                    lemma_slots_are_the_calls(
                        tools,
                        fits,
                        from + 1,
                        later,
                        which_later,
                        texts_later,
                    );
                    assert forall|k: int| 0 < k < which.len() implies from < #[trigger] which[k] by {
                        assert(which_later[k - 1] == which[k]);
                    }
                    assert forall|a: int, b: int| 0 <= a < b < which.len() implies
                        #[trigger] which[a] < #[trigger] which[b] by {
                        if a > 0 {
                            assert(which_later[a - 1] == which[a]);
                            assert(which_later[b - 1] == which[b]);
                        }
                    }
                }
            },
        }
    }
}

/// No tool can repeat, where arguments hold no end marker and names tell calls apart: of calls in a
/// row those alone are admitted in which each is of a tool behind that of the call before it.
pub proof fn law_calls_do_not_repeat(
    tools: Seq<Tool>,
    at_least_one: bool,
    fits: SchemaTexts,
    which: Seq<int>,
    texts: Seq<Seq<char>>,
)
    requires
        forall|i: int| 0 <= i < tools.len() ==> holds_no_end_marker(#[trigger] tools[i], fits),
        names_apart(tools),
        are_calls_of(tools, fits, which, texts),
    ensures
        tool_calls_format(tools, at_least_one).accepts(fits, in_a_row(texts)) ==> ascends(which),
{
    let s = in_a_row(texts);
    law_tool_calls_language(tools, at_least_one, fits, s);
    if tool_calls_format(tools, at_least_one).accepts(fits, s) {
        let calls = choose|calls: Seq<Option<Seq<char>>>|
            {
                &&& are_calls(tools, fits, calls)
                &&& at_least_one ==> some_call(calls)
                &&& s == #[trigger] calls_text(calls)
            };
        assert(tools.skip(0) =~= tools);
        lemma_slots_are_the_calls(tools, fits, 0, calls, which, texts);
    }
}

/// Whether the text is one call or, with `parallel`, calls of distinct tools in their order.
pub open spec fn is_turn_calls(
    tools: Seq<Tool>,
    parallel: bool,
    fits: SchemaTexts,
    s: Seq<char>,
) -> bool {
    if parallel {
        exists|calls: Seq<Option<Seq<char>>>|
            {
                &&& are_calls(tools, fits, calls)
                &&& some_call(calls)
                &&& s == #[trigger] calls_text(calls)
            }
    } else {
        exists|i: int| 0 <= i < tools.len() && is_call(#[trigger] tools[i], fits, s)
    }
}

/// Whether the text is a message that fits the schema, and behind it calls or nothing.
pub open spec fn is_message(
    tools: Seq<Tool>,
    schema: JsonTree,
    parallel: bool,
    fits: SchemaTexts,
    s: Seq<char>,
) -> bool {
    exists|n: int|
        0 <= n <= s.len() && fits(schema, #[trigger] s.take(n)) && (s.skip(n).len() == 0
            || is_turn_calls(tools, parallel, fits, s.skip(n)))
}

/// Whether the text is what may follow the reasoning.
pub open spec fn is_turn_body(
    tools: Seq<Tool>,
    content_schema: Option<JsonTree>,
    tools_mandatory: bool,
    allow_tool_only_turn: bool,
    allow_parallel_calls: bool,
    fits: SchemaTexts,
    s: Seq<char>,
) -> bool {
    if tools_mandatory {
        is_turn_calls(tools, false, fits, s)
    } else {
        match content_schema {
            Some(schema) => {
                ||| is_message(tools, schema, allow_parallel_calls, fits, s)
                ||| allow_tool_only_turn && is_turn_calls(tools, allow_parallel_calls, fits, s)
            },
            None => is_turn_calls(tools, allow_parallel_calls, fits, s),
        }
    }
}

/// Whether the text is a thinking block: what opens it, and any text up to the first closer.
pub open spec fn is_thinking(prompt_opened_thought: bool, s: Seq<char>) -> bool {
    exists|thought: Seq<char>|
        up_to_first(thought, GEMMA4_REASONING_END@) && s == #[trigger] (thought_begin(
            prompt_opened_thought,
        ) + thought + GEMMA4_REASONING_END@)
}

/// Whether the first `n` characters are a thinking block, where that is allowed, or none, and
/// the others what may follow it.
pub open spec fn is_turn(
    tools: Seq<Tool>,
    content_schema: Option<JsonTree>,
    tools_mandatory: bool,
    allow_reasoning: bool,
    allow_tool_only_turn: bool,
    allow_parallel_calls: bool,
    prompt_opened_thought: bool,
    fits: SchemaTexts,
    s: Seq<char>,
    n: int,
) -> bool {
    &&& 0 <= n <= s.len()
    &&& n == 0 || allow_reasoning && is_thinking(prompt_opened_thought, s.take(n))
    &&& is_turn_body(
        tools,
        content_schema,
        tools_mandatory,
        allow_tool_only_turn,
        allow_parallel_calls,
        fits,
        s.skip(n),
    )
}

proof fn lemma_no_calls(calls: Seq<Option<Seq<char>>>)
    requires
        !some_call(calls),
    ensures
        calls_text(calls).len() == 0,
    decreases calls.len(),
{
    if calls.len() > 0 {
        let later = calls.drop_first();
        assert(calls[0] is None);
        assert forall|i: int| 0 <= i < later.len() implies (#[trigger] later[i]) is None by {
            assert(calls[i + 1] is None);
        }
        lemma_no_calls(later);
    }
}

/// The first call that is made begins the text.
proof fn lemma_calls_begin(tools: Seq<Tool>, fits: SchemaTexts, calls: Seq<Option<Seq<char>>>)
    requires
        are_calls(tools, fits, calls),
        some_call(calls),
    ensures
        GEMMA4_TOOL_CALL_BEGIN@.len() > 0,
        GEMMA4_TOOL_CALL_BEGIN@.len() <= calls_text(calls).len(),
        calls_text(calls).take(GEMMA4_TOOL_CALL_BEGIN@.len() as int) == GEMMA4_TOOL_CALL_BEGIN@,
    decreases calls.len(),
{
    let n = GEMMA4_TOOL_CALL_BEGIN@.len() as int;
    let later = calls.drop_first();
    let text = calls_text(calls);
    if calls[0] is Some {
        let call = calls[0]->0;
        lemma_call_begins(tools[0], fits, call);
        assert(text.take(n) =~= call.take(n));
    } else {
        let rest = tools.drop_first();
        assert forall|i: int|
            0 <= i < rest.len() && (#[trigger] later[i]) is Some implies is_call(
            rest[i],
            fits,
            later[i]->0,
        ) by {
            assert(calls[i + 1] == later[i]);
        }
        let i = choose|i: int| 0 <= i < calls.len() && (#[trigger] calls[i]) is Some;
        assert(later[i - 1] is Some);
        lemma_calls_begin(rest, fits, later);
        assert(text =~= calls_text(later));
    }
}

/// The calls of a turn begin with the marker of a call.
proof fn lemma_turn_calls_begin(
    tools: Seq<Tool>,
    parallel: bool,
    fits: SchemaTexts,
    s: Seq<char>,
)
    requires
        is_turn_calls(tools, parallel, fits, s),
    ensures
        GEMMA4_TOOL_CALL_BEGIN@.len() > 0,
        GEMMA4_TOOL_CALL_BEGIN@.len() <= s.len(),
        s.take(GEMMA4_TOOL_CALL_BEGIN@.len() as int) == GEMMA4_TOOL_CALL_BEGIN@,
{
    if parallel {
        let calls = choose|calls: Seq<Option<Seq<char>>>|
            {
                &&& are_calls(tools, fits, calls)
                &&& some_call(calls)
                &&& s == #[trigger] calls_text(calls)
            };
        lemma_calls_begin(tools, fits, calls);
    } else {
        let i = choose|i: int| 0 <= i < tools.len() && is_call(#[trigger] tools[i], fits, s);
        lemma_call_begins(tools[i], fits, s);
    }
}

proof fn lemma_turn_calls(
    tools: Seq<Tool>,
    parallel: bool,
    at_least_one: bool,
    fits: SchemaTexts,
    s: Seq<char>,
)
    ensures
        turn_calls_format(tools, parallel, at_least_one).accepts(fits, s) <==> is_turn_calls(
            tools,
            parallel,
            fits,
            s,
        ) || !at_least_one && s.len() == 0,
{
    law_tool_calls_language(tools, at_least_one, fits, s);
    law_single_tool_call_language(tools, fits, s);
    if parallel && !at_least_one {
        if turn_calls_format(tools, parallel, at_least_one).accepts(fits, s) && !is_turn_calls(
            tools,
            parallel,
            fits,
            s,
        ) {
            let calls = choose|calls: Seq<Option<Seq<char>>>|
                are_calls(tools, fits, calls) && s == #[trigger] calls_text(calls);
            lemma_no_calls(calls);
        }
        if s.len() == 0 {
            let calls = Seq::new(tools.len(), |i: int| None::<Seq<char>>);
            assert(!some_call(calls));
            lemma_no_calls(calls);
            assert(s =~= calls_text(calls));
            assert(are_calls(tools, fits, calls));
        }
    }
}

proof fn lemma_message(
    tools: Seq<Tool>,
    schema: JsonTree,
    parallel: bool,
    fits: SchemaTexts,
    s: Seq<char>,
)
    ensures
        message_format(tools, schema, parallel).accepts(fits, s) <==> is_message(
            tools,
            schema,
            parallel,
            fits,
            s,
        ),
{
    let content = Format::JsonSchema(schema);
    let calls = turn_calls_format(tools, parallel, false);
    lemma_in_turn_two(content, calls, fits, s);
    assert forall|n: int| 0 <= n <= s.len() implies calls.accepts(fits, s.skip(n)) == (s.skip(
        n,
    ).len() == 0 || is_turn_calls(tools, parallel, fits, s.skip(n))) && content.accepts(
        fits,
        s.take(n),
    ) == fits(schema, #[trigger] s.take(n)) by {
        lemma_turn_calls(tools, parallel, false, fits, s.skip(n));
    }
}

proof fn lemma_turn_body(
    tools: Seq<Tool>,
    content_schema: Option<JsonTree>,
    tools_mandatory: bool,
    allow_tool_only_turn: bool,
    allow_parallel_calls: bool,
    fits: SchemaTexts,
    s: Seq<char>,
)
    ensures
        body_format(
            tools,
            content_schema,
            tools_mandatory,
            allow_tool_only_turn,
            allow_parallel_calls,
        ).accepts(fits, s) <==> is_turn_body(
            tools,
            content_schema,
            tools_mandatory,
            allow_tool_only_turn,
            allow_parallel_calls,
            fits,
            s,
        ),
{
    law_single_tool_call_language(tools, fits, s);
    lemma_turn_calls(tools, allow_parallel_calls, true, fits, s);
    if let Some(schema) = content_schema {
        let message = message_format(tools, schema, allow_parallel_calls);
        let calls = turn_calls_format(tools, allow_parallel_calls, true);
        let shapes = seq![message, calls];
        lemma_message(tools, schema, allow_parallel_calls, fits, s);
        lemma_one_of(shapes, fits, s);
        assert(shapes[0] == message && shapes[1] == calls);
        if Format::accepts_any(shapes, fits, s) {
            let i = choose|i: int| 0 <= i < shapes.len() && (#[trigger] shapes[i]).accepts(fits, s);
            assert(i == 0 || i == 1);
        }
    }
}

proof fn lemma_reasoning_prefix(prompt_opened_thought: bool, fits: SchemaTexts, s: Seq<char>)
    ensures
        reasoning_prefix_format(prompt_opened_thought).accepts(fits, s) <==> s.len() == 0
            || is_thinking(prompt_opened_thought, s),
{
    let begin = thought_begin(prompt_opened_thought);
    let prefix = reasoning_prefix_format(prompt_opened_thought);
    let block = *prefix->Optional_0;
    lemma_tag(begin, Format::AnyText, GEMMA4_REASONING_END@, fits, s);
    assert(prefix.accepts(fits, s) == (s.len() == 0 || block.accepts(fits, s)));
    if is_thinking(prompt_opened_thought, s) {
        let thought = choose|thought: Seq<char>|
            up_to_first(thought, GEMMA4_REASONING_END@) && s == #[trigger] (begin + thought
                + GEMMA4_REASONING_END@);
        assert(fills_tag(Format::AnyText, GEMMA4_REASONING_END@, fits, thought));
    }
}

/// The turn that the tag admits: at the start a thinking block, where that is allowed, or
/// nothing; then a message that fits the schema with calls behind it or not, or calls alone.
/// Calls alone are admitted beside a schema only on request. Several calls are admitted only
/// where parallel calls are allowed. Under a forced choice there is one call, and no message.
pub proof fn law_turn_language(
    tools: Seq<Tool>,
    content_schema: Option<JsonTree>,
    tools_mandatory: bool,
    allow_reasoning: bool,
    allow_tool_only_turn: bool,
    allow_parallel_calls: bool,
    prompt_opened_thought: bool,
    fits: SchemaTexts,
    s: Seq<char>,
)
    ensures
        turn_format(
            tools,
            content_schema,
            tools_mandatory,
            allow_reasoning,
            allow_tool_only_turn,
            allow_parallel_calls,
            prompt_opened_thought,
        ).accepts(fits, s) <==> exists|n: int|
            is_turn(
                tools,
                content_schema,
                tools_mandatory,
                allow_reasoning,
                allow_tool_only_turn,
                allow_parallel_calls,
                prompt_opened_thought,
                fits,
                s,
                n,
            ),
{
    let body = body_format(
        tools,
        content_schema,
        tools_mandatory,
        allow_tool_only_turn,
        allow_parallel_calls,
    );
    let format = turn_format(
        tools,
        content_schema,
        tools_mandatory,
        allow_reasoning,
        allow_tool_only_turn,
        allow_parallel_calls,
        prompt_opened_thought,
    );
    let prefix = reasoning_prefix_format(prompt_opened_thought);
    assert forall|n: int| 0 <= n <= s.len() implies #[trigger] is_turn(
        tools,
        content_schema,
        tools_mandatory,
        allow_reasoning,
        allow_tool_only_turn,
        allow_parallel_calls,
        prompt_opened_thought,
        fits,
        s,
        n,
    ) == ((n == 0 || allow_reasoning && prefix.accepts(fits, s.take(n))) && body.accepts(
        fits,
        s.skip(n),
    )) by {
        lemma_turn_body(
            tools,
            content_schema,
            tools_mandatory,
            allow_tool_only_turn,
            allow_parallel_calls,
            fits,
            s.skip(n),
        );
        lemma_reasoning_prefix(prompt_opened_thought, fits, s.take(n));
    }
    assert(s.skip(0) =~= s);
    lemma_reasoning_prefix(prompt_opened_thought, fits, s.take(0));
    lemma_in_turn_two(prefix, body, fits, s);
    if format.accepts(fits, s) {
        let n = if allow_reasoning {
            choose|n: int|
                0 <= n <= s.len() && prefix.accepts(fits, #[trigger] s.take(n)) && body.accepts(
                    fits,
                    s.skip(n),
                )
        } else {
            0
        };
        assert(is_turn(
            tools,
            content_schema,
            tools_mandatory,
            allow_reasoning,
            allow_tool_only_turn,
            allow_parallel_calls,
            prompt_opened_thought,
            fits,
            s,
            n,
        ));
    }
    if exists|n: int|
        is_turn(
            tools,
            content_schema,
            tools_mandatory,
            allow_reasoning,
            allow_tool_only_turn,
            allow_parallel_calls,
            prompt_opened_thought,
            fits,
            s,
            n,
        ) {
        let n = choose|n: int|
            is_turn(
                tools,
                content_schema,
                tools_mandatory,
                allow_reasoning,
                allow_tool_only_turn,
                allow_parallel_calls,
                prompt_opened_thought,
                fits,
                s,
                n,
            );
        assert(body.accepts(fits, s.skip(n)));
        if allow_reasoning {
            assert(prefix.accepts(fits, s.take(n)));
        }
    }
}

/// Under a forced choice the schema, turns of calls alone and parallel calls make no
/// difference: the turn is one call behind its reasoning.
pub proof fn law_forced_choice_is_one_call(
    tools: Seq<Tool>,
    content_schema: Option<JsonTree>,
    allow_reasoning: bool,
    allow_tool_only_turn: bool,
    allow_parallel_calls: bool,
    prompt_opened_thought: bool,
)
    ensures
        turn_format(
            tools,
            content_schema,
            true,
            allow_reasoning,
            allow_tool_only_turn,
            allow_parallel_calls,
            prompt_opened_thought,
        ) == turn_format(tools, None, true, allow_reasoning, false, false, prompt_opened_thought),
        body_format(tools, content_schema, true, allow_tool_only_turn, allow_parallel_calls)
            == single_tool_call_format(tools),
{
}

/// Unless a call is forced, a message that fits the schema may be the whole turn.
pub proof fn law_message_may_stand_alone(
    tools: Seq<Tool>,
    schema: JsonTree,
    allow_reasoning: bool,
    allow_tool_only_turn: bool,
    allow_parallel_calls: bool,
    prompt_opened_thought: bool,
    fits: SchemaTexts,
    message: Seq<char>,
)
    requires
        fits(schema, message),
    ensures
        turn_format(
            tools,
            Some(schema),
            false,
            allow_reasoning,
            allow_tool_only_turn,
            allow_parallel_calls,
            prompt_opened_thought,
        ).accepts(fits, message),
{
    law_turn_language(
        tools,
        Some(schema),
        false,
        allow_reasoning,
        allow_tool_only_turn,
        allow_parallel_calls,
        prompt_opened_thought,
        fits,
        message,
    );
    let n = message.len() as int;
    assert(message.take(n) =~= message);
    assert(message.skip(n).len() == 0);
    assert(is_message(tools, schema, allow_parallel_calls, fits, message));
    assert(message.skip(0) =~= message);
    assert(is_turn(
        tools,
        Some(schema),
        false,
        allow_reasoning,
        allow_tool_only_turn,
        allow_parallel_calls,
        prompt_opened_thought,
        fits,
        message,
        0,
    ));
}

/// The opener of the thinking block is always constrained unless the prompt opened it: a turn
/// starts with that opener, where reasoning is allowed, or with the marker of a call, or with a
/// message that fits the schema, where there is one and no call is forced.
pub proof fn law_legal_starts(
    tools: Seq<Tool>,
    content_schema: Option<JsonTree>,
    tools_mandatory: bool,
    allow_reasoning: bool,
    allow_tool_only_turn: bool,
    allow_parallel_calls: bool,
    fits: SchemaTexts,
    s: Seq<char>,
)
    requires
        turn_format(
            tools,
            content_schema,
            tools_mandatory,
            allow_reasoning,
            allow_tool_only_turn,
            allow_parallel_calls,
            false,
        ).accepts(fits, s),
    ensures
        ({
            ||| allow_reasoning && starts_with(s, GEMMA4_THOUGHT_BEGIN@)
            ||| starts_with(s, GEMMA4_TOOL_CALL_BEGIN@)
            ||| !tools_mandatory && content_schema is Some && exists|n: int|
                0 <= n <= s.len() && fits(content_schema->0, #[trigger] s.take(n))
        }),
{
    law_turn_language(
        tools,
        content_schema,
        tools_mandatory,
        allow_reasoning,
        allow_tool_only_turn,
        allow_parallel_calls,
        false,
        fits,
        s,
    );
    let n = choose|n: int|
        is_turn(
            tools,
            content_schema,
            tools_mandatory,
            allow_reasoning,
            allow_tool_only_turn,
            allow_parallel_calls,
            false,
            fits,
            s,
            n,
        );
    if n == 0 {
        assert(s.skip(0) =~= s);
        if is_turn_calls(tools, false, fits, s) {
            lemma_turn_calls_begin(tools, false, fits, s);
        }
        if is_turn_calls(tools, allow_parallel_calls, fits, s) {
            lemma_turn_calls_begin(tools, allow_parallel_calls, fits, s);
        }
        if content_schema is Some && is_message(
            tools,
            content_schema->0,
            allow_parallel_calls,
            fits,
            s,
        ) {
            let m = choose|m: int|
                0 <= m <= s.len() && fits(content_schema->0, #[trigger] s.take(m)) && (s.skip(
                    m,
                ).len() == 0 || is_turn_calls(tools, allow_parallel_calls, fits, s.skip(m)));
            assert(fits(content_schema->0, s.take(m)));
        }
    } else {
        let opener = GEMMA4_THOUGHT_BEGIN@;
        let block = s.take(n);
        let thought = choose|thought: Seq<char>|
            up_to_first(thought, GEMMA4_REASONING_END@) && block == #[trigger] (thought_begin(false)
                + thought + GEMMA4_REASONING_END@);
        assert(block.len() == opener.len() + thought.len() + GEMMA4_REASONING_END@.len());
        assert(s.take(opener.len() as int) =~= block.take(opener.len() as int));
        assert(block.take(opener.len() as int) =~= opener);
    }
}

/// Empty output is admitted only where a schema that the empty text fits may be answered.
pub proof fn law_no_empty_turn(
    tools: Seq<Tool>,
    content_schema: Option<JsonTree>,
    tools_mandatory: bool,
    allow_reasoning: bool,
    allow_tool_only_turn: bool,
    allow_parallel_calls: bool,
    prompt_opened_thought: bool,
    fits: SchemaTexts,
)
    ensures
        turn_format(
            tools,
            content_schema,
            tools_mandatory,
            allow_reasoning,
            allow_tool_only_turn,
            allow_parallel_calls,
            prompt_opened_thought,
        ).accepts(fits, Seq::empty()) ==> !tools_mandatory && content_schema is Some && fits(
            content_schema->0,
            Seq::empty(),
        ),
{
    let s = Seq::<char>::empty();
    let format = turn_format(
        tools,
        content_schema,
        tools_mandatory,
        allow_reasoning,
        allow_tool_only_turn,
        allow_parallel_calls,
        prompt_opened_thought,
    );
    law_turn_language(
        tools,
        content_schema,
        tools_mandatory,
        allow_reasoning,
        allow_tool_only_turn,
        allow_parallel_calls,
        prompt_opened_thought,
        fits,
        s,
    );
    if format.accepts(fits, s) {
        assert(s.skip(0) =~= s);
        assert(s.take(0) =~= s);
        if is_turn_calls(tools, false, fits, s) {
            lemma_turn_calls_begin(tools, false, fits, s);
        }
        if is_turn_calls(tools, allow_parallel_calls, fits, s) {
            lemma_turn_calls_begin(tools, allow_parallel_calls, fits, s);
        }
    }
}

/// Each tool has its own slot, in the order of the tools. Where a call is asked for there is one
/// branch for each tool, and in it that tool's slot has to be filled.
pub proof fn law_each_tool_has_its_slot(
    tools: Seq<Tool>,
    fits: SchemaTexts,
    i: int,
    j: int,
    s: Seq<char>,
)
    requires
        0 <= i < tools.len(),
        0 <= j < tools.len(),
    ensures
        ({
            let slots = tool_calls_format(tools, false);
            &&& slots is Sequence
            &&& slots->Sequence_0.len() == tools.len()
            &&& slots->Sequence_0[j].accepts(fits, s) <==> s.len() == 0 || is_call(
                tools[j],
                fits,
                s,
            )
        }),
        ({
            let choice = tool_calls_format(tools, true);
            let branch = if tools.len() == 1 {
                choice
            } else {
                choice->Or_0[i]
            };
            &&& tools.len() > 1 ==> choice is Or && choice->Or_0.len() == tools.len()
            &&& branch is Sequence
            &&& branch->Sequence_0.len() == tools.len()
            &&& branch->Sequence_0[j].accepts(fits, s) <==> i != j && s.len() == 0 || is_call(
                tools[j],
                fits,
                s,
            )
        }),
        ({
            let single = single_tool_call_format(tools);
            &&& single is TagsWithSeparator
            &&& single->TagsWithSeparator_at_least_one
            &&& single->TagsWithSeparator_stop_after_first
            &&& single->TagsWithSeparator_separator.len() == 0
            &&& single->TagsWithSeparator_tags.len() == tools.len()
            &&& single->TagsWithSeparator_tags[j].accepts(fits, s) <==> is_call(tools[j], fits, s)
        }),
{
    reveal_strlit("");
    law_tool_tag_language(tools[j], fits, s);
    let tag = tool_tag_format(tools[j]);
    assert(Format::Optional(Box::new(tag)).accepts(fits, s) <==> s.len() == 0 || tag.accepts(
        fits,
        s,
    ));
    assert(slot_branches(tools)[i] == Format::Sequence(tool_slots(tools, i)));
}

/// A call is the marker and the name, the grammar of the arguments, and the end marker, and the
/// arguments of two tools with the same parameters have the same grammar.
pub proof fn law_tags_differ_in_the_name_alone(a: Tool, b: Tool)
    requires
        a.parameters == b.parameters,
    ensures
        tool_tag_format(a) is Tag,
        tool_tag_format(a)->begin == GEMMA4_TOOL_CALL_BEGIN@ + a.name,
        tool_tag_format(a)->content == tool_tag_format(b)->content,
        tool_tag_format(a)->Tag_end == GEMMA4_TOOL_CALL_END@,
        *tool_tag_format(a)->content == tool_args_format(a.parameters),
{
}

/// How turns under different flags relate. Reasoning puts the same prefix before the same turn,
/// and whether the prompt opened the thought matters for that prefix alone. A turn of calls alone
/// is one choice more. A schema puts a message before the calls, which then need not come. A forced
/// choice is as if there were no schema and no parallel calls.
pub proof fn law_turns_relate(
    tools: Seq<Tool>,
    schema: JsonTree,
    content_schema: Option<JsonTree>,
    mandatory: bool,
    tool_only: bool,
    parallel: bool,
    opened: bool,
)
    ensures
        turn_format(tools, content_schema, mandatory, true, tool_only, parallel, opened)
            == Format::Sequence(
            seq![
                Format::Optional(
                    Box::new(
                        Format::Tag {
                            begin: if opened {
                                Seq::empty()
                            } else {
                                GEMMA4_THOUGHT_BEGIN@
                            },
                            content: Box::new(Format::AnyText),
                            end: GEMMA4_REASONING_END@,
                        },
                    ),
                ),
                turn_format(tools, content_schema, mandatory, false, tool_only, parallel, false),
            ],
        ),
        turn_format(tools, content_schema, mandatory, false, tool_only, parallel, opened)
            == turn_format(tools, content_schema, mandatory, false, tool_only, parallel, !opened),
        turn_format(tools, content_schema, true, false, tool_only, parallel, opened)
            == turn_format(tools, None, false, false, false, false, opened),
        turn_format(tools, Some(schema), false, false, true, parallel, opened) == Format::Or(
            seq![
                turn_format(tools, Some(schema), false, false, false, parallel, opened),
                turn_format(tools, None, false, false, false, parallel, opened),
            ],
        ),
        turn_format(tools, Some(schema), false, false, false, parallel, opened)
            == Format::Sequence(
            seq![
                Format::JsonSchema(schema),
                if parallel {
                    tool_calls_format(tools, false)
                } else {
                    Format::Optional(
                        Box::new(turn_format(tools, None, false, false, false, false, opened)),
                    )
                },
            ],
        ),
        turn_format(tools, None, false, false, tool_only, parallel, opened) == if parallel {
            tool_calls_format(tools, true)
        } else {
            single_tool_call_format(tools)
        },
{
    reveal_strlit("");
    assert(""@ =~= Seq::empty());
}

} // verus!
