//! Which texts are arguments for a tool, said of the entries of its schema.
use crate::args::{
    arg_formats, dispatch_rules, exact_args_fit, exact_args_format, exact_branches, exact_orders,
    exact_tier, is_declared, is_optional_slot, is_required_slot, lemma_dispatch_rules_value,
    nonempty_value_format, required_names, required_string_keys, slot_format, tool_args_format,
};
use crate::args_language::{
    admissible_values, body_text, complete_order, law_empty_required_string_is_refused,
    law_exact_args_language, law_required_key_appears, stands_in,
};
use crate::format::{Format, Pattern};
use crate::json::{JsonTree, entry_is, law_field_is_the_first_entry};
use crate::language::{SchemaTexts, first_trigger_ends, lemma_in_turn_two, trigger_ends};
use crate::markers::GEMMA4_STRING_DELIM;
use crate::schema::{
    is_required, is_required_string, is_simple, is_value, law_required_names_are_the_items,
    law_required_strings_are_required_and_strings, law_required_strings_keep_the_order,
    law_values_follow_the_type,
};
use vstd::prelude::*;

verus! {

/// Whether there are one to four properties, each of a simple type, and each of `names` is that
/// of one of them.
pub open spec fn fits_exactly(
    properties: Seq<(Seq<char>, JsonTree)>,
    names: Seq<Seq<char>>,
) -> bool {
    &&& 1 <= properties.len() <= 4
    &&& forall|i: int| 0 <= i < properties.len() ==> is_simple((#[trigger] properties[i]).1)
    &&& forall|name: Seq<char>| #[trigger]
        names.contains(name) ==> exists|i: int|
            0 <= i < properties.len() && (#[trigger] properties[i]).0 == name
}

/// Whether the text is, in braces, `key:value` for the properties that `order` names: none of
/// them twice, every one whose key is among `names`, and each with one of `values`, which is a
/// value of its type.
pub open spec fn spells_body(
    properties: Seq<(Seq<char>, JsonTree)>,
    names: Seq<Seq<char>>,
    order: Seq<usize>,
    values: Seq<Seq<char>>,
    s: Seq<char>,
) -> bool {
    &&& order.no_duplicates()
    &&& forall|k: int| 0 <= k < order.len() ==> #[trigger] order[k] < properties.len()
    &&& forall|i: usize|
        i < properties.len() && names.contains(properties[i as int].0)
            ==> #[trigger] order.contains(i)
    &&& values.len() == order.len()
    &&& forall|k: int|
        0 <= k < order.len() ==> is_value(
            properties[order[k] as int].1,
            names.contains(properties[order[k] as int].0),
            #[trigger] values[k],
        )
    &&& s == body_text(properties, order, values)
}

/// Whether the text is a body for these properties, of which those in `names` are required.
pub open spec fn is_body(
    properties: Seq<(Seq<char>, JsonTree)>,
    names: Seq<Seq<char>>,
    s: Seq<char>,
) -> bool {
    exists|order: Seq<usize>, values: Seq<Seq<char>>| #[trigger]
        spells_body(properties, names, order, values, s)
}

/// The exact grammar can be written if and only if there are one to four properties, each of a
/// simple type, and none is required that is not one of them. It then admits the bodies for
/// them, and nothing else.
pub proof fn law_exact_grammar_admits_the_bodies(
    properties: Seq<(Seq<char>, JsonTree)>,
    names: Seq<Seq<char>>,
    fits: SchemaTexts,
    s: Seq<char>,
)
    ensures
        exact_args_format(properties, names) is Some <==> fits_exactly(properties, names),
        exact_args_format(properties, names) is Some ==> (exact_args_format(
            properties,
            names,
        )->0.accepts(fits, s) <==> is_body(properties, names, s)),
{
    assert forall|i: int| 0 <= i < properties.len() implies (#[trigger] slot_format(
        properties,
        names,
        i,
    )) is Some == is_simple(properties[i].1) by {
        law_values_follow_the_type(properties[i].1, names.contains(properties[i].0), fits, s);
    }
    if exact_args_fit(properties, names) {
        assert forall|i: int| 0 <= i < properties.len() implies is_simple(
            (#[trigger] properties[i]).1,
        ) by {
            assert(slot_format(properties, names, i) is Some);
        }
        assert forall|name: Seq<char>| #[trigger] names.contains(name) implies exists|i: int|
            0 <= i < properties.len() && (#[trigger] properties[i]).0 == name by {
            assert(is_declared(properties, names[names.index_of(name)]));
        }
        lemma_exact_bodies(properties, names, fits, s);
    }
    if fits_exactly(properties, names) {
        assert forall|k: int| 0 <= k < names.len() implies #[trigger] is_declared(
            properties,
            names[k],
        ) by {
            assert(names.contains(names[k]));
        }
        assert(exact_args_fit(properties, names));
    }
}

proof fn lemma_exact_bodies(
    properties: Seq<(Seq<char>, JsonTree)>,
    names: Seq<Seq<char>>,
    fits: SchemaTexts,
    s: Seq<char>,
)
    requires
        exact_args_fit(properties, names),
    ensures
        exact_args_format(properties, names)->0.accepts(fits, s) <==> is_body(
            properties,
            names,
            s,
        ),
{
    law_exact_args_language(properties, names, fits, s);
    if exact_args_format(properties, names)->0.accepts(fits, s) {
        let (order, values) = choose|order: Seq<usize>, values: Seq<Seq<char>>|
            {
                &&& complete_order(properties, names, order)
                &&& admissible_values(properties, names, fits, order, values)
                &&& s == #[trigger] body_text(properties, order, values)
            };
        assert forall|k: int| 0 <= k < order.len() implies is_value(
            properties[order[k] as int].1,
            names.contains(properties[order[k] as int].0),
            #[trigger] values[k],
        ) by {
            let i = order[k] as int;
            assert(order[k] < properties.len());
            assert(slot_format(properties, names, i) is Some);
            law_values_follow_the_type(
                properties[i].1,
                names.contains(properties[i].0),
                fits,
                values[k],
            );
        }
        assert(spells_body(properties, names, order, values, s));
    }
    if is_body(properties, names, s) {
        let (order, values) = choose|order: Seq<usize>, values: Seq<Seq<char>>| #[trigger]
            spells_body(properties, names, order, values, s);
        assert forall|k: int| 0 <= k < order.len() implies slot_format(
            properties,
            names,
            order[k] as int,
        )->0.accepts(fits, #[trigger] values[k]) by {
            let i = order[k] as int;
            assert(order[k] < properties.len());
            assert(slot_format(properties, names, i) is Some);
            law_values_follow_the_type(
                properties[i].1,
                names.contains(properties[i].0),
                fits,
                values[k],
            );
        }
        assert(complete_order(properties, names, order));
        assert(admissible_values(properties, names, fits, order, values));
    }
}

/// Whether `names` are the names of the arguments that the schema requires, in any order.
pub open spec fn lists_required(parameters: JsonTree, names: Seq<Seq<char>>) -> bool {
    forall|name: Seq<char>| #[trigger] names.contains(name) <==> is_required(parameters, name)
}

/// Whether the schema has these properties and requires these names, and the two fit the exact
/// grammar.
pub open spec fn is_exact_as(
    parameters: JsonTree,
    properties: Seq<(Seq<char>, JsonTree)>,
    names: Seq<Seq<char>>,
) -> bool {
    &&& entry_is(parameters, "properties"@, JsonTree::Object(properties))
    &&& lists_required(parameters, names)
    &&& fits_exactly(properties, names)
}

/// Whether the exact grammar can be written for the schema.
pub open spec fn is_exact(parameters: JsonTree) -> bool {
    exists|properties: Seq<(Seq<char>, JsonTree)>, names: Seq<Seq<char>>| #[trigger]
        is_exact_as(parameters, properties, names)
}

/// Whether the text is a body for what the schema declares and requires.
pub open spec fn is_exact_body(parameters: JsonTree, s: Seq<char>) -> bool {
    exists|properties: Seq<(Seq<char>, JsonTree)>, names: Seq<Seq<char>>| #[trigger]
        is_exact_as(parameters, properties, names) && is_body(properties, names, s)
}

/// Whether a required string is begun up to `at`: its name, a colon, a space or none, and the
/// delimiter end there.
pub open spec fn is_begun(parameters: JsonTree, s: Seq<char>, at: int) -> bool {
    exists|name: Seq<char>, gap: Seq<char>|
        {
            &&& is_required_string(parameters, name)
            &&& gap == seq![':'] || gap == seq![':', ' ']
            &&& (name + gap + GEMMA4_STRING_DELIM@).len() <= at <= s.len()
            &&& s.subrange(at - (name + gap + GEMMA4_STRING_DELIM@).len(), at)
                == #[trigger] (name + gap + GEMMA4_STRING_DELIM@)
        }
}

/// Whether a required string is begun up to `at`, and none before.
pub open spec fn is_first_begun(parameters: JsonTree, s: Seq<char>, at: int) -> bool {
    &&& is_begun(parameters, s, at)
    &&& forall|before: int| #[trigger] is_begun(parameters, s, before) ==> at <= before
}

/// Whether no required string is left empty once it is begun: none is, or behind the first
/// something comes before a closing delimiter, and behind that the same holds again.
pub open spec fn is_guarded(parameters: JsonTree, s: Seq<char>) -> bool
    decreases s.len(),
{
    ||| forall|at: int| !(#[trigger] is_begun(parameters, s, at))
    ||| exists|at: int, close: int|
        {
            &&& #[trigger] is_first_begun(parameters, s, at)
            &&& 0 <= at < close
            &&& close + GEMMA4_STRING_DELIM@.len() <= s.len()
            &&& #[trigger] s.subrange(close, close + GEMMA4_STRING_DELIM@.len())
                == GEMMA4_STRING_DELIM@
            &&& is_guarded(parameters, s.skip(close + GEMMA4_STRING_DELIM@.len()))
        }
}

/// Whether the arguments are not constrained: there is no schema, or it neither fits the exact
/// grammar nor requires a string.
pub open spec fn is_unconstrained(parameters: Option<JsonTree>) -> bool {
    match parameters {
        Some(p) => !is_exact(p) && forall|name: Seq<char>| !(#[trigger] is_required_string(p, name)),
        None => true,
    }
}

/// Whether the text may be the arguments of a call.
pub open spec fn are_arguments(parameters: Option<JsonTree>, s: Seq<char>) -> bool {
    match parameters {
        Some(p) => if is_exact(p) {
            is_exact_body(p, s)
        } else if is_unconstrained(parameters) {
            true
        } else {
            is_guarded(p, s)
        },
        None => true,
    }
}

/// Lists with the same members are as good for what is required.
proof fn lemma_same_names(
    properties: Seq<(Seq<char>, JsonTree)>,
    a: Seq<Seq<char>>,
    b: Seq<Seq<char>>,
    s: Seq<char>,
)
    requires
        forall|name: Seq<char>| #[trigger] a.contains(name) <==> b.contains(name),
    ensures
        fits_exactly(properties, a) ==> fits_exactly(properties, b),
        is_body(properties, a, s) ==> is_body(properties, b, s),
{
    if fits_exactly(properties, a) {
        assert forall|name: Seq<char>| #[trigger] b.contains(name) implies exists|i: int|
            0 <= i < properties.len() && (#[trigger] properties[i]).0 == name by {
            assert(a.contains(name));
        }
    }
    if is_body(properties, a, s) {
        let (order, values) = choose|order: Seq<usize>, values: Seq<Seq<char>>| #[trigger]
            spells_body(properties, a, order, values, s);
        assert forall|k: int| 0 <= k < order.len() implies is_value(
            properties[order[k] as int].1,
            b.contains(properties[order[k] as int].0),
            #[trigger] values[k],
        ) by {
            let name = properties[order[k] as int].0;
            assert(a.contains(name) == b.contains(name));
        }
        assert forall|i: usize|
            i < properties.len() && b.contains(properties[i as int].0) implies
            #[trigger] order.contains(i) by {
            assert(a.contains(properties[i as int].0));
        }
        assert(spells_body(properties, b, order, values, s));
    }
}

proof fn lemma_exact_tier(parameters: JsonTree, fits: SchemaTexts, s: Seq<char>)
    ensures
        exact_tier(parameters) is Some <==> is_exact(parameters),
        exact_tier(parameters) is Some ==> (exact_tier(parameters)->0.accepts(fits, s)
            <==> is_exact_body(parameters, s)),
{
    let needed = required_names(parameters);
    assert forall|name: Seq<char>| #[trigger] needed.contains(name) <==> is_required(
        parameters,
        name,
    ) by {
        law_required_names_are_the_items(parameters, name);
    }
    assert(lists_required(parameters, needed));
    if exact_tier(parameters) is Some {
        let properties = parameters.field("properties"@)->0->Object_0;
        law_field_is_the_first_entry(parameters, "properties"@, JsonTree::Object(properties));
        law_exact_grammar_admits_the_bodies(properties, needed, fits, s);
        assert(is_exact_as(parameters, properties, needed));
        if is_exact_body(parameters, s) {
            let (others, names) = choose|
                others: Seq<(Seq<char>, JsonTree)>,
                names: Seq<Seq<char>>,
            | #[trigger]
                is_exact_as(parameters, others, names) && is_body(others, names, s);
            law_field_is_the_first_entry(parameters, "properties"@, JsonTree::Object(others));
            assert(others == properties);
            assert forall|name: Seq<char>| #[trigger] names.contains(name) <==> needed.contains(
                name,
            ) by {
                assert(needed.contains(name) <==> is_required(parameters, name));
            }
            lemma_same_names(properties, names, needed, s);
        }
    }
    if is_exact(parameters) {
        let (properties, names) = choose|
            properties: Seq<(Seq<char>, JsonTree)>,
            names: Seq<Seq<char>>,
        | #[trigger]
            is_exact_as(parameters, properties, names);
        law_field_is_the_first_entry(parameters, "properties"@, JsonTree::Object(properties));
        assert forall|name: Seq<char>| #[trigger] names.contains(name) <==> needed.contains(
            name,
        ) by {
            assert(needed.contains(name) <==> is_required(parameters, name));
        }
        lemma_same_names(properties, names, needed, s);
        law_exact_grammar_admits_the_bodies(properties, needed, fits, s);
    }
}

/// The rules are two for each key, in the order of the keys: the key, a colon and the delimiter,
/// and the same with a space. Each asks for something before a closing delimiter.
pub proof fn law_rules_are_two_for_each_key(
    keys: Seq<Seq<char>>,
    k: int,
    fits: SchemaTexts,
    s: Seq<char>,
)
    requires
        0 <= k < keys.len(),
    ensures
        dispatch_rules(keys).len() == 2 * keys.len(),
        dispatch_rules(keys)[2 * k].0 == keys[k] + seq![':'] + GEMMA4_STRING_DELIM@,
        dispatch_rules(keys)[2 * k + 1].0 == keys[k] + seq![':', ' '] + GEMMA4_STRING_DELIM@,
        forall|r: int|
            r == 2 * k || r == 2 * k + 1 ==> ((#[trigger] dispatch_rules(keys)[r]).1.accepts(fits, s)
                <==> GEMMA4_STRING_DELIM@.len() < s.len() && s.skip(
                s.len() - GEMMA4_STRING_DELIM@.len(),
            ) == GEMMA4_STRING_DELIM@),
    decreases keys.len(),
{
    let before = keys.drop_last();
    lemma_rules_count(before);
    reveal_strlit(":");
    reveal_strlit(": ");
    assert(":"@ =~= seq![':']);
    assert(": "@ =~= seq![':', ' ']);
    lemma_nonempty_value(fits, s);
    if k < before.len() {
        law_rules_are_two_for_each_key(before, k, fits, s);
        assert(before[k] == keys[k]);
        assert(dispatch_rules(keys)[2 * k] == dispatch_rules(before)[2 * k]);
        assert(dispatch_rules(keys)[2 * k + 1] == dispatch_rules(before)[2 * k + 1]);
    }
}

proof fn lemma_rules_count(keys: Seq<Seq<char>>)
    ensures
        dispatch_rules(keys).len() == 2 * keys.len(),
    decreases keys.len(),
{
    if keys.len() > 0 {
        lemma_rules_count(keys.drop_last());
    }
}

proof fn lemma_nonempty_value(fits: SchemaTexts, s: Seq<char>)
    ensures
        nonempty_value_format().accepts(fits, s) <==> GEMMA4_STRING_DELIM@.len() < s.len()
            && s.skip(s.len() - GEMMA4_STRING_DELIM@.len()) == GEMMA4_STRING_DELIM@,
{
    let delim = GEMMA4_STRING_DELIM@;
    let any = Format::Regex(Pattern::NonEmpty);
    let closer = Format::ConstString(delim);
    lemma_in_turn_two(any, closer, fits, s);
    if nonempty_value_format().accepts(fits, s) {
        let n = choose|n: int|
            0 <= n <= s.len() && any.accepts(fits, #[trigger] s.take(n)) && closer.accepts(
                fits,
                s.skip(n),
            );
        assert(s.skip(n).len() == delim.len());
        assert(n == s.len() - delim.len());
    }
    if delim.len() < s.len() && s.skip(s.len() - delim.len()) == delim {
        let n = s.len() - delim.len();
        assert(any.accepts(fits, s.take(n)));
        assert(closer.accepts(fits, s.skip(n)));
    }
}

/// A trigger ends where a required string is begun.
proof fn lemma_triggers(parameters: JsonTree, s: Seq<char>, at: int)
    ensures
        is_begun(parameters, s, at) <==> exists|r: int| #[trigger]
            trigger_ends(
                dispatch_rules(required_string_keys(Some(parameters))),
                s,
                r,
                at,
            ),
{
    let keys = required_string_keys(Some(parameters));
    let rules = dispatch_rules(keys);
    let fits: SchemaTexts = |schema: JsonTree, text: Seq<char>| true;
    if is_begun(parameters, s, at) {
        let (name, gap) = choose|name: Seq<char>, gap: Seq<char>|
            {
                &&& is_required_string(parameters, name)
                &&& gap == seq![':'] || gap == seq![':', ' ']
                &&& (name + gap + GEMMA4_STRING_DELIM@).len() <= at <= s.len()
                &&& s.subrange(at - (name + gap + GEMMA4_STRING_DELIM@).len(), at)
                    == #[trigger] (name + gap + GEMMA4_STRING_DELIM@)
            };
        law_required_strings_are_required_and_strings(parameters, name);
        let k = keys.index_of(name);
        law_rules_are_two_for_each_key(keys, k, fits, s);
        let r = if gap == seq![':'] {
            2 * k
        } else {
            2 * k + 1
        };
        assert(trigger_ends(rules, s, r, at));
    }
    if exists|r: int| #[trigger] trigger_ends(rules, s, r, at) {
        let r = choose|r: int| #[trigger] trigger_ends(rules, s, r, at);
        lemma_rules_count(keys);
        let k = r / 2;
        law_rules_are_two_for_each_key(keys, k, fits, s);
        assert(keys.contains(keys[k]));
        law_required_strings_are_required_and_strings(parameters, keys[k]);
        let gap = if r % 2 == 0 {
            seq![':']
        } else {
            seq![':', ' ']
        };
        assert(rules[r].0 == keys[k] + gap + GEMMA4_STRING_DELIM@);
    }
}

proof fn lemma_guarded(parameters: JsonTree, fits: SchemaTexts, s: Seq<char>)
    ensures
        Format::accepts_dispatched(
            dispatch_rules(required_string_keys(Some(parameters))),
            true,
            fits,
            s,
        ) <==> is_guarded(parameters, s),
    decreases s.len(),
{
    let keys = required_string_keys(Some(parameters));
    let rules = dispatch_rules(keys);
    let delim = GEMMA4_STRING_DELIM@;
    assert forall|at: int| #[trigger] is_begun(parameters, s, at) <==> exists|r: int| #[trigger]
        trigger_ends(rules, s, r, at) by {
        lemma_triggers(parameters, s, at);
    }
    lemma_rules_count(keys);
    reveal_strlit("<|\"|>");
    assert(delim.len() == 5);
    if Format::accepts_dispatched(rules, true, fits, s) {
        if exists|r: int, end: int| #[trigger] trigger_ends(rules, s, r, end) {
            let (r, at, end) = choose|r: int, at: int, end: int|
                {
                    &&& #[trigger] first_trigger_ends(rules, s, r, at)
                    &&& at <= end <= s.len()
                    &&& 0 < end
                    &&& rules[r].1.accepts(fits, #[trigger] s.subrange(at, end))
                    &&& Format::accepts_dispatched(rules, true, fits, s.skip(end))
                };
            assert(trigger_ends(rules, s, r, at));
            assert(is_begun(parameters, s, at));
            assert forall|before: int| #[trigger] is_begun(parameters, s, before) implies at
                <= before by {
                let q = choose|q: int| #[trigger] trigger_ends(rules, s, q, before);
                assert(trigger_ends(rules, s, q, before));
            }
            let value = s.subrange(at, end);
            law_rules_are_two_for_each_key(keys, r / 2, fits, value);
            assert(r == 2 * (r / 2) || r == 2 * (r / 2) + 1);
            assert(rules[r].1.accepts(fits, value));
            let close = end - delim.len();
            assert(s.subrange(close, close + delim.len()) =~= value.skip(
                value.len() - delim.len(),
            ));
            lemma_guarded(parameters, fits, s.skip(end));
            assert(is_first_begun(parameters, s, at));
            assert(is_guarded(parameters, s));
        } else {
            assert forall|at: int| !(#[trigger] is_begun(parameters, s, at)) by {}
        }
    }
    if is_guarded(parameters, s) {
        if exists|at: int| #[trigger] is_begun(parameters, s, at) {
            let (at, close) = choose|at: int, close: int|
                {
                    &&& #[trigger] is_first_begun(parameters, s, at)
                    &&& 0 <= at < close
                    &&& close + delim.len() <= s.len()
                    &&& #[trigger] s.subrange(close, close + delim.len()) == delim
                    &&& is_guarded(parameters, s.skip(close + delim.len()))
                };
            let r = choose|r: int| #[trigger] trigger_ends(rules, s, r, at);
            assert forall|q: int, e: int| #[trigger] trigger_ends(rules, s, q, e) implies at
                <= e by {
                assert(is_begun(parameters, s, e));
            }
            assert(first_trigger_ends(rules, s, r, at));
            let end = close + delim.len();
            let value = s.subrange(at, end);
            law_rules_are_two_for_each_key(keys, r / 2, fits, value);
            assert(r == 2 * (r / 2) || r == 2 * (r / 2) + 1);
            assert(value.skip(value.len() - delim.len()) =~= s.subrange(
                close,
                close + delim.len(),
            ));
            assert(rules[r].1.accepts(fits, value));
            lemma_guarded(parameters, fits, s.skip(end));
            assert(Format::accepts_dispatched(rules, true, fits, s));
        } else {
            assert forall|r: int, end: int| !(#[trigger] trigger_ends(rules, s, r, end)) by {
                assert(!is_begun(parameters, s, end));
            }
        }
    }
}

/// What the grammar of a tool's arguments admits, said of the entries of its schema alone: where
/// the schema fits the exact grammar, the bodies for what it declares and requires; else, where
/// it requires strings, the texts in which none of them is left empty once it is begun; else any
/// text.
pub proof fn law_grammar_admits_the_arguments(
    parameters: Option<JsonTree>,
    fits: SchemaTexts,
    s: Seq<char>,
)
    ensures
        tool_args_format(parameters).accepts(fits, s) <==> are_arguments(parameters, s),
        tool_args_format(parameters) is AnyText <==> is_unconstrained(parameters),
{
    if parameters is Some {
        let p = parameters->0;
        let keys = required_string_keys(parameters);
        lemma_exact_tier(p, fits, s);
        if exact_tier(p) is None {
            if keys.len() == 0 {
                assert forall|name: Seq<char>| !(#[trigger] is_required_string(p, name)) by {
                    law_required_strings_are_required_and_strings(p, name);
                }
            } else {
                law_required_strings_are_required_and_strings(p, keys[0]);
                assert(keys.contains(keys[0]));
                assert(is_required_string(p, keys[0]));
                lemma_guarded(p, fits, s);
                let rules = dispatch_rules(keys);
                assert((Format::Dispatch { rules, repeat: true }).accepts(fits, s)
                    <==> Format::accepts_dispatched(rules, true, fits, s));
            }
        }
    }
}

/// Of the entries of a schema only those under `properties` and `required` count: where two
/// schemas agree on these, the grammar of the arguments is the same.
pub proof fn law_only_properties_and_required_matter(a: JsonTree, b: JsonTree)
    requires
        forall|value: JsonTree|
            entry_is(a, "properties"@, value) <==> #[trigger] entry_is(b, "properties"@, value),
        forall|value: JsonTree|
            entry_is(a, "required"@, value) <==> #[trigger] entry_is(b, "required"@, value),
    ensures
        tool_args_format(Some(a)) == tool_args_format(Some(b)),
{
    lemma_same_field(a, b, "properties"@);
    lemma_same_field(a, b, "required"@);
}

proof fn lemma_same_field(a: JsonTree, b: JsonTree, key: Seq<char>)
    requires
        forall|value: JsonTree| entry_is(a, key, value) <==> #[trigger] entry_is(b, key, value),
    ensures
        a.field(key) == b.field(key),
{
    if a.field(key) is Some {
        let value = a.field(key)->0;
        law_field_is_the_first_entry(a, key, value);
        assert(entry_is(b, key, value));
        law_field_is_the_first_entry(b, key, value);
    } else if b.field(key) is Some {
        let value = b.field(key)->0;
        law_field_is_the_first_entry(b, key, value);
        assert(entry_is(b, key, value));
        law_field_is_the_first_entry(a, key, value);
    }
}

/// In which order and how often names are required makes no difference to the exact grammar.
pub proof fn law_order_of_required_makes_no_difference(
    properties: Seq<(Seq<char>, JsonTree)>,
    a: Seq<Seq<char>>,
    b: Seq<Seq<char>>,
)
    requires
        forall|name: Seq<char>| #[trigger] a.contains(name) <==> b.contains(name),
    ensures
        exact_args_format(properties, a) == exact_args_format(properties, b),
{
    let fits: SchemaTexts = |schema: JsonTree, text: Seq<char>| true;
    law_exact_grammar_admits_the_bodies(properties, a, fits, Seq::empty());
    law_exact_grammar_admits_the_bodies(properties, b, fits, Seq::empty());
    lemma_same_names(properties, a, b, Seq::empty());
    lemma_same_names(properties, b, a, Seq::empty());
    assert(is_required_slot(properties, a) =~= is_required_slot(properties, b));
    assert(is_optional_slot(properties, a) =~= is_optional_slot(properties, b));
    assert(arg_formats(properties, a) =~= arg_formats(properties, b)) by {
        assert forall|i: int| 0 <= i < properties.len() implies slot_format(properties, a, i)
            == #[trigger] slot_format(properties, b, i) by {
            assert(a.contains(properties[i].0) == b.contains(properties[i].0));
        }
    }
    assert(exact_orders(properties, a) == exact_orders(properties, b));
    assert(exact_branches(properties, a) == exact_branches(properties, b));
}

/// The exact grammar of a schema is that of its properties and of the names that it requires, in
/// whatever order these are listed.
pub proof fn law_exact_schema_has_the_exact_grammar(
    parameters: JsonTree,
    properties: Seq<(Seq<char>, JsonTree)>,
    names: Seq<Seq<char>>,
)
    requires
        is_exact_as(parameters, properties, names),
    ensures
        Some(tool_args_format(Some(parameters))) == exact_args_format(properties, names),
{
    let needed = required_names(parameters);
    let fits: SchemaTexts = |schema: JsonTree, text: Seq<char>| true;
    assert forall|name: Seq<char>| #[trigger] names.contains(name) <==> needed.contains(name) by {
        law_required_names_are_the_items(parameters, name);
    }
    law_field_is_the_first_entry(parameters, "properties"@, JsonTree::Object(properties));
    law_order_of_required_makes_no_difference(properties, names, needed);
    lemma_exact_tier(parameters, fits, Seq::empty());
}

/// Guards come in the order of the list under `required`: of two lists in a row, first those of
/// the one and then those of the other.
pub proof fn law_guards_keep_the_order(
    first: JsonTree,
    second: JsonTree,
    both: JsonTree,
    properties: JsonTree,
    a: Seq<JsonTree>,
    b: Seq<JsonTree>,
)
    requires
        entry_is(first, "properties"@, properties),
        entry_is(second, "properties"@, properties),
        entry_is(both, "properties"@, properties),
        entry_is(first, "required"@, JsonTree::Array(a)),
        entry_is(second, "required"@, JsonTree::Array(b)),
        entry_is(both, "required"@, JsonTree::Array(a + b)),
        tool_args_format(Some(first)) is Dispatch,
        tool_args_format(Some(second)) is Dispatch,
        tool_args_format(Some(both)) is Dispatch,
    ensures
        tool_args_format(Some(both))->Dispatch_rules == tool_args_format(
            Some(first),
        )->Dispatch_rules + tool_args_format(Some(second))->Dispatch_rules,
        tool_args_format(Some(both))->Dispatch_repeat,
        a.len() == 1 && a[0] is Text ==> {
            let rules = tool_args_format(Some(first))->Dispatch_rules;
            &&& rules.len() == 2
            &&& rules[0].0 == a[0]->Text_0 + seq![':'] + GEMMA4_STRING_DELIM@
            &&& rules[1].0 == a[0]->Text_0 + seq![':', ' '] + GEMMA4_STRING_DELIM@
            &&& rules[0].1 == rules[1].1
        },
{
    law_required_strings_keep_the_order(first, second, both, properties, a, b);
    lemma_rules_add(required_string_keys(Some(first)), required_string_keys(Some(second)));
    if a.len() == 1 && a[0] is Text {
        let keys = required_string_keys(Some(first));
        let fits: SchemaTexts = |schema: JsonTree, text: Seq<char>| true;
        assert(keys.len() > 0);
        assert(keys =~= seq![a[0]->Text_0]);
        law_rules_are_two_for_each_key(keys, 0, fits, Seq::empty());
        lemma_dispatch_rules_value(keys);
    }
}

proof fn lemma_rules_add(a: Seq<Seq<char>>, b: Seq<Seq<char>>)
    ensures
        dispatch_rules(a + b) == dispatch_rules(a) + dispatch_rules(b),
    decreases b.len(),
{
    if b.len() == 0 {
        assert(a + b =~= a);
        assert(dispatch_rules(a + b) =~= dispatch_rules(a) + dispatch_rules(b));
    } else {
        assert((a + b).drop_last() =~= a + b.drop_last());
        lemma_rules_add(a, b.drop_last());
        assert(dispatch_rules(a + b) =~= dispatch_rules(a) + dispatch_rules(b));
    }
}

/// An argument that the schema requires stands in every text that is admitted, where the schema
/// fits the exact grammar: its name is an item of the list under `required`, whatever other
/// entries there are, and so it and its colon are in the text. A call without arguments is not
/// admitted.
pub proof fn law_required_arguments_appear(
    parameters: JsonTree,
    name: Seq<char>,
    fits: SchemaTexts,
    s: Seq<char>,
)
    requires
        is_exact(parameters),
        is_required(parameters, name),
    ensures
        tool_args_format(Some(parameters)).accepts(fits, s) ==> stands_in(name + seq![':'], s),
        !tool_args_format(Some(parameters)).accepts(fits, seq!['{', '}']),
{
    let (properties, names) = choose|
        properties: Seq<(Seq<char>, JsonTree)>,
        names: Seq<Seq<char>>,
    | #[trigger]
        is_exact_as(parameters, properties, names);
    law_exact_schema_has_the_exact_grammar(parameters, properties, names);
    assert(names.contains(name));
    law_required_key_appears(properties, names, fits, s, name);
    reveal_strlit(":");
    reveal_strlit("{}");
    assert(":"@ =~= seq![':']);
    assert("{}"@ =~= seq!['{', '}']);
}

/// A string that the schema requires is not admitted with an empty value: neither where the
/// schema fits the exact grammar, nor elsewhere if the name holds no delimiter.
pub proof fn law_required_strings_are_not_empty(
    parameters: JsonTree,
    name: Seq<char>,
    fits: SchemaTexts,
)
    requires
        is_required_string(parameters, name),
        is_exact(parameters) || !stands_in(GEMMA4_STRING_DELIM@, name),
    ensures
        !tool_args_format(Some(parameters)).accepts(
            fits,
            seq!['{'] + name + seq![':'] + GEMMA4_STRING_DELIM@ + GEMMA4_STRING_DELIM@ + seq!['}'],
        ),
{
    law_required_strings_are_required_and_strings(parameters, name);
    lemma_exact_tier(parameters, fits, Seq::empty());
    law_empty_required_string_is_refused(parameters, name, fits);
    reveal_strlit(":");
    reveal_strlit("{");
    reveal_strlit("}");
    assert(":"@ =~= seq![':'] && "{"@ =~= seq!['{'] && "}"@ =~= seq!['}']);
}

/// Whether the exact grammar can be written is a matter of each property by itself, and of there
/// being four at most.
pub proof fn law_properties_fit_one_by_one(properties: Seq<(Seq<char>, JsonTree)>)
    ensures
        exact_args_format(properties, Seq::empty()) is Some <==> 1 <= properties.len() <= 4
            && forall|i: int|
            0 <= i < properties.len() ==> exact_args_format(
                seq![#[trigger] properties[i]],
                Seq::empty(),
            ) is Some,
{
    let none = Seq::<Seq<char>>::empty();
    assert forall|i: int| 0 <= i < properties.len() implies (exact_args_format(
        seq![#[trigger] properties[i]],
        none,
    ) is Some <==> slot_format(properties, none, i) is Some) by {
        let one = seq![properties[i]];
        assert(slot_format(one, none, 0) == slot_format(properties, none, i));
    }
}

} // verus!
