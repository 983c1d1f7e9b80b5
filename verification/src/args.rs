//! The grammar of one tool call's `{key:value,...}` body.
use crate::arguments::{
    are_arguments, fits_exactly, is_body, law_exact_grammar_admits_the_bodies,
    law_grammar_admits_the_arguments,
};
use crate::format::{
    Format, Pattern, any_text, const_string, dispatch, either, law_render_wf, lemma_render_rules,
    lemma_spelt, regex, rule, rule_tree, schema_is_wf, sequence,
};
use crate::json::{Json, JsonTree, entry_trees, lookup, texts, tree_of, trees};
use crate::language::SchemaTexts;
use crate::markers::GEMMA4_STRING_DELIM;
use crate::permute::{lists, orderings, permutations};
use crate::reader::{admits, law_json_admits_what_the_format_admits};
use crate::schema::{
    is_required_string, is_simple, is_value, law_required_strings_are_required_and_strings,
    law_values_follow_the_type,
};
use vstd::arithmetic::power2::{lemma_pow2_unfold, pow2};
use vstd::prelude::*;

verus! {

/// The most properties for which the orders of the keys are written out. Above it there would
/// be too many branches to be worth it.
pub const MAX_PROPS_FOR_EXACT_ARGS_GRAMMAR: usize = 4;

/// The code of `c`, that of the small letter for a capital ASCII letter.
pub open spec fn ascii_lower(c: char) -> int {
    if 65 <= c as int <= 90 {
        c as int + 32
    } else {
        c as int
    }
}

/// Whether two texts are the same but for the case of ASCII letters.
pub open spec fn eq_ignore_case(a: Seq<char>, b: Seq<char>) -> bool {
    &&& a.len() == b.len()
    &&& forall|i: int| 0 <= i < a.len() ==> ascii_lower(#[trigger] a[i]) == ascii_lower(b[i])
}

/// `str::eq_ignore_ascii_case` compares as if both strings were in ASCII lower case.
pub assume_specification[ str::eq_ignore_ascii_case ](s: &str, other: &str) -> (r: bool)
    ensures
        r == eq_ignore_case(s@, other@),
;

/// The name under `type` in a property's schema.
pub open spec fn declared_type(schema: JsonTree) -> Option<Seq<char>> {
    match schema.field("type"@) {
        Some(t) => t.text(),
        None => None,
    }
}

/// Whether a property is typed `string`.
pub open spec fn is_string(schema: JsonTree) -> bool {
    match declared_type(schema) {
        Some(name) => eq_ignore_case(name, "string"@),
        None => false,
    }
}

/// The strings of a list, in order.
pub open spec fn string_items(items: Seq<JsonTree>) -> Seq<Seq<char>> {
    items.filter_map(|item: JsonTree| item.text())
}

/// The strings listed under `required`.
pub open spec fn required_names(parameters: JsonTree) -> Seq<Seq<char>> {
    match parameters.field("required"@) {
        Some(JsonTree::Array(items)) => string_items(items),
        _ => Seq::empty(),
    }
}

/// Whether `properties` has the key and types it `string`.
pub open spec fn is_string_key(
    properties: Seq<(Seq<char>, JsonTree)>,
) -> spec_fn(Seq<char>) -> bool {
    |key: Seq<char>|
        match lookup(properties, key) {
            Some(schema) => is_string(schema),
            None => false,
        }
}

/// The required keys that are typed `string`, in the order of `required`.
pub open spec fn required_string_keys(parameters: Option<JsonTree>) -> Seq<Seq<char>> {
    match parameters {
        Some(p) => match p.field("properties"@) {
            Some(JsonTree::Object(properties)) => required_names(p).filter(
                is_string_key(properties),
            ),
            _ => Seq::empty(),
        },
        None => Seq::empty(),
    }
}

/// Whether a property is typed `string`.
fn has_string_type(schema: &Json) -> (r: bool)
    ensures
        r == is_string(schema@),
{
    match schema.get("type") {
        Some(t) => match t.as_str() {
            Some(name) => name.eq_ignore_ascii_case("string"),
            None => false,
        },
        None => false,
    }
}

/// The strings of a list, in order.
fn strings_in(items: &Vec<Json>) -> (out: Vec<String>)
    ensures
        texts(out@) == string_items(trees(items@)),
{
    let ghost all = trees(items@);
    let ghost text_of = |item: JsonTree| item.text();
    let mut out: Vec<String> = Vec::new();
    let mut i: usize = 0;
    assert(texts(out@) =~= all.take(0).filter_map(text_of)) by {
        reveal(Seq::filter_map);
    }
    while i < items.len()
        invariant
            all == trees(items@),
            text_of == (|item: JsonTree| item.text()),
            i <= items@.len(),
            texts(out@) == all.take(i as int).filter_map(text_of),
        decreases items.len() - i,
    {
        let ghost before = out@;
        proof {
            all.lemma_filter_map_take_succ(text_of, i as int);
        }
        if let Some(s) = items[i].as_str() {
            out.push(s.to_owned());
            assert(texts(out@) =~= texts(before).push(s@));
        }
        i += 1;
        assert(texts(out@) =~= all.take(i as int).filter_map(text_of));
    }
    assert(all.take(i as int) =~= all);
    out
}

/// The strings listed under `required`.
fn required_list(parameters: &Json) -> (out: Vec<String>)
    ensures
        texts(out@) == required_names(parameters@),
{
    if let Some(r) = parameters.get("required") {
        if let Some(items) = r.as_array() {
            return strings_in(items);
        }
    }
    let none: Vec<String> = Vec::new();
    assert(texts(none@) =~= Seq::empty());
    none
}

/// Names of this tool's top-level required properties typed `string`.
pub fn required_nonempty_string_keys(parameters: Option<&Json>) -> (out: Vec<String>)
    ensures
        texts(out@) == required_string_keys(tree_of(parameters)),
        forall|key: Seq<char>| #[trigger]
            texts(out@).contains(key) <==> parameters is Some && is_required_string(
                parameters->0@,
                key,
            ),
{
    proof {
        assert forall|key: Seq<char>| #[trigger]
            required_string_keys(tree_of(parameters)).contains(key) <==> parameters is Some
                && is_required_string(parameters->0@, key) by {
            if parameters is Some {
                law_required_strings_are_required_and_strings(parameters->0@, key);
            }
        }
    }
    let mut out: Vec<String> = Vec::new();
    assert(texts(out@) =~= Seq::empty());
    let params = match parameters {
        Some(params) => params,
        None => return out,
    };
    let properties = match params.get("properties") {
        Some(properties) => properties,
        None => return out,
    };
    let entries = match properties.as_object() {
        Some(entries) => entries,
        None => return out,
    };
    let required = required_list(params);
    let ghost all = texts(required@);
    let ghost wanted = is_string_key(entry_trees(entries@));
    let mut i: usize = 0;
    assert(texts(out@) =~= all.take(0).filter(wanted)) by {
        reveal(Seq::filter);
    }
    while i < required.len()
        invariant
            all == texts(required@),
            properties@ == JsonTree::Object(entry_trees(entries@)),
            wanted == is_string_key(entry_trees(entries@)),
            i <= required@.len(),
            texts(out@) == all.take(i as int).filter(wanted),
        decreases required.len() - i,
    {
        let ghost before = out@;
        let keep = match properties.get(required[i].as_str()) {
            Some(schema) => has_string_type(schema),
            None => false,
        };
        proof {
            all.take(i as int).lemma_filter_push(all[i as int], wanted);
            assert(all.take(i as int).push(all[i as int]) =~= all.take(i + 1));
        }
        if keep {
            out.push(required[i].clone());
            assert(texts(out@) =~= texts(before).push(required@[i as int]@));
        }
        i += 1;
    }
    assert(all.take(i as int) =~= all);
    out
}

/// Whether `json` spells `format`, or both are missing.
pub open spec fn spells(json: Option<Json>, format: Option<Format>) -> bool {
    match (json, format) {
        (Some(j), Some(f)) => j@ == f.render(),
        (None, None) => true,
        _ => false,
    }
}

/// A string value between its delimiters. Only a required one must not be empty.
pub open spec fn string_format(required: bool) -> Format {
    Format::Sequence(
        seq![
            Format::ConstString(GEMMA4_STRING_DELIM@),
            Format::Regex(
                if required {
                    Pattern::NonEmpty
                } else {
                    Pattern::Anything
                },
            ),
            Format::ConstString(GEMMA4_STRING_DELIM@),
        ],
    )
}

/// `true` or `false`.
pub open spec fn boolean_format() -> Format {
    Format::Or(seq![Format::ConstString("true"@), Format::ConstString("false"@)])
}

/// The format of a value of a `string`, `integer`, `number` or `boolean` property; none for
/// any other.
pub open spec fn value_format(schema: JsonTree, required: bool) -> Option<Format> {
    match declared_type(schema) {
        Some(name) => if eq_ignore_case(name, "string"@) {
            Some(string_format(required))
        } else if eq_ignore_case(name, "integer"@) || eq_ignore_case(name, "number"@) {
            Some(Format::Regex(Pattern::Decimal))
        } else if eq_ignore_case(name, "boolean"@) {
            Some(boolean_format())
        } else {
            None
        },
        None => None,
    }
}

/// A value slot for a `string`, `integer`, `number` or `boolean` property, or `None` for any
/// other: those are out of scope for exact enforcement.
pub fn simple_value_format(prop_schema: &Json, required: bool) -> (r: Option<Json>)
    ensures
        spells(r, value_format(prop_schema@, required)),
        r is Some <==> is_simple(prop_schema@),
        r is Some ==> forall|fits: SchemaTexts, s: Seq<char>| #[trigger]
            admits(r->0@, fits, s) <==> is_value(prop_schema@, required, s),
{
    proof {
        let format = value_format(prop_schema@, required);
        assert forall|fits: SchemaTexts, s: Seq<char>|
            format is Some implies #[trigger] admits(format->0.render(), fits, s) == is_value(
            prop_schema@,
            required,
            s,
        ) by {
            law_json_admits_what_the_format_admits(format->0, fits, s);
            law_values_follow_the_type(prop_schema@, required, fits, s);
        }
        law_values_follow_the_type(
            prop_schema@,
            required,
            |schema: JsonTree, text: Seq<char>| true,
            Seq::empty(),
        );
    }
    let name = match prop_schema.get("type") {
        Some(t) => match t.as_str() {
            Some(name) => name,
            None => return None,
        },
        None => return None,
    };
    if name.eq_ignore_ascii_case("string") {
        let pattern = if required {
            "[\\s\\S]+"
        } else {
            "[\\s\\S]*"
        };
        let elements = vec![
            const_string(GEMMA4_STRING_DELIM),
            regex(pattern),
            const_string(GEMMA4_STRING_DELIM),
        ];
        proof {
            lemma_spelt(elements@, string_format(required)->Sequence_0);
        }
        Some(sequence(elements))
    } else if name.eq_ignore_ascii_case("integer") || name.eq_ignore_ascii_case("number") {
        Some(regex("-?[0-9]+(\\.[0-9]+)?"))
    } else if name.eq_ignore_ascii_case("boolean") {
        let elements = vec![const_string("true"), const_string("false")];
        proof {
            lemma_spelt(elements@, boolean_format()->Or_0);
        }
        Some(either(elements))
    } else {
        None
    }
}

/// Whether the slot's key is listed as required.
pub open spec fn is_required_slot(
    properties: Seq<(Seq<char>, JsonTree)>,
    required: Seq<Seq<char>>,
) -> spec_fn(usize) -> bool {
    |i: usize| required.contains(properties[i as int].0)
}

/// Whether the slot's key is not listed as required.
pub open spec fn is_optional_slot(
    properties: Seq<(Seq<char>, JsonTree)>,
    required: Seq<Seq<char>>,
) -> spec_fn(usize) -> bool {
    |i: usize| !required.contains(properties[i as int].0)
}

/// The numbers below `n`, ascending.
pub open spec fn slots(n: nat) -> Seq<usize> {
    Seq::new(n, |i: int| i as usize)
}

/// The slots whose key is required, in the order of the properties.
pub open spec fn required_slots(
    properties: Seq<(Seq<char>, JsonTree)>,
    required: Seq<Seq<char>>,
) -> Seq<usize> {
    slots(properties.len()).filter(is_required_slot(properties, required))
}

/// The slots whose key may be left out, in the order of the properties.
pub open spec fn optional_slots(
    properties: Seq<(Seq<char>, JsonTree)>,
    required: Seq<Seq<char>>,
) -> Seq<usize> {
    slots(properties.len()).filter(is_optional_slot(properties, required))
}

/// The format of the value of the `i`th property.
pub open spec fn slot_format(
    properties: Seq<(Seq<char>, JsonTree)>,
    required: Seq<Seq<char>>,
    i: int,
) -> Option<Format> {
    value_format(properties[i].1, required.contains(properties[i].0))
}

/// `key:` before a value.
pub open spec fn arg_format(key: Seq<char>, value: Format) -> Format {
    Format::Sequence(seq![Format::ConstString(key + ":"@), value])
}

/// The format of each property's `key:value`.
pub open spec fn arg_formats(
    properties: Seq<(Seq<char>, JsonTree)>,
    required: Seq<Seq<char>>,
) -> Seq<Format> {
    Seq::new(
        properties.len(),
        |i: int| arg_format(properties[i].0, slot_format(properties, required, i)->0),
    )
}

/// Whether one of the properties has this key.
pub open spec fn is_declared(properties: Seq<(Seq<char>, JsonTree)>, key: Seq<char>) -> bool {
    exists|i: int| 0 <= i < properties.len() && (#[trigger] properties[i]).0 == key
}

/// Whether the exact grammar can be written: there are properties, not too many, each is of a
/// simple type, and every required key is that of one of them.
pub open spec fn exact_args_fit(
    properties: Seq<(Seq<char>, JsonTree)>,
    required: Seq<Seq<char>>,
) -> bool {
    &&& 0 < properties.len() <= MAX_PROPS_FOR_EXACT_ARGS_GRAMMAR
    &&& forall|i: int|
        0 <= i < properties.len() ==> (#[trigger] slot_format(properties, required, i)) is Some
    &&& forall|k: int|
        0 <= k < required.len() ==> #[trigger] is_declared(properties, required[k])
}

/// The slots of `optional` that `mask` picks: the first by its lowest bit, and so on.
pub open spec fn picked(optional: Seq<usize>, mask: nat) -> Seq<usize>
    decreases optional.len(),
{
    if optional.len() == 0 {
        Seq::empty()
    } else if mask % 2 == 1 {
        seq![optional[0]] + picked(optional.drop_first(), mask / 2)
    } else {
        picked(optional.drop_first(), mask / 2)
    }
}

/// The arguments of `order` with commas between them.
pub open spec fn comma_separated(args: Seq<Format>, order: Seq<usize>) -> Seq<Format>
    decreases order.len(),
{
    if order.len() == 0 {
        Seq::empty()
    } else if order.len() == 1 {
        seq![args[order[0] as int]]
    } else {
        comma_separated(args, order.drop_last()) + seq![
            Format::ConstString(","@),
            args[order.last() as int],
        ]
    }
}

/// The body in which exactly the arguments of `order` stand, in that order.
pub open spec fn branch_format(args: Seq<Format>, order: Seq<usize>) -> Format {
    if order.len() == 0 {
        Format::ConstString(""@)
    } else {
        Format::Sequence(comma_separated(args, order))
    }
}

/// The body of each of these orders.
pub open spec fn branches_in(args: Seq<Format>, orders: Seq<Seq<usize>>) -> Seq<Format> {
    Seq::new(orders.len(), |i: int| branch_format(args, orders[i]))
}

/// All of `required` and those of `optional` that a number below `masks` picks, in every order.
pub open spec fn orders_below(
    required: Seq<usize>,
    optional: Seq<usize>,
    masks: nat,
) -> Seq<Seq<usize>>
    decreases masks,
{
    if masks == 0 {
        Seq::empty()
    } else {
        let chosen = required + picked(optional, (masks - 1) as nat);
        orders_below(required, optional, (masks - 1) as nat) + orderings(chosen)
    }
}

/// The only one of `formats`, or a choice between them.
pub open spec fn one_of(formats: Seq<Format>) -> Format {
    if formats.len() == 1 {
        formats[0]
    } else {
        Format::Or(formats)
    }
}

/// The orders of keys that the exact grammar admits: all that are required and any of the
/// others.
pub open spec fn exact_orders(
    properties: Seq<(Seq<char>, JsonTree)>,
    required: Seq<Seq<char>>,
) -> Seq<Seq<usize>> {
    let optional = optional_slots(properties, required);
    orders_below(required_slots(properties, required), optional, pow2(optional.len()))
}

/// The bodies that the exact grammar admits, one for each order of keys.
pub open spec fn exact_branches(
    properties: Seq<(Seq<char>, JsonTree)>,
    required: Seq<Seq<char>>,
) -> Seq<Format> {
    branches_in(arg_formats(properties, required), exact_orders(properties, required))
}

/// The exact grammar of a `{key:value,...}` body, where it can be written.
pub open spec fn exact_args_format(
    properties: Seq<(Seq<char>, JsonTree)>,
    required: Seq<Seq<char>>,
) -> Option<Format> {
    if exact_args_fit(properties, required) {
        Some(
            Format::Sequence(
                seq![
                    Format::ConstString("{"@),
                    one_of(exact_branches(properties, required)),
                    Format::ConstString("}"@),
                ],
            ),
        )
    } else {
        None
    }
}

/// The only one of `formats`, or a choice between them.
pub(crate) fn choice(formats: Vec<Json>, Ghost(spelt): Ghost<Seq<Format>>) -> (r: Json)
    requires
        formats@.len() == spelt.len(),
        forall|i: int| 0 <= i < spelt.len() ==> (#[trigger] formats@[i])@ == spelt[i].render(),
    ensures
        r@ == one_of(spelt).render(),
{
    let mut formats = formats;
    if formats.len() == 1 {
        formats.swap_remove(0)
    } else {
        proof {
            lemma_spelt(formats@, spelt);
        }
        either(formats)
    }
}

/// Whether `key` is one of `names`.
fn is_listed(names: &[String], key: &String) -> (r: bool)
    ensures
        r == texts(names@).contains(key@),
{
    let mut i: usize = 0;
    while i < names.len()
        invariant
            i <= names@.len(),
            forall|k: int| 0 <= k < i ==> (#[trigger] names@[k])@ != key@,
        decreases names.len() - i,
    {
        if names[i] == *key {
            assert(texts(names@)[i as int] == key@);
            return true;
        }
        i += 1;
    }
    assert(!texts(names@).contains(key@)) by {
        if texts(names@).contains(key@) {
            let k = texts(names@).index_of(key@);
            assert(names@[k]@ == key@);
        }
    }
    false
}

/// Whether one of the properties has this key.
fn has_key(properties: &Vec<(String, Json)>, key: &String) -> (r: bool)
    ensures
        r == is_declared(entry_trees(properties@), key@),
{
    let ghost all = entry_trees(properties@);
    let mut i: usize = 0;
    while i < properties.len()
        invariant
            all == entry_trees(properties@),
            i <= properties@.len(),
            forall|k: int| 0 <= k < i ==> (#[trigger] all[k]).0 != key@,
        decreases properties.len() - i,
    {
        if properties[i].0 == *key {
            assert(all[i as int].0 == key@);
            return true;
        }
        i += 1;
    }
    false
}

/// Whether each of these keys is that of a property.
fn all_declared(properties: &Vec<(String, Json)>, required: &[String]) -> (r: bool)
    ensures
        r == forall|k: int|
            0 <= k < required@.len() ==> #[trigger] is_declared(
                entry_trees(properties@),
                texts(required@)[k],
            ),
{
    let ghost all = entry_trees(properties@);
    let ghost names = texts(required@);
    let mut i: usize = 0;
    while i < required.len()
        invariant
            all == entry_trees(properties@),
            names == texts(required@),
            i <= required@.len(),
            forall|k: int| 0 <= k < i ==> #[trigger] is_declared(all, names[k]),
        decreases required.len() - i,
    {
        if !has_key(properties, &required[i]) {
            assert(!is_declared(all, names[i as int]));
            return false;
        }
        i += 1;
    }
    true
}

/// `required` and those of `optional` that `mask` picks.
fn chosen_slots(required: &Vec<usize>, optional: &Vec<usize>, mask: u32) -> (chosen: Vec<usize>)
    ensures
        chosen@ == required@ + picked(optional@, mask as nat),
{
    let mut chosen: Vec<usize> = Vec::new();
    let mut i: usize = 0;
    while i < required.len()
        invariant
            i <= required@.len(),
            chosen@ == required@.take(i as int),
        decreases required.len() - i,
    {
        chosen.push(required[i]);
        i += 1;
        assert(chosen@ =~= required@.take(i as int));
    }
    assert(chosen@ =~= required@);
    let ghost goal = required@ + picked(optional@, mask as nat);
    let mut bits: u32 = mask;
    let mut bit: usize = 0;
    assert(optional@.skip(0) =~= optional@);
    while bit < optional.len()
        invariant
            bit <= optional@.len(),
            goal == chosen@ + picked(optional@.skip(bit as int), bits as nat),
        decreases optional.len() - bit,
    {
        let ghost left = optional@.skip(bit as int);
        let ghost before = chosen@;
        assert(left.drop_first() =~= optional@.skip(bit + 1));
        if bits % 2 == 1 {
            chosen.push(optional[bit]);
            assert(chosen@ + picked(left.drop_first(), (bits / 2) as nat) =~= before + (
            seq![left[0]] + picked(left.drop_first(), (bits / 2) as nat)));
        }
        bits = bits / 2;
        bit += 1;
    }
    assert(goal =~= chosen@);
    chosen
}

/// The body in which exactly the arguments of `order` stand, in that order.
fn branch(args: &Vec<Json>, order: &Vec<usize>, Ghost(spelt): Ghost<Seq<Format>>) -> (r: Json)
    requires
        args@.len() == spelt.len(),
        forall|i: int| 0 <= i < spelt.len() ==> (#[trigger] args@[i])@ == spelt[i].render(),
        forall|k: int| 0 <= k < order@.len() ==> #[trigger] order@[k] < args@.len(),
    ensures
        r@ == branch_format(spelt, order@).render(),
{
    if order.len() == 0 {
        return const_string("");
    }
    let mut elements: Vec<Json> = Vec::new();
    let mut i: usize = 0;
    while i < order.len()
        invariant
            args@.len() == spelt.len(),
            forall|k: int| 0 <= k < spelt.len() ==> (#[trigger] args@[k])@ == spelt[k].render(),
            forall|k: int| 0 <= k < order@.len() ==> #[trigger] order@[k] < args@.len(),
            i <= order@.len(),
            elements@.len() == comma_separated(spelt, order@.take(i as int)).len(),
            forall|k: int|
                0 <= k < elements@.len() ==> (#[trigger] elements@[k])@ == comma_separated(
                    spelt,
                    order@.take(i as int),
                )[k].render(),
        decreases order.len() - i,
    {
        let ghost next = order@.take(i + 1);
        assert(next.drop_last() =~= order@.take(i as int));
        assert(next.last() == order@[i as int]);
        if i > 0 {
            elements.push(const_string(","));
        }
        elements.push(args[order[i]].clone());
        i += 1;
    }
    proof {
        assert(order@.take(i as int) =~= order@);
        lemma_spelt(elements@, comma_separated(spelt, order@));
    }
    sequence(elements)
}

/// The slots that an order may name stay below `n`.
proof fn lemma_orders_in_range(chosen: Seq<usize>, order: Seq<usize>, n: nat)
    requires
        forall|k: int| 0 <= k < chosen.len() ==> #[trigger] chosen[k] < n,
        orderings(chosen).contains(order),
    ensures
        forall|k: int| 0 <= k < order.len() ==> #[trigger] order[k] < n,
{
    broadcast use vstd::seq_lib::group_to_multiset_ensures;

    crate::permute::law_orderings_are_the_rearrangements(chosen, order);
    assert forall|k: int| 0 <= k < order.len() implies #[trigger] order[k] < n by {
        assert(order.contains(order[k]));
        assert(order.to_multiset().count(order[k]) > 0);
        assert(chosen.contains(order[k]));
        let j = chosen.index_of(order[k]);
        assert(chosen[j] < n);
    }
}

proof fn lemma_picked_in_range(optional: Seq<usize>, mask: nat, n: nat)
    requires
        forall|k: int| 0 <= k < optional.len() ==> #[trigger] optional[k] < n,
    ensures
        forall|k: int|
            0 <= k < picked(optional, mask).len() ==> #[trigger] picked(optional, mask)[k] < n,
    decreases optional.len(),
{
    if optional.len() > 0 {
        let rest = optional.drop_first();
        assert forall|k: int| 0 <= k < rest.len() implies #[trigger] rest[k] < n by {
            assert(optional[k + 1] < n);
        }
        lemma_picked_in_range(rest, mask / 2, n);
        let tail = picked(rest, mask / 2);
        assert forall|k: int| 0 <= k < picked(optional, mask).len() implies #[trigger] picked(
            optional,
            mask,
        )[k] < n by {
            assert(optional[0] < n);
            if mask % 2 == 1 && k > 0 {
                assert(picked(optional, mask)[k] == tail[k - 1]);
            } else if mask % 2 == 0 {
                assert(picked(optional, mask)[k] == tail[k]);
            }
        }
    }
}

proof fn lemma_chosen_in_range(required: Seq<usize>, optional: Seq<usize>, mask: nat, n: nat)
    requires
        forall|k: int| 0 <= k < required.len() ==> #[trigger] required[k] < n,
        forall|k: int| 0 <= k < optional.len() ==> #[trigger] optional[k] < n,
    ensures
        forall|k: int|
            0 <= k < (required + picked(optional, mask)).len() ==> #[trigger] (required + picked(
                optional,
                mask,
            ))[k] < n,
{
    lemma_picked_in_range(optional, mask, n);
    let chosen = required + picked(optional, mask);
    assert forall|k: int| 0 <= k < chosen.len() implies #[trigger] chosen[k] < n by {
        if k >= required.len() {
            assert(picked(optional, mask)[k - required.len()] < n);
        } else {
            assert(required[k] < n);
        }
    }
}

/// The slots of properties stay below the number of properties.
proof fn lemma_slots_in_range(properties: Seq<(Seq<char>, JsonTree)>, required: Seq<Seq<char>>)
    requires
        properties.len() <= usize::MAX,
    ensures
        forall|k: int|
            0 <= k < required_slots(properties, required).len() ==> #[trigger] required_slots(
                properties,
                required,
            )[k] < properties.len(),
        forall|k: int|
            0 <= k < optional_slots(properties, required).len() ==> #[trigger] optional_slots(
                properties,
                required,
            )[k] < properties.len(),
{
    broadcast use Seq::lemma_filter_contains_rev;

    let all = slots(properties.len());
    let needed = required_slots(properties, required);
    let spare = optional_slots(properties, required);
    assert forall|k: int| 0 <= k < needed.len() implies #[trigger] needed[k]
        < properties.len() by {
        assert(needed.contains(needed[k]));
        assert(all.contains(needed[k]));
    }
    assert forall|k: int| 0 <= k < spare.len() implies #[trigger] spare[k] < properties.len() by {
        assert(spare.contains(spare[k]));
        assert(all.contains(spare[k]));
    }
}

/// Exact grammar for a tool's `{key:value,...}` body: every required key appears, with a
/// non-empty value if it is a string, every optional key may or may not, and the keys come in
/// any order.
///
/// `None` when the schema does not fit: no properties, too many, one typed something other than
/// string, integer, number or boolean, or a required key that none of them has, which no body
/// could hold.
pub fn exact_args_grammar(properties: &Vec<(String, Json)>, required: &[String]) -> (r: Option<
    Json,
>)
    ensures
        spells(r, exact_args_format(entry_trees(properties@), texts(required@))),
        r is Some <==> fits_exactly(entry_trees(properties@), texts(required@)),
        r is Some ==> forall|fits: SchemaTexts, s: Seq<char>| #[trigger]
            admits(r->0@, fits, s) <==> is_body(entry_trees(properties@), texts(required@), s),
{
    let ghost props = entry_trees(properties@);
    let ghost names = texts(required@);
    proof {
        let format = exact_args_format(props, names);
        assert forall|fits: SchemaTexts, s: Seq<char>|
            format is Some implies #[trigger] admits(format->0.render(), fits, s) == is_body(
            props,
            names,
            s,
        ) by {
            law_json_admits_what_the_format_admits(format->0, fits, s);
            law_exact_grammar_admits_the_bodies(props, names, fits, s);
        }
        law_exact_grammar_admits_the_bodies(
            props,
            names,
            |schema: JsonTree, text: Seq<char>| true,
            Seq::empty(),
        );
    }
    if properties.len() == 0 || properties.len() > MAX_PROPS_FOR_EXACT_ARGS_GRAMMAR {
        return None;
    }
    if !all_declared(properties, required) {
        return None;
    }
    let ghost n = props.len();
    let ghost spelt = arg_formats(props, names);
    let ghost needed = is_required_slot(props, names);
    let ghost spare = is_optional_slot(props, names);
    let mut args: Vec<Json> = Vec::new();
    let mut required_idx: Vec<usize> = Vec::new();
    let mut optional_idx: Vec<usize> = Vec::new();
    let mut masks: u32 = 1;
    let mut i: usize = 0;
    proof {
        reveal(Seq::filter);
        reveal(pow2);
        assert(required_idx@ =~= slots(n).take(0).filter(needed));
        assert(optional_idx@ =~= slots(n).take(0).filter(spare));
        vstd::arithmetic::power2::lemma2_to64();
    }
    while i < properties.len()
        invariant
            props == entry_trees(properties@),
            names == texts(required@),
            exact_args_format(props, names) is Some <==> fits_exactly(props, names),
            n == props.len(),
            n <= MAX_PROPS_FOR_EXACT_ARGS_GRAMMAR,
            spelt == arg_formats(props, names),
            needed == is_required_slot(props, names),
            spare == is_optional_slot(props, names),
            i <= properties@.len(),
            args@.len() == i,
            forall|k: int| 0 <= k < i ==> (#[trigger] slot_format(props, names, k)) is Some,
            forall|k: int| 0 <= k < i ==> (#[trigger] args@[k])@ == spelt[k].render(),
            required_idx@ == slots(n).take(i as int).filter(needed),
            optional_idx@ == slots(n).take(i as int).filter(spare),
            forall|k: int| 0 <= k < required_idx@.len() ==> #[trigger] required_idx@[k] < n,
            forall|k: int| 0 <= k < optional_idx@.len() ==> #[trigger] optional_idx@[k] < n,
            optional_idx@.len() <= i,
            masks == pow2(optional_idx@.len()),
            masks <= 16,
            i <= 3 ==> masks <= 8,
            i <= 2 ==> masks <= 4,
            i <= 1 ==> masks <= 2,
            i <= 0 ==> masks <= 1,
        decreases properties.len() - i,
    {
        let is_required = is_listed(required, &properties[i].0);
        let value = match simple_value_format(&properties[i].1, is_required) {
            Some(value) => value,
            None => {
                assert(slot_format(props, names, i as int) is None);
                return None;
            },
        };
        let key = properties[i].0.clone().concat(":");
        let pair = vec![const_string(key.as_str()), value];
        proof {
            lemma_spelt(pair@, spelt[i as int]->Sequence_0);
            slots(n).take(i as int).lemma_filter_push(i, needed);
            slots(n).take(i as int).lemma_filter_push(i, spare);
            assert(slots(n).take(i as int).push(i) =~= slots(n).take(i + 1));
        }
        args.push(sequence(pair));
        if is_required {
            required_idx.push(i);
        } else {
            optional_idx.push(i);
            proof {
                lemma_pow2_unfold(optional_idx@.len());
            }
            masks = masks * 2;
        }
        i += 1;
    }
    assert(slots(n).take(i as int) =~= slots(n));
    let mut branches: Vec<Json> = Vec::new();
    let mut mask: u32 = 0;
    while mask < masks
        invariant
            args@.len() == n,
            spelt.len() == n,
            forall|k: int| 0 <= k < spelt.len() ==> (#[trigger] args@[k])@ == spelt[k].render(),
            forall|k: int| 0 <= k < required_idx@.len() ==> #[trigger] required_idx@[k] < n,
            forall|k: int| 0 <= k < optional_idx@.len() ==> #[trigger] optional_idx@[k] < n,
            mask <= masks,
            branches@.len() == orders_below(required_idx@, optional_idx@, mask as nat).len(),
            forall|k: int|
                0 <= k < branches@.len() ==> (#[trigger] branches@[k])@ == branch_format(
                    spelt,
                    orders_below(required_idx@, optional_idx@, mask as nat)[k],
                ).render(),
        decreases masks - mask,
    {
        let ghost below = orders_below(required_idx@, optional_idx@, mask as nat);
        let chosen = chosen_slots(&required_idx, &optional_idx, mask);
        let orders = permutations(chosen.as_slice());
        proof {
            lemma_chosen_in_range(required_idx@, optional_idx@, mask as nat, n);
        }
        let mut p: usize = 0;
        while p < orders.len()
            invariant
                args@.len() == n,
                spelt.len() == n,
                forall|k: int|
                    0 <= k < spelt.len() ==> (#[trigger] args@[k])@ == spelt[k].render(),
                forall|k: int| 0 <= k < chosen@.len() ==> #[trigger] chosen@[k] < n,
                lists(orders@) == orderings(chosen@),
                p <= orders@.len(),
                branches@.len() == below.len() + p,
                forall|k: int|
                    0 <= k < branches@.len() ==> (#[trigger] branches@[k])@ == branch_format(
                        spelt,
                        (below + orderings(chosen@))[k],
                    ).render(),
            decreases orders.len() - p,
        {
            proof {
                assert(lists(orders@)[p as int] == orders@[p as int]@);
                lemma_orders_in_range(chosen@, orders@[p as int]@, n);
            }
            branches.push(branch(&args, &orders[p], Ghost(spelt)));
            p += 1;
        }
        mask += 1;
        assert(orders_below(required_idx@, optional_idx@, mask as nat) == below + orderings(
            chosen@,
        ));
    }
    let ghost all = exact_branches(props, names);
    let body = choice(branches, Ghost(all));
    let elements = vec![const_string("{"), body, const_string("}")];
    proof {
        lemma_spelt(elements@, exact_args_format(props, names)->0->Sequence_0);
    }
    Some(sequence(elements))
}

/// One character or more, then the closing delimiter.
pub open spec fn nonempty_value_format() -> Format {
    Format::Sequence(
        seq![Format::Regex(Pattern::NonEmpty), Format::ConstString(GEMMA4_STRING_DELIM@)],
    )
}

/// For each key, what must follow once it is written with the opening delimiter, without a
/// space or with one before it.
pub open spec fn dispatch_rules(keys: Seq<Seq<char>>) -> Seq<(Seq<char>, Format)>
    decreases keys.len(),
{
    if keys.len() == 0 {
        Seq::empty()
    } else {
        dispatch_rules(keys.drop_last()) + seq![
            (keys.last() + ":"@ + GEMMA4_STRING_DELIM@, nonempty_value_format()),
            (keys.last() + ": "@ + GEMMA4_STRING_DELIM@, nonempty_value_format()),
        ]
    }
}

/// The exact grammar of the body for these parameters, where they have properties and it can
/// be written.
pub open spec fn exact_tier(parameters: JsonTree) -> Option<Format> {
    match parameters.field("properties"@) {
        Some(JsonTree::Object(properties)) => exact_args_format(
            properties,
            required_names(parameters),
        ),
        _ => None,
    }
}

/// The format of a call's body: the exact grammar where it can be written; else, where there
/// are required strings, free text in which none of them is left empty once it is begun; else
/// any text.
pub open spec fn tool_args_format(parameters: Option<JsonTree>) -> Format {
    let keys = required_string_keys(parameters);
    match parameters {
        Some(p) if exact_tier(p) is Some => exact_tier(p)->0,
        _ => if keys.len() == 0 {
            Format::AnyText
        } else {
            Format::Dispatch { rules: dispatch_rules(keys), repeat: true }
        },
    }
}

/// The rules that keep each of these keys from being given an empty value.
fn rules_for(keys: &Vec<String>) -> (rules: Vec<Json>)
    ensures
        trees(rules@) == Format::render_rules(dispatch_rules(texts(keys@))),
{
    let ghost all = texts(keys@);
    let mut rules: Vec<Json> = Vec::new();
    let mut i: usize = 0;
    proof {
        assert(dispatch_rules(all.take(0)) =~= Seq::empty());
    }
    while i < keys.len()
        invariant
            all == texts(keys@),
            i <= keys@.len(),
            rules@.len() == dispatch_rules(all.take(i as int)).len(),
            forall|k: int|
                0 <= k < rules@.len() ==> (#[trigger] rules@[k])@ == rule_tree(
                    dispatch_rules(all.take(i as int))[k].0,
                    dispatch_rules(all.take(i as int))[k].1.render(),
                ),
        decreases keys.len() - i,
    {
        assert(all.take(i + 1).drop_last() =~= all.take(i as int));
        assert(all.take(i + 1).last() == keys@[i as int]@);
        let nonempty = vec![regex("[\\s\\S]+"), const_string(GEMMA4_STRING_DELIM)];
        proof {
            lemma_spelt(nonempty@, nonempty_value_format()->Sequence_0);
        }
        let nonempty_value = sequence(nonempty);
        let tight = keys[i].clone().concat(":").concat(GEMMA4_STRING_DELIM);
        let spaced = keys[i].clone().concat(": ").concat(GEMMA4_STRING_DELIM);
        rules.push(rule(tight.as_str(), nonempty_value.clone()));
        rules.push(rule(spaced.as_str(), nonempty_value));
        i += 1;
    }
    proof {
        assert(all.take(i as int) =~= all);
        lemma_render_rules(dispatch_rules(all));
        assert(trees(rules@) =~= Format::render_rules(dispatch_rules(all)));
    }
    rules
}

/// Content grammar for one tool call's `{key:value,...}` body.
///
/// Arguments are not JSON, so the body is free text unless the schema allows for more. From
/// the strongest guarantee to the weakest:
///
/// 1. Where every property is simple, there are few, and every required key is one of them, the
///    grammar is exact: required keys appear, with a non-empty value if they are strings,
///    optional keys may, in any order.
/// 2. Where there is a required string property, free text in which, once the model has
///    written that key and the opening delimiter, at least one character comes before the
///    closing one. No key need appear, not even a simple one beside a required key that the
///    properties lack.
/// 3. Else any text.
pub fn gemma4_tool_args_content(parameters: Option<&Json>) -> (r: Json)
    ensures
        r@ == tool_args_format(tree_of(parameters)).render(),
        forall|fits: SchemaTexts, s: Seq<char>| #[trigger]
            admits(r@, fits, s) <==> are_arguments(tree_of(parameters), s),
{
    proof {
        let format = tool_args_format(tree_of(parameters));
        assert forall|fits: SchemaTexts, s: Seq<char>| #[trigger]
            admits(format.render(), fits, s) == are_arguments(tree_of(parameters), s) by {
            law_json_admits_what_the_format_admits(format, fits, s);
            law_grammar_admits_the_arguments(tree_of(parameters), fits, s);
        }
    }
    let params = match parameters {
        Some(params) => params,
        None => return any_text(),
    };
    if let Some(properties) = params.get("properties") {
        if let Some(entries) = properties.as_object() {
            let required = required_list(params);
            if let Some(exact) = exact_args_grammar(entries, required.as_slice()) {
                return exact;
            }
        }
    }
    let required_strings = required_nonempty_string_keys(parameters);
    if required_strings.len() == 0 {
        return any_text();
    }
    dispatch(rules_for(&required_strings), true)
}

/// Whether `p` holds of all formats but schemas and choices of tags.
pub open spec fn holds_of_arguments(p: spec_fn(Format) -> bool) -> bool {
    forall|f: Format| f !is JsonSchema && f !is TagsWithSeparator ==> #[trigger] p(f)
}

proof fn lemma_value_every(schema: JsonTree, required: bool, p: spec_fn(Format) -> bool)
    requires
        holds_of_arguments(p),
    ensures
        value_format(schema, required) matches Some(f) ==> f.every(p),
{
    reveal_with_fuel(Format::every, 2);
    assert(p(string_format(required)));
    assert(p(boolean_format()));
    assert(p(Format::Regex(Pattern::Decimal)));
    assert(p(Format::Regex(Pattern::NonEmpty)));
    assert(p(Format::Regex(Pattern::Anything)));
    assert(p(Format::ConstString(GEMMA4_STRING_DELIM@)));
    assert(p(Format::ConstString("true"@)));
    assert(p(Format::ConstString("false"@)));
}

proof fn lemma_comma_separated_every(
    args: Seq<Format>,
    order: Seq<usize>,
    p: spec_fn(Format) -> bool,
)
    requires
        holds_of_arguments(p),
        forall|i: int| 0 <= i < args.len() ==> (#[trigger] args[i]).every(p),
        forall|k: int| 0 <= k < order.len() ==> #[trigger] order[k] < args.len(),
    ensures
        forall|i: int|
            0 <= i < comma_separated(args, order).len() ==> (#[trigger] comma_separated(
                args,
                order,
            )[i]).every(p),
    decreases order.len(),
{
    if order.len() == 1 {
        assert(args[order[0] as int].every(p));
    } else if order.len() > 1 {
        lemma_comma_separated_every(args, order.drop_last(), p);
        assert(order[order.len() - 1] < args.len());
        assert(args[order.last() as int].every(p));
        assert(p(Format::ConstString(","@)));
        assert(Format::ConstString(","@).every(p));
        let before = comma_separated(args, order.drop_last());
        let all = comma_separated(args, order);
        assert forall|i: int| 0 <= i < all.len() implies (#[trigger] all[i]).every(p) by {
            if i < before.len() {
                assert(all[i] == before[i]);
            }
        }
    }
}

proof fn lemma_orders_below_in_range(
    required: Seq<usize>,
    optional: Seq<usize>,
    masks: nat,
    n: nat,
    i: int,
)
    requires
        forall|k: int| 0 <= k < required.len() ==> #[trigger] required[k] < n,
        forall|k: int| 0 <= k < optional.len() ==> #[trigger] optional[k] < n,
        0 <= i < orders_below(required, optional, masks).len(),
    ensures
        forall|k: int|
            0 <= k < orders_below(required, optional, masks)[i].len()
                ==> #[trigger] orders_below(required, optional, masks)[i][k] < n,
    decreases masks,
{
    let prior = (masks - 1) as nat;
    let below = orders_below(required, optional, prior);
    if i < below.len() {
        lemma_orders_below_in_range(required, optional, prior, n, i);
    } else {
        let chosen = required + picked(optional, prior);
        let order = orderings(chosen)[i - below.len()];
        lemma_chosen_in_range(required, optional, prior, n);
        assert(orderings(chosen).contains(order));
        lemma_orders_in_range(chosen, order, n);
    }
}

proof fn lemma_branches_every(
    args: Seq<Format>,
    required: Seq<usize>,
    optional: Seq<usize>,
    masks: nat,
    p: spec_fn(Format) -> bool,
)
    requires
        holds_of_arguments(p),
        forall|i: int| 0 <= i < args.len() ==> (#[trigger] args[i]).every(p),
        forall|k: int| 0 <= k < required.len() ==> #[trigger] required[k] < args.len(),
        forall|k: int| 0 <= k < optional.len() ==> #[trigger] optional[k] < args.len(),
    ensures
        ({
            let branches = branches_in(args, orders_below(required, optional, masks));
            forall|i: int| 0 <= i < branches.len() ==> (#[trigger] branches[i]).every(p)
        }),
{
    let orders = orders_below(required, optional, masks);
    let branches = branches_in(args, orders);
    assert forall|i: int| 0 <= i < branches.len() implies (#[trigger] branches[i]).every(p) by {
        let order = orders[i];
        lemma_orders_below_in_range(required, optional, masks, args.len(), i);
        lemma_comma_separated_every(args, order, p);
        assert(p(Format::ConstString(""@)));
        assert(p(Format::Sequence(comma_separated(args, order))));
        assert(branch_format(args, order).every(p));
    }
}

/// The arguments are made of other formats than schemas and choices of tags.
pub proof fn lemma_tool_args_every(parameters: Option<JsonTree>, p: spec_fn(Format) -> bool)
    requires
        holds_of_arguments(p),
    ensures
        tool_args_format(parameters).every(p),
{
    let format = tool_args_format(parameters);
    assert(p(format)) by {
        assert(format !is JsonSchema && format !is TagsWithSeparator);
    }
    if parameters is Some && exact_tier(parameters->0) is Some {
        let params = parameters->0;
        let properties = params.field("properties"@)->0->Object_0;
        let names = required_names(params);
        let args = arg_formats(properties, names);
        let required = required_slots(properties, names);
        let optional = optional_slots(properties, names);
        assert forall|i: int| 0 <= i < args.len() implies (#[trigger] args[i]).every(p) by {
            let key = properties[i].0;
            assert(slot_format(properties, names, i) is Some);
            lemma_value_every(properties[i].1, names.contains(key), p);
            assert(p(Format::ConstString(key + ":"@)));
            assert(Format::ConstString(key + ":"@).every(p));
            assert(p(args[i]));
        }
        lemma_slots_in_range(properties, names);
        lemma_branches_every(args, required, optional, pow2(optional.len()), p);
        let all = exact_branches(properties, names);
        assert(p(Format::Or(all)));
        assert(one_of(all).every(p));
        assert(p(Format::ConstString("{"@)));
        assert(Format::ConstString("{"@).every(p));
        assert(p(Format::ConstString("}"@)));
        assert(Format::ConstString("}"@).every(p));
    } else if required_string_keys(parameters).len() > 0 {
        let keys = required_string_keys(parameters);
        assert(nonempty_value_format().every(p)) by {
            reveal_with_fuel(Format::every, 2);
            assert(p(nonempty_value_format()));
            assert(p(Format::Regex(Pattern::NonEmpty)));
            assert(p(Format::ConstString(GEMMA4_STRING_DELIM@)));
        }
        lemma_dispatch_rules_value(keys);
    }
}

/// Each rule asks for a value that is not empty.
pub proof fn lemma_dispatch_rules_value(keys: Seq<Seq<char>>)
    ensures
        forall|i: int|
            0 <= i < dispatch_rules(keys).len() ==> (#[trigger] dispatch_rules(keys)[i]).1
                == nonempty_value_format(),
    decreases keys.len(),
{
    if keys.len() > 0 {
        lemma_dispatch_rules_value(keys.drop_last());
    }
}

/// The grammar of the arguments is a well-formed value, whatever the parameters.
pub proof fn law_tool_args_wf(parameters: Option<JsonTree>)
    ensures
        tool_args_format(parameters).render().wf(),
{
    lemma_tool_args_every(parameters, schema_is_wf());
    law_render_wf(tool_args_format(parameters));
}

} // verus!
