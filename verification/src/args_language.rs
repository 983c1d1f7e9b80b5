//! What the grammar of a call's body admits.
use crate::args::{
    arg_format, arg_formats, boolean_format, branch_format, comma_separated, dispatch_rules,
    exact_args_fit, exact_args_format, exact_branches, exact_orders, exact_tier, is_declared,
    is_string, is_string_key, lemma_dispatch_rules_value, nonempty_value_format, one_of,
    optional_slots, orders_below, picked, required_names, required_slots, required_string_keys,
    slot_format, slots, string_format, tool_args_format, value_format,
};
use crate::format::{Format, Pattern};
use crate::json::{JsonTree, keys_distinct, lemma_lookup_place};
use crate::language::{
    SchemaTexts, first_trigger_ends, is_digits, is_unsigned, joined, lemma_between,
    lemma_in_turn_concat, lemma_in_turn_one, lemma_in_turn_two, trigger_ends,
};
use crate::markers::{GEMMA4_STRING_DELIM, GEMMA4_TOOL_CALL_END};
use crate::permute::{law_orderings_are_the_rearrangements, orderings};
use vstd::arithmetic::power2::{lemma_pow2_unfold, pow2};
use vstd::prelude::*;

verus! {

/// `key:value` for each property that `order` names.
pub open spec fn pairs(
    properties: Seq<(Seq<char>, JsonTree)>,
    order: Seq<usize>,
    values: Seq<Seq<char>>,
) -> Seq<Seq<char>> {
    Seq::new(order.len(), |k: int| properties[order[k] as int].0 + ":"@ + values[k])
}

/// The arguments in the order given, with commas between them.
pub open spec fn args_text(
    properties: Seq<(Seq<char>, JsonTree)>,
    order: Seq<usize>,
    values: Seq<Seq<char>>,
) -> Seq<char> {
    joined(pairs(properties, order, values), ","@)
}

/// The arguments in the order given, in braces.
pub open spec fn body_text(
    properties: Seq<(Seq<char>, JsonTree)>,
    order: Seq<usize>,
    values: Seq<Seq<char>>,
) -> Seq<char> {
    "{"@ + args_text(properties, order, values) + "}"@
}

/// Whether `order` names properties, none of them twice, and all that are required.
pub open spec fn complete_order(
    properties: Seq<(Seq<char>, JsonTree)>,
    required: Seq<Seq<char>>,
    order: Seq<usize>,
) -> bool {
    &&& order.no_duplicates()
    &&& forall|k: int| 0 <= k < order.len() ==> #[trigger] order[k] < properties.len()
    &&& forall|i: usize|
        i < properties.len() && required.contains(properties[i as int].0)
            ==> #[trigger] order.contains(i)
}

/// Whether there is a value for each property of `order`, and it is one that the type of the
/// property admits.
pub open spec fn admissible_values(
    properties: Seq<(Seq<char>, JsonTree)>,
    required: Seq<Seq<char>>,
    fits: SchemaTexts,
    order: Seq<usize>,
    values: Seq<Seq<char>>,
) -> bool {
    &&& values.len() == order.len()
    &&& forall|k: int|
        0 <= k < order.len() ==> slot_format(properties, required, order[k] as int)->0.accepts(
            fits,
            #[trigger] values[k],
        )
}

/// Whether the text is that of admissible arguments in this order.
pub open spec fn is_args_text(
    properties: Seq<(Seq<char>, JsonTree)>,
    required: Seq<Seq<char>>,
    fits: SchemaTexts,
    order: Seq<usize>,
    s: Seq<char>,
) -> bool {
    exists|values: Seq<Seq<char>>|
        admissible_values(properties, required, fits, order, values) && s == #[trigger] args_text(
            properties,
            order,
            values,
        )
}

proof fn lemma_arg(key: Seq<char>, value: Format, fits: SchemaTexts, s: Seq<char>)
    ensures
        arg_format(key, value).accepts(fits, s) <==> exists|v: Seq<char>|
            value.accepts(fits, v) && s == #[trigger] (key + ":"@ + v),
{
    let label = Format::ConstString(key + ":"@);
    lemma_in_turn_two(label, value, fits, s);
    if arg_format(key, value).accepts(fits, s) {
        let n = choose|n: int|
            0 <= n <= s.len() && label.accepts(fits, #[trigger] s.take(n)) && value.accepts(
                fits,
                s.skip(n),
            );
        assert(s =~= key + ":"@ + s.skip(n));
    }
    if exists|v: Seq<char>| value.accepts(fits, v) && s == #[trigger] (key + ":"@ + v) {
        let v = choose|v: Seq<char>| value.accepts(fits, v) && s == #[trigger] (key + ":"@ + v);
        let n = (key + ":"@).len() as int;
        assert(s.take(n) =~= key + ":"@);
        assert(s.skip(n) =~= v);
    }
}

proof fn lemma_args_text_last(
    properties: Seq<(Seq<char>, JsonTree)>,
    order: Seq<usize>,
    values: Seq<Seq<char>>,
)
    requires
        order.len() > 1,
        values.len() == order.len(),
    ensures
        args_text(properties, order, values) == args_text(
            properties,
            order.drop_last(),
            values.drop_last(),
        ) + ","@ + (properties[order.last() as int].0 + ":"@ + values.last()),
{
    assert(pairs(properties, order, values).drop_last() =~= pairs(
        properties,
        order.drop_last(),
        values.drop_last(),
    ));
}

/// What the last of several arguments adds: a comma and the pair.
proof fn lemma_last_arg(key: Seq<char>, value: Format, fits: SchemaTexts, s: Seq<char>)
    ensures
        Format::accepts_in_turn(
            seq![Format::ConstString(","@), arg_format(key, value)],
            fits,
            s,
        ) <==> exists|v: Seq<char>|
            value.accepts(fits, v) && s == ","@ + #[trigger] (key + ":"@ + v),
{
    let comma = Format::ConstString(","@);
    let arg = arg_format(key, value);
    lemma_in_turn_two(comma, arg, fits, s);
    if Format::accepts_in_turn(seq![comma, arg], fits, s) {
        let m = choose|m: int|
            0 <= m <= s.len() && comma.accepts(fits, #[trigger] s.take(m)) && arg.accepts(
                fits,
                s.skip(m),
            );
        lemma_arg(key, value, fits, s.skip(m));
        let v = choose|v: Seq<char>|
            value.accepts(fits, v) && s.skip(m) == #[trigger] (key + ":"@ + v);
        assert(s =~= ","@ + (key + ":"@ + v));
    }
    if exists|v: Seq<char>| value.accepts(fits, v) && s == ","@ + #[trigger] (key + ":"@ + v) {
        let v = choose|v: Seq<char>|
            value.accepts(fits, v) && s == ","@ + #[trigger] (key + ":"@ + v);
        let pair = key + ":"@ + v;
        let m = ","@.len() as int;
        lemma_arg(key, value, fits, pair);
        assert(s.take(m) =~= ","@);
        assert(s.skip(m) =~= pair);
    }
}

/// Admissible values for a longer order are those for the shorter one and one more.
proof fn lemma_admissible_last(
    properties: Seq<(Seq<char>, JsonTree)>,
    required: Seq<Seq<char>>,
    fits: SchemaTexts,
    order: Seq<usize>,
    values: Seq<Seq<char>>,
)
    requires
        order.len() > 0,
        values.len() == order.len(),
    ensures
        admissible_values(properties, required, fits, order, values) <==> admissible_values(
            properties,
            required,
            fits,
            order.drop_last(),
            values.drop_last(),
        ) && slot_format(properties, required, order.last() as int)->0.accepts(fits, values.last()),
{
    let prior = order.drop_last();
    let earlier = values.drop_last();
    if admissible_values(properties, required, fits, order, values) {
        assert forall|k: int| 0 <= k < prior.len() implies slot_format(
            properties,
            required,
            prior[k] as int,
        )->0.accepts(fits, #[trigger] earlier[k]) by {
            assert(values[k] == earlier[k]);
        }
        assert(values[values.len() - 1] == values.last());
    }
    if admissible_values(properties, required, fits, prior, earlier) && slot_format(
        properties,
        required,
        order.last() as int,
    )->0.accepts(fits, values.last()) {
        assert forall|k: int| 0 <= k < order.len() implies slot_format(
            properties,
            required,
            order[k] as int,
        )->0.accepts(fits, #[trigger] values[k]) by {
            if k < prior.len() {
                assert(earlier[k] == values[k]);
            }
        }
    }
}

proof fn lemma_comma_separated_reads(
    properties: Seq<(Seq<char>, JsonTree)>,
    required: Seq<Seq<char>>,
    fits: SchemaTexts,
    order: Seq<usize>,
    s: Seq<char>,
)
    requires
        order.len() > 0,
        forall|k: int| 0 <= k < order.len() ==> #[trigger] order[k] < properties.len(),
        Format::accepts_in_turn(
            comma_separated(arg_formats(properties, required), order),
            fits,
            s,
        ),
    ensures
        is_args_text(properties, required, fits, order, s),
    decreases order.len(),
{
    let args = arg_formats(properties, required);
    let i = order.last() as int;
    assert(order[order.len() - 1] < properties.len());
    let key = properties[i].0;
    let value = slot_format(properties, required, i)->0;
    if order.len() == 1 {
        lemma_in_turn_one(args[i], fits, s);
        lemma_arg(key, value, fits, s);
        let v = choose|v: Seq<char>| value.accepts(fits, v) && s == #[trigger] (key + ":"@ + v);
        assert(admissible_values(properties, required, fits, order, seq![v]));
        assert(s == args_text(properties, order, seq![v]));
    } else {
        let prior = order.drop_last();
        let before = comma_separated(args, prior);
        let tail = seq![Format::ConstString(","@), args[i]];
        lemma_in_turn_concat(before, tail, fits, s);
        let n = choose|n: int|
            0 <= n <= s.len() && Format::accepts_in_turn(before, fits, #[trigger] s.take(n))
                && Format::accepts_in_turn(tail, fits, s.skip(n));
        lemma_comma_separated_reads(properties, required, fits, prior, s.take(n));
        let values = choose|values: Seq<Seq<char>>|
            admissible_values(properties, required, fits, prior, values) && s.take(n)
                == #[trigger] args_text(properties, prior, values);
        lemma_last_arg(key, value, fits, s.skip(n));
        let v = choose|v: Seq<char>|
            value.accepts(fits, v) && s.skip(n) == ","@ + #[trigger] (key + ":"@ + v);
        let all = values.push(v);
        assert(all.drop_last() =~= values);
        lemma_admissible_last(properties, required, fits, order, all);
        lemma_args_text_last(properties, order, all);
        assert(s =~= s.take(n) + s.skip(n));
        assert(args_text(properties, order, all) =~= s.take(n) + s.skip(n));
    }
}

proof fn lemma_comma_separated_admits(
    properties: Seq<(Seq<char>, JsonTree)>,
    required: Seq<Seq<char>>,
    fits: SchemaTexts,
    order: Seq<usize>,
    values: Seq<Seq<char>>,
)
    requires
        order.len() > 0,
        forall|k: int| 0 <= k < order.len() ==> #[trigger] order[k] < properties.len(),
        admissible_values(properties, required, fits, order, values),
    ensures
        Format::accepts_in_turn(
            comma_separated(arg_formats(properties, required), order),
            fits,
            args_text(properties, order, values),
        ),
    decreases order.len(),
{
    let args = arg_formats(properties, required);
    let s = args_text(properties, order, values);
    let i = order.last() as int;
    assert(order[order.len() - 1] < properties.len());
    let key = properties[i].0;
    let value = slot_format(properties, required, i)->0;
    lemma_admissible_last(properties, required, fits, order, values);
    if order.len() == 1 {
        lemma_in_turn_one(args[i], fits, s);
        lemma_arg(key, value, fits, s);
        assert(s == key + ":"@ + values[0]);
    } else {
        let prior = order.drop_last();
        let before = comma_separated(args, prior);
        let tail = seq![Format::ConstString(","@), args[i]];
        let head = args_text(properties, prior, values.drop_last());
        let last = ","@ + (key + ":"@ + values.last());
        let n = head.len() as int;
        lemma_args_text_last(properties, order, values);
        assert(s =~= head + last);
        assert(s.take(n) =~= head);
        assert(s.skip(n) =~= last);
        lemma_comma_separated_admits(properties, required, fits, prior, values.drop_last());
        lemma_last_arg(key, value, fits, last);
        lemma_in_turn_concat(before, tail, fits, s);
    }
}

/// A branch admits what the text of the arguments of its order can be.
pub proof fn lemma_branch(
    properties: Seq<(Seq<char>, JsonTree)>,
    required: Seq<Seq<char>>,
    fits: SchemaTexts,
    order: Seq<usize>,
    s: Seq<char>,
)
    requires
        forall|k: int| 0 <= k < order.len() ==> #[trigger] order[k] < properties.len(),
    ensures
        branch_format(arg_formats(properties, required), order).accepts(fits, s) <==> is_args_text(
            properties,
            required,
            fits,
            order,
            s,
        ),
{
    if order.len() == 0 {
        reveal_strlit("");
        let none = Seq::<Seq<char>>::empty();
        assert(admissible_values(properties, required, fits, order, none));
        assert(args_text(properties, order, none) =~= ""@);
        if is_args_text(properties, required, fits, order, s) {
            let values = choose|values: Seq<Seq<char>>|
                admissible_values(properties, required, fits, order, values) && s
                    == #[trigger] args_text(properties, order, values);
            assert(pairs(properties, order, values).len() == 0);
        }
    } else {
        let args = arg_formats(properties, required);
        if Format::accepts_in_turn(comma_separated(args, order), fits, s) {
            lemma_comma_separated_reads(properties, required, fits, order, s);
        }
        if is_args_text(properties, required, fits, order, s) {
            let values = choose|values: Seq<Seq<char>>|
                admissible_values(properties, required, fits, order, values) && s
                    == #[trigger] args_text(properties, order, values);
            lemma_comma_separated_admits(properties, required, fits, order, values);
        }
    }
}

/// What is picked out of a list without duplicates has none.
proof fn lemma_filter_distinct(all: Seq<usize>, p: spec_fn(usize) -> bool)
    requires
        all.no_duplicates(),
    ensures
        all.filter(p).no_duplicates(),
        forall|x: usize| #[trigger] all.filter(p).contains(x) <==> all.contains(x) && p(x),
    decreases all.len(),
{
    reveal(Seq::filter);
    if all.len() > 0 {
        let prior = all.drop_last();
        let kept = prior.filter(p);
        lemma_filter_distinct(prior, p);
        assert(all =~= prior.push(all.last()));
        assert forall|x: usize| #[trigger] all.filter(p).contains(x) <==> all.contains(x) && p(
            x,
        ) by {
            assert(all.contains(x) <==> prior.contains(x) || x == all.last()) by {
                if all.contains(x) && x != all.last() {
                    let k = all.index_of(x);
                    assert(prior[k] == x);
                }
                if prior.contains(x) {
                    let k = prior.index_of(x);
                    assert(all[k] == x);
                }
                assert(all[all.len() - 1] == all.last());
            }
            if p(all.last()) {
                assert(all.filter(p) == kept.push(all.last()));
                assert(kept.push(all.last()).contains(x) <==> kept.contains(x) || x
                    == all.last()) by {
                    if kept.push(all.last()).contains(x) && x != all.last() {
                        let k = kept.push(all.last()).index_of(x);
                        assert(kept[k] == x);
                    }
                    if kept.contains(x) {
                        let k = kept.index_of(x);
                        assert(kept.push(all.last())[k] == x);
                    }
                    assert(kept.push(all.last())[kept.len() as int] == all.last());
                }
            }
        }
        if p(all.last()) {
            assert(!prior.contains(all.last())) by {
                if prior.contains(all.last()) {
                    let k = prior.index_of(all.last());
                    assert(all[k] == all[all.len() - 1]);
                }
            }
            assert(!kept.contains(all.last()));
            let grown = kept.push(all.last());
            assert forall|a: int, b: int| 0 <= a < b < grown.len() implies grown[a]
                != grown[b] by {
                assert(kept.contains(kept[a]));
            }
        }
    }
}

/// The required and the optional slots: each once, and together all.
pub proof fn lemma_slots(properties: Seq<(Seq<char>, JsonTree)>, required: Seq<Seq<char>>)
    requires
        properties.len() <= usize::MAX,
    ensures
        required_slots(properties, required).no_duplicates(),
        optional_slots(properties, required).no_duplicates(),
        forall|x: usize| #[trigger]
            required_slots(properties, required).contains(x) <==> x < properties.len()
                && required.contains(properties[x as int].0),
        forall|x: usize| #[trigger]
            optional_slots(properties, required).contains(x) <==> x < properties.len()
                && !required.contains(properties[x as int].0),
{
    let all = slots(properties.len());
    assert forall|x: usize| all.contains(x) <==> x < properties.len() by {
        if x < properties.len() {
            assert(all[x as int] == x);
        }
    }
    lemma_filter_distinct(all, crate::args::is_required_slot(properties, required));
    lemma_filter_distinct(all, crate::args::is_optional_slot(properties, required));
}

/// The number that picks those of `optional` that `order` names.
spec fn mask_of(optional: Seq<usize>, order: Seq<usize>) -> nat
    decreases optional.len(),
{
    if optional.len() == 0 {
        0
    } else {
        let rest = mask_of(optional.drop_first(), order);
        if order.contains(optional[0]) {
            2 * rest + 1
        } else {
            2 * rest
        }
    }
}

/// What is picked is picked once, and out of what there is.
pub proof fn lemma_picked(optional: Seq<usize>, mask: nat)
    requires
        optional.no_duplicates(),
    ensures
        picked(optional, mask).no_duplicates(),
        forall|x: usize| #[trigger] picked(optional, mask).contains(x) ==> optional.contains(x),
    decreases optional.len(),
{
    if optional.len() > 0 {
        let rest = optional.drop_first();
        let tail = picked(rest, mask / 2);
        let all = picked(optional, mask);
        lemma_picked(rest, mask / 2);
        assert forall|x: usize| rest.contains(x) implies optional.contains(x) && x
            != optional[0] by {
            let k = rest.index_of(x);
            assert(optional[k + 1] == x);
        }
        if mask % 2 == 1 {
            assert forall|x: usize| #[trigger] all.contains(x) implies optional.contains(x) by {
                let k = all.index_of(x);
                if k > 0 {
                    assert(tail[k - 1] == x);
                    assert(tail.contains(x));
                }
            }
            assert forall|a: int, b: int| 0 <= a < b < all.len() implies all[a] != all[b] by {
                assert(tail[b - 1] == all[b]);
                assert(tail.contains(all[b]));
                if a > 0 {
                    assert(tail[a - 1] == all[a]);
                }
            }
        }
    }
}

proof fn lemma_mask_of(optional: Seq<usize>, order: Seq<usize>)
    ensures
        mask_of(optional, order) < pow2(optional.len()),
        forall|x: usize| #[trigger]
            picked(optional, mask_of(optional, order)).contains(x) <==> optional.contains(x)
                && order.contains(x),
    decreases optional.len(),
{
    if optional.len() == 0 {
        vstd::arithmetic::power2::lemma2_to64();
    } else {
        let rest = optional.drop_first();
        let mask = mask_of(optional, order);
        let tail = picked(rest, mask_of(rest, order));
        let all = picked(optional, mask);
        lemma_mask_of(rest, order);
        lemma_pow2_unfold(optional.len());
        assert(mask / 2 == mask_of(rest, order));
        assert forall|x: usize| #[trigger] all.contains(x) <==> optional.contains(x)
            && order.contains(x) by {
            assert(optional.contains(x) <==> x == optional[0] || rest.contains(x)) by {
                if optional.contains(x) && x != optional[0] {
                    let k = optional.index_of(x);
                    assert(rest[k - 1] == x);
                }
                if rest.contains(x) {
                    let k = rest.index_of(x);
                    assert(optional[k + 1] == x);
                }
            }
            if order.contains(optional[0]) {
                assert(all == seq![optional[0]] + tail);
                if all.contains(x) && x != optional[0] {
                    let k = all.index_of(x);
                    assert(tail[k - 1] == x);
                }
                if tail.contains(x) {
                    let k = tail.index_of(x);
                    assert(all[k + 1] == x);
                }
                assert(all[0] == optional[0]);
            } else {
                assert(all == tail);
            }
        }
    }
}

/// Lists without duplicates that hold the same items hold each of them as often.
proof fn lemma_same_items(a: Seq<usize>, b: Seq<usize>)
    requires
        a.no_duplicates(),
        b.no_duplicates(),
        forall|x: usize| a.contains(x) <==> b.contains(x),
    ensures
        a.to_multiset() == b.to_multiset(),
{
    broadcast use vstd::seq_lib::group_to_multiset_ensures;

    a.lemma_multiset_has_no_duplicates();
    b.lemma_multiset_has_no_duplicates();
    assert forall|x: usize| a.to_multiset().count(x) == b.to_multiset().count(x) by {
        assert(a.contains(x) <==> b.contains(x));
        if a.contains(x) {
            assert(a.to_multiset().contains(x));
            assert(b.to_multiset().contains(x));
        }
    }
    assert(a.to_multiset() =~= b.to_multiset());
}

/// The slots that a number picks besides the required ones.
pub proof fn lemma_chosen(
    properties: Seq<(Seq<char>, JsonTree)>,
    required: Seq<Seq<char>>,
    mask: nat,
)
    requires
        properties.len() <= usize::MAX,
    ensures
        ({
            let needed = required_slots(properties, required);
            let extra = picked(optional_slots(properties, required), mask);
            &&& (needed + extra).no_duplicates()
            &&& forall|x: usize| #[trigger]
                (needed + extra).contains(x) <==> needed.contains(x) || extra.contains(x)
        }),
{
    let needed = required_slots(properties, required);
    let spare = optional_slots(properties, required);
    let extra = picked(spare, mask);
    let chosen = needed + extra;
    lemma_slots(properties, required);
    lemma_picked(spare, mask);
    assert forall|x: usize| #[trigger] chosen.contains(x) <==> needed.contains(x)
        || extra.contains(x) by {
        if chosen.contains(x) {
            let k = chosen.index_of(x);
            if k < needed.len() {
                assert(needed[k] == x);
            } else {
                assert(extra[k - needed.len()] == x);
            }
        }
        if needed.contains(x) {
            let k = needed.index_of(x);
            assert(chosen[k] == x);
        }
        if extra.contains(x) {
            let k = extra.index_of(x);
            assert(chosen[needed.len() + k] == x);
        }
    }
    assert forall|a: int, b: int| 0 <= a < b < chosen.len() implies chosen[a] != chosen[b] by {
        if a < needed.len() && b >= needed.len() {
            assert(needed.contains(needed[a]));
            assert(extra.contains(extra[b - needed.len()]));
            assert(spare.contains(chosen[b]));
        }
    }
}

/// What is listed for a number is complete.
proof fn lemma_listed_is_complete(
    properties: Seq<(Seq<char>, JsonTree)>,
    required: Seq<Seq<char>>,
    mask: nat,
    order: Seq<usize>,
)
    requires
        properties.len() <= usize::MAX,
        orderings(
            required_slots(properties, required) + picked(
                optional_slots(properties, required),
                mask,
            ),
        ).contains(order),
    ensures
        complete_order(properties, required, order),
{
    broadcast use vstd::seq_lib::group_to_multiset_ensures;

    let needed = required_slots(properties, required);
    let spare = optional_slots(properties, required);
    let extra = picked(spare, mask);
    let chosen = needed + extra;
    lemma_slots(properties, required);
    lemma_picked(spare, mask);
    lemma_chosen(properties, required, mask);
    law_orderings_are_the_rearrangements(chosen, order);
    chosen.lemma_multiset_has_no_duplicates();
    assert(order.no_duplicates()) by {
        order.lemma_multiset_has_no_duplicates_conv();
    }
    assert forall|x: usize| order.contains(x) <==> chosen.contains(x) by {
        assert(order.to_multiset().count(x) == chosen.to_multiset().count(x));
    }
    assert forall|k: int| 0 <= k < order.len() implies #[trigger] order[k] < properties.len() by {
        assert(order.contains(order[k]));
        assert(chosen.contains(order[k]));
        if !needed.contains(order[k]) {
            assert(extra.contains(order[k]));
            assert(spare.contains(order[k]));
        }
    }
    assert forall|i: usize|
        i < properties.len() && required.contains(properties[i as int].0) implies
        #[trigger] order.contains(i) by {
        assert(needed.contains(i));
        assert(chosen.contains(i));
    }
}

/// What is complete is listed for some number.
proof fn lemma_complete_is_listed(
    properties: Seq<(Seq<char>, JsonTree)>,
    required: Seq<Seq<char>>,
    order: Seq<usize>,
) -> (mask: nat)
    requires
        properties.len() <= usize::MAX,
        complete_order(properties, required, order),
    ensures
        mask < pow2(optional_slots(properties, required).len()),
        orderings(
            required_slots(properties, required) + picked(
                optional_slots(properties, required),
                mask,
            ),
        ).contains(order),
{
    let needed = required_slots(properties, required);
    let spare = optional_slots(properties, required);
    let mask = mask_of(spare, order);
    let extra = picked(spare, mask);
    let chosen = needed + extra;
    lemma_slots(properties, required);
    lemma_mask_of(spare, order);
    lemma_chosen(properties, required, mask);
    assert forall|x: usize| order.contains(x) <==> chosen.contains(x) by {
        if order.contains(x) {
            let k = order.index_of(x);
            assert(order[k] < properties.len());
            if required.contains(properties[x as int].0) {
                assert(needed.contains(x));
            } else {
                assert(spare.contains(x));
                assert(extra.contains(x));
            }
            assert(chosen.contains(x));
        }
        if chosen.contains(x) {
            if needed.contains(x) {
                assert(order.contains(x));
            } else {
                assert(extra.contains(x));
            }
        }
    }
    lemma_same_items(order, chosen);
    law_orderings_are_the_rearrangements(chosen, order);
    mask
}

/// Every order in the list is listed for some number.
proof fn lemma_order_origin(
    required: Seq<usize>,
    optional: Seq<usize>,
    masks: nat,
    order: Seq<usize>,
) -> (mask: nat)
    requires
        orders_below(required, optional, masks).contains(order),
    ensures
        mask < masks,
        orderings(required + picked(optional, mask)).contains(order),
    decreases masks,
{
    let prior = (masks - 1) as nat;
    let below = orders_below(required, optional, prior);
    let added = orderings(required + picked(optional, prior));
    let k = orders_below(required, optional, masks).index_of(order);
    if k < below.len() {
        assert(below[k] == order);
        lemma_order_origin(required, optional, prior, order)
    } else {
        assert(added[k - below.len()] == order);
        prior
    }
}

/// Every order that is listed for some number is in the list.
proof fn lemma_order_place(
    required: Seq<usize>,
    optional: Seq<usize>,
    masks: nat,
    mask: nat,
    order: Seq<usize>,
)
    requires
        mask < masks,
        orderings(required + picked(optional, mask)).contains(order),
    ensures
        orders_below(required, optional, masks).contains(order),
    decreases masks,
{
    let prior = (masks - 1) as nat;
    let below = orders_below(required, optional, prior);
    let added = orderings(required + picked(optional, prior));
    if mask < prior {
        lemma_order_place(required, optional, prior, mask, order);
        let k = below.index_of(order);
        assert((below + added)[k] == order);
    } else {
        let k = added.index_of(order);
        assert((below + added)[below.len() + k] == order);
    }
}

/// The orders of keys that the exact grammar admits are those that name no property twice and
/// every required one.
pub proof fn law_exact_orders_are_the_complete_ones(
    properties: Seq<(Seq<char>, JsonTree)>,
    required: Seq<Seq<char>>,
    order: Seq<usize>,
)
    requires
        properties.len() <= usize::MAX,
    ensures
        exact_orders(properties, required).contains(order) <==> complete_order(
            properties,
            required,
            order,
        ),
{
    let needed = required_slots(properties, required);
    let spare = optional_slots(properties, required);
    let masks = pow2(spare.len());
    if exact_orders(properties, required).contains(order) {
        let mask = lemma_order_origin(needed, spare, masks, order);
        lemma_listed_is_complete(properties, required, mask, order);
    }
    if complete_order(properties, required, order) {
        let mask = lemma_complete_is_listed(properties, required, order);
        lemma_order_place(needed, spare, masks, mask, order);
    }
}

/// Which of its properties a schema requires plays no part in whether the exact grammar can be
/// written.
pub proof fn law_fit_does_not_depend_on_what_is_required(
    properties: Seq<(Seq<char>, JsonTree)>,
    required: Seq<Seq<char>>,
)
    requires
        forall|k: int| 0 <= k < required.len() ==> #[trigger] is_declared(properties, required[k]),
    ensures
        exact_args_fit(properties, required) <==> exact_args_fit(properties, Seq::empty()),
{
    let none = Seq::<Seq<char>>::empty();
    assert forall|i: int| 0 <= i < properties.len() implies (#[trigger] slot_format(
        properties,
        required,
        i,
    )) is Some == slot_format(properties, none, i) is Some by {}
    if exact_args_fit(properties, required) {
        assert forall|i: int| 0 <= i < properties.len() implies (#[trigger] slot_format(
            properties,
            none,
            i,
        )) is Some by {
            assert(slot_format(properties, required, i) is Some);
        }
    }
}

/// Making a property required only takes away the orders that leave it out: the exact grammar
/// can still be written, and it admits the orders of keys that it admitted before and that name
/// the property.
pub proof fn law_requiring_a_key_removes_orders(
    properties: Seq<(Seq<char>, JsonTree)>,
    required: Seq<Seq<char>>,
    i: usize,
    order: Seq<usize>,
)
    requires
        exact_args_fit(properties, required),
        keys_distinct(properties),
        i < properties.len(),
    ensures
        ({
            let more = required.push(properties[i as int].0);
            &&& exact_args_fit(properties, more)
            &&& exact_orders(properties, more).contains(order) <==> exact_orders(
                properties,
                required,
            ).contains(order) && order.contains(i)
            &&& complete_order(properties, more, order) <==> complete_order(
                properties,
                required,
                order,
            ) && order.contains(i)
        }),
{
    let key = properties[i as int].0;
    let more = required.push(key);
    assert forall|name: Seq<char>| #[trigger] more.contains(name) <==> required.contains(name)
        || name == key by {
        if more.contains(name) && name != key {
            let k = more.index_of(name);
            assert(required[k] == name);
        }
        if required.contains(name) {
            let k = required.index_of(name);
            assert(more[k] == name);
        }
        assert(more[required.len() as int] == key);
    }
    assert forall|k: int| 0 <= k < properties.len() implies (#[trigger] slot_format(
        properties,
        more,
        k,
    )) is Some by {
        assert(slot_format(properties, required, k) is Some);
    }
    assert forall|k: int| 0 <= k < more.len() implies #[trigger] is_declared(
        properties,
        more[k],
    ) by {
        if k < required.len() {
            assert(is_declared(properties, required[k]));
        } else {
            assert(properties[i as int].0 == more[k]);
        }
    }
    assert forall|j: usize| j < properties.len() && properties[j as int].0 == key implies j == i by {
        if j < i {
            assert(properties[j as int].0 != properties[i as int].0);
        } else if i < j {
            assert(properties[i as int].0 != properties[j as int].0);
        }
    }
    if complete_order(properties, more, order) {
        assert(order.contains(i));
    }
    law_exact_orders_are_the_complete_ones(properties, required, order);
    law_exact_orders_are_the_complete_ones(properties, more, order);
}

/// A choice admits what one of the formats admits.
pub proof fn lemma_one_of(formats: Seq<Format>, fits: SchemaTexts, s: Seq<char>)
    ensures
        one_of(formats).accepts(fits, s) <==> Format::accepts_any(formats, fits, s),
{
    if formats.len() == 1 {
        if formats[0].accepts(fits, s) {
            assert(Format::accepts_any(formats, fits, s));
        }
    } else {
        assert(Format::Or(formats).accepts(fits, s) <==> Format::accepts_any(formats, fits, s));
    }
}

/// Whether the text is that of admissible arguments in a complete order.
pub open spec fn is_complete_args_text(
    properties: Seq<(Seq<char>, JsonTree)>,
    required: Seq<Seq<char>>,
    fits: SchemaTexts,
    s: Seq<char>,
) -> bool {
    exists|order: Seq<usize>| #[trigger]
        complete_order(properties, required, order) && is_args_text(
            properties,
            required,
            fits,
            order,
            s,
        )
}

/// The branches together admit what the text of admissible arguments in a complete order can be.
proof fn lemma_branches(
    properties: Seq<(Seq<char>, JsonTree)>,
    required: Seq<Seq<char>>,
    fits: SchemaTexts,
    s: Seq<char>,
)
    requires
        properties.len() <= usize::MAX,
    ensures
        one_of(exact_branches(properties, required)).accepts(fits, s) <==> is_complete_args_text(
            properties,
            required,
            fits,
            s,
        ),
{
    let args = arg_formats(properties, required);
    let orders = exact_orders(properties, required);
    let all = exact_branches(properties, required);
    lemma_one_of(all, fits, s);
    if one_of(all).accepts(fits, s) {
        let i = choose|i: int| 0 <= i < all.len() && (#[trigger] all[i]).accepts(fits, s);
        let order = orders[i];
        assert(orders.contains(order));
        law_exact_orders_are_the_complete_ones(properties, required, order);
        lemma_branch(properties, required, fits, order, s);
    }
    if is_complete_args_text(properties, required, fits, s) {
        let order = choose|order: Seq<usize>| #[trigger]
            complete_order(properties, required, order) && is_args_text(
                properties,
                required,
                fits,
                order,
                s,
            );
        law_exact_orders_are_the_complete_ones(properties, required, order);
        let i = orders.index_of(order);
        lemma_branch(properties, required, fits, order, s);
        assert(all[i] == branch_format(args, order));
        assert(all[i].accepts(fits, s));
    }
}

/// The exact grammar admits a body if and only if it is, in braces, `key:value` pairs with
/// commas between them, in any order, in which no key occurs twice and every required key
/// does, and each value is one that the type of its property admits.
pub proof fn law_exact_args_language(
    properties: Seq<(Seq<char>, JsonTree)>,
    required: Seq<Seq<char>>,
    fits: SchemaTexts,
    s: Seq<char>,
)
    requires
        exact_args_fit(properties, required),
    ensures
        exact_args_format(properties, required)->0.accepts(fits, s) <==> exists|
            order: Seq<usize>,
            values: Seq<Seq<char>>,
        |
            {
                &&& complete_order(properties, required, order)
                &&& admissible_values(properties, required, fits, order, values)
                &&& s == #[trigger] body_text(properties, order, values)
            },
{
    let body = one_of(exact_branches(properties, required));
    lemma_between("{"@, body, "}"@, fits, s);
    if exact_args_format(properties, required)->0.accepts(fits, s) {
        let inner = choose|inner: Seq<char>|
            body.accepts(fits, inner) && s == #[trigger] ("{"@ + inner + "}"@);
        lemma_branches(properties, required, fits, inner);
        let order = choose|order: Seq<usize>| #[trigger]
            complete_order(properties, required, order) && is_args_text(
                properties,
                required,
                fits,
                order,
                inner,
            );
        let values = choose|values: Seq<Seq<char>>|
            admissible_values(properties, required, fits, order, values) && inner
                == #[trigger] args_text(properties, order, values);
        assert(s == body_text(properties, order, values));
    }
    if exists|order: Seq<usize>, values: Seq<Seq<char>>|
        {
            &&& complete_order(properties, required, order)
            &&& admissible_values(properties, required, fits, order, values)
            &&& s == #[trigger] body_text(properties, order, values)
        } {
        let (order, values) = choose|order: Seq<usize>, values: Seq<Seq<char>>|
            {
                &&& complete_order(properties, required, order)
                &&& admissible_values(properties, required, fits, order, values)
                &&& s == #[trigger] body_text(properties, order, values)
            };
        let inner = args_text(properties, order, values);
        assert(is_args_text(properties, required, fits, order, inner));
        lemma_branches(properties, required, fits, inner);
        assert(s == "{"@ + inner + "}"@);
    }
}

/// Whether `part` stands somewhere in the text.
pub open spec fn stands_in(part: Seq<char>, s: Seq<char>) -> bool {
    exists|at: int|
        0 <= at && at + part.len() <= s.len() && #[trigger] s.subrange(at, at + part.len()) == part
}

proof fn lemma_stands_in_middle(before: Seq<char>, part: Seq<char>, after: Seq<char>)
    ensures
        stands_in(part, before + part + after),
{
    let s = before + part + after;
    let at = before.len() as int;
    assert(s.subrange(at, at + part.len()) =~= part);
}

proof fn lemma_joined_around(parts: Seq<Seq<char>>, separator: Seq<char>, k: int) -> (around: (
    Seq<char>,
    Seq<char>,
))
    requires
        0 <= k < parts.len(),
    ensures
        joined(parts, separator) == around.0 + parts[k] + around.1,
    decreases parts.len(),
{
    let none = Seq::<char>::empty();
    if parts.len() == 1 {
        assert(joined(parts, separator) =~= none + parts[k] + none);
        (none, none)
    } else if k == parts.len() - 1 {
        let before = joined(parts.drop_last(), separator) + separator;
        assert(joined(parts, separator) =~= before + parts[k] + none);
        (before, none)
    } else {
        let (before, after) = lemma_joined_around(parts.drop_last(), separator, k);
        let longer = after + separator + parts.last();
        assert(joined(parts, separator) =~= before + parts[k] + longer);
        (before, longer)
    }
}

/// A required argument in a body that the exact grammar admits: what stands before it, its value,
/// and what stands behind it.
proof fn lemma_required_pair(
    properties: Seq<(Seq<char>, JsonTree)>,
    required: Seq<Seq<char>>,
    fits: SchemaTexts,
    s: Seq<char>,
    i: int,
) -> (found: (Seq<char>, Seq<char>, Seq<char>))
    requires
        exact_args_fit(properties, required),
        0 <= i < properties.len(),
        required.contains(properties[i].0),
        exact_args_format(properties, required)->0.accepts(fits, s),
    ensures
        s == "{"@ + found.0 + (properties[i].0 + ":"@ + found.1) + found.2 + "}"@,
        slot_format(properties, required, i)->0.accepts(fits, found.1),
{
    law_exact_args_language(properties, required, fits, s);
    let (order, values) = choose|order: Seq<usize>, values: Seq<Seq<char>>|
        {
            &&& complete_order(properties, required, order)
            &&& admissible_values(properties, required, fits, order, values)
            &&& s == #[trigger] body_text(properties, order, values)
        };
    let slot = i as usize;
    assert(order.contains(slot));
    let k = order.index_of(slot);
    let (before, after) = lemma_joined_around(pairs(properties, order, values), ","@, k);
    assert(slot_format(properties, required, order[k] as int)->0.accepts(fits, values[k]));
    assert(s =~= "{"@ + before + (properties[i].0 + ":"@ + values[k]) + after + "}"@);
    (before, values[k], after)
}

/// No required key can be left out, whatever its name: it stands, with its colon, in every body
/// that the exact grammar admits, so that the empty body is not among them.
pub proof fn law_required_key_appears(
    properties: Seq<(Seq<char>, JsonTree)>,
    required: Seq<Seq<char>>,
    fits: SchemaTexts,
    s: Seq<char>,
    key: Seq<char>,
)
    requires
        exact_args_fit(properties, required),
        required.contains(key),
    ensures
        exact_args_format(properties, required)->0.accepts(fits, s) ==> stands_in(key + ":"@, s),
        !exact_args_format(properties, required)->0.accepts(fits, "{}"@),
{
    let label = key + ":"@;
    assert(is_declared(properties, required[required.index_of(key)]));
    let i = choose|i: int| 0 <= i < properties.len() && (#[trigger] properties[i]).0 == key;
    if exact_args_format(properties, required)->0.accepts(fits, s) {
        let (before, value, after) = lemma_required_pair(properties, required, fits, s, i);
        let head = "{"@ + before;
        let tail = value + after + "}"@;
        assert(s =~= head + label + tail);
        lemma_stands_in_middle(head, label, tail);
    }
    if exact_args_format(properties, required)->0.accepts(fits, "{}"@) {
        let (before, value, after) = lemma_required_pair(properties, required, fits, "{}"@, i);
        reveal_strlit("{}");
        reveal_strlit("{");
        reveal_strlit("}");
        reveal_strlit(":");
        assert("{}"@.len() == ("{"@ + before + (label + value) + after + "}"@).len());
    }
}

/// The body in which `key` is given an empty value, with `gap` between the two.
pub open spec fn empty_value_body(key: Seq<char>, gap: Seq<char>) -> Seq<char> {
    "{"@ + key + gap + GEMMA4_STRING_DELIM@ + GEMMA4_STRING_DELIM@ + "}"@
}

/// A required string cannot be left empty: in every body that the exact grammar admits its key
/// stands before a text in delimiters that is not empty, so that the body in which the key has
/// an empty value is not among them.
pub proof fn law_required_string_is_filled(
    properties: Seq<(Seq<char>, JsonTree)>,
    required: Seq<Seq<char>>,
    fits: SchemaTexts,
    s: Seq<char>,
    i: int,
)
    requires
        exact_args_fit(properties, required),
        0 <= i < properties.len(),
        required.contains(properties[i].0),
        is_string(properties[i].1),
    ensures
        exact_args_format(properties, required)->0.accepts(fits, s) ==> exists|text: Seq<char>|
            text.len() > 0 && #[trigger] stands_in(
                properties[i].0 + ":"@ + GEMMA4_STRING_DELIM@ + text + GEMMA4_STRING_DELIM@,
                s,
            ),
        !exact_args_format(properties, required)->0.accepts(
            fits,
            empty_value_body(properties[i].0, ":"@),
        ),
{
    let key = properties[i].0;
    let delim = GEMMA4_STRING_DELIM@;
    let empty = empty_value_body(key, ":"@);
    assert(slot_format(properties, required, i) == Some(string_format(true)));
    if exact_args_format(properties, required)->0.accepts(fits, s) {
        let (before, value, after) = lemma_required_pair(properties, required, fits, s, i);
        law_string_value(true, fits, value);
        let text = choose|text: Seq<char>|
            (true ==> text.len() > 0) && value == #[trigger] (delim + text + delim);
        let pair = key + ":"@ + delim + text + delim;
        let head = "{"@ + before;
        let tail = after + "}"@;
        assert(s =~= head + pair + tail);
        lemma_stands_in_middle(head, pair, tail);
    }
    if exact_args_format(properties, required)->0.accepts(fits, empty) {
        let (before, value, after) = lemma_required_pair(properties, required, fits, empty, i);
        law_string_value(true, fits, value);
        let text = choose|text: Seq<char>|
            (true ==> text.len() > 0) && value == #[trigger] (delim + text + delim);
        assert(empty.len() == ("{"@ + before + (key + ":"@ + value) + after + "}"@).len());
    }
}

/// Where nothing is required, the empty body is admitted.
pub proof fn law_all_optional_admits_empty_body(
    properties: Seq<(Seq<char>, JsonTree)>,
    required: Seq<Seq<char>>,
    fits: SchemaTexts,
)
    requires
        exact_args_fit(properties, required),
        required.len() == 0,
    ensures
        exact_args_format(properties, required)->0.accepts(fits, "{}"@),
{
    law_exact_args_language(properties, required, fits, "{}"@);
    let order = Seq::<usize>::empty();
    let values = Seq::<Seq<char>>::empty();
    assert(complete_order(properties, required, order));
    assert(admissible_values(properties, required, fits, order, values));
    reveal_strlit("{}");
    reveal_strlit("{");
    reveal_strlit("}");
    assert(pairs(properties, order, values).len() == 0);
    assert("{}"@ =~= body_text(properties, order, values));
}

/// The value of a string argument is a text between delimiters, and for a required one the
/// text is not empty.
pub proof fn law_string_value(required: bool, fits: SchemaTexts, s: Seq<char>)
    ensures
        string_format(required).accepts(fits, s) <==> exists|text: Seq<char>|
            (required ==> text.len() > 0) && s == #[trigger] (GEMMA4_STRING_DELIM@ + text
                + GEMMA4_STRING_DELIM@),
{
    let inner = Format::Regex(
        if required {
            Pattern::NonEmpty
        } else {
            Pattern::Anything
        },
    );
    let delim = GEMMA4_STRING_DELIM@;
    lemma_between(delim, inner, delim, fits, s);
    assert forall|text: Seq<char>| inner.accepts(fits, text) <==> (required ==> text.len() > 0) by {
    }
    if exists|text: Seq<char>|
        (required ==> text.len() > 0) && s == #[trigger] (delim + text + delim) {
        let text = choose|text: Seq<char>|
            (required ==> text.len() > 0) && s == #[trigger] (delim + text + delim);
        assert(inner.accepts(fits, text));
    }
}

/// With one property, a required string, the body is that key and a text that is not empty:
/// neither leaving the key out nor giving it an empty value is admitted.
pub proof fn law_single_required_string(
    key: Seq<char>,
    schema: JsonTree,
    required: Seq<Seq<char>>,
    fits: SchemaTexts,
    s: Seq<char>,
)
    requires
        is_string(schema),
        required.len() > 0,
        forall|k: int| 0 <= k < required.len() ==> #[trigger] required[k] == key,
    ensures
        exact_args_format(seq![(key, schema)], required) is Some,
        exact_args_format(seq![(key, schema)], required)->0.accepts(fits, s) <==> exists|
            text: Seq<char>,
        |
            text.len() > 0 && s == "{"@ + key + ":"@ + #[trigger] (GEMMA4_STRING_DELIM@ + text
                + GEMMA4_STRING_DELIM@) + "}"@,
        !exact_args_format(seq![(key, schema)], required)->0.accepts(fits, "{}"@),
        !exact_args_format(seq![(key, schema)], required)->0.accepts(
            fits,
            "{"@ + key + ":"@ + (GEMMA4_STRING_DELIM@ + GEMMA4_STRING_DELIM@) + "}"@,
        ),
{
    let properties = seq![(key, schema)];
    assert(required[0] == key);
    assert forall|i: int| 0 <= i < properties.len() implies (#[trigger] slot_format(
        properties,
        required,
        i,
    )) == Some(string_format(true)) by {}
    let empty_value = "{"@ + key + ":"@ + (GEMMA4_STRING_DELIM@ + GEMMA4_STRING_DELIM@) + "}"@;
    lemma_single_required_string(key, schema, required, fits, s);
    lemma_single_required_string(key, schema, required, fits, empty_value);
    law_required_key_appears(properties, required, fits, s, key);
    if exact_args_format(properties, required)->0.accepts(fits, empty_value) {
        let text = choose|text: Seq<char>|
            text.len() > 0 && empty_value == "{"@ + key + ":"@ + #[trigger] (GEMMA4_STRING_DELIM@
                + text + GEMMA4_STRING_DELIM@) + "}"@;
        assert(empty_value.len() < ("{"@ + key + ":"@ + (GEMMA4_STRING_DELIM@ + text
            + GEMMA4_STRING_DELIM@) + "}"@).len());
    }
}

proof fn lemma_single_required_string(
    key: Seq<char>,
    schema: JsonTree,
    required: Seq<Seq<char>>,
    fits: SchemaTexts,
    s: Seq<char>,
)
    requires
        is_string(schema),
        required.len() > 0,
        forall|k: int| 0 <= k < required.len() ==> #[trigger] required[k] == key,
    ensures
        exact_args_format(seq![(key, schema)], required) is Some,
        exact_args_format(seq![(key, schema)], required)->0.accepts(fits, s) <==> exists|
            text: Seq<char>,
        |
            text.len() > 0 && s == "{"@ + key + ":"@ + #[trigger] (GEMMA4_STRING_DELIM@ + text
                + GEMMA4_STRING_DELIM@) + "}"@,
{
    let properties = seq![(key, schema)];
    assert(required[0] == key);
    let delim = GEMMA4_STRING_DELIM@;
    assert forall|i: int| 0 <= i < properties.len() implies (#[trigger] slot_format(
        properties,
        required,
        i,
    )) == Some(string_format(true)) by {}
    assert forall|k: int| 0 <= k < required.len() implies #[trigger] is_declared(
        properties,
        required[k],
    ) by {
        assert(properties[0].0 == required[k]);
    }
    assert(exact_args_fit(properties, required));
    law_exact_args_language(properties, required, fits, s);
    if exact_args_format(properties, required)->0.accepts(fits, s) {
        let (order, values) = choose|order: Seq<usize>, values: Seq<Seq<char>>|
            {
                &&& complete_order(properties, required, order)
                &&& admissible_values(properties, required, fits, order, values)
                &&& s == #[trigger] body_text(properties, order, values)
            };
        assert(order.contains(0usize));
        let k = order.index_of(0usize);
        assert(order.len() == 1) by {
            if order.len() > 1 {
                assert(order[0] < 1 && order[1] < 1);
                assert(order[0] == order[1]);
            }
        }
        assert(slot_format(properties, required, order[0] as int)->0.accepts(fits, values[0]));
        law_string_value(true, fits, values[0]);
        let text = choose|text: Seq<char>|
            (true ==> text.len() > 0) && values[0] == #[trigger] (delim + text + delim);
        assert(pairs(properties, order, values)[0] == key + ":"@ + values[0]);
        assert(s =~= "{"@ + key + ":"@ + (delim + text + delim) + "}"@);
    }
    if exists|text: Seq<char>|
        text.len() > 0 && s == "{"@ + key + ":"@ + #[trigger] (delim + text + delim) + "}"@ {
        let text = choose|text: Seq<char>|
            text.len() > 0 && s == "{"@ + key + ":"@ + #[trigger] (delim + text + delim) + "}"@;
        let value = delim + text + delim;
        let order = seq![0usize];
        let values = seq![value];
        law_string_value(true, fits, value);
        assert(order[0] == 0usize);
        assert(complete_order(properties, required, order));
        assert(admissible_values(properties, required, fits, order, values));
        assert(pairs(properties, order, values)[0] == key + ":"@ + value);
        assert(s =~= body_text(properties, order, values));
    }
}

/// Free text with rules for required strings: a text in which none of the keys is begun is
/// admitted, so that no key has to appear. Where a text is admitted and a key and its opening
/// delimiter, the first to be complete, end at `at`, at least one character comes between them
/// and a closing delimiter, and of what is behind that the same holds again.
pub proof fn law_begun_string_is_not_left_empty(
    keys: Seq<Seq<char>>,
    fits: SchemaTexts,
    s: Seq<char>,
    at: int,
)
    ensures
        ({
            let rules = dispatch_rules(keys);
            let guarded = Format::Dispatch { rules, repeat: true };
            &&& (forall|r: int, end: int| !(#[trigger] trigger_ends(rules, s, r, end)))
                ==> guarded.accepts(fits, s)
            &&& guarded.accepts(fits, s) && (exists|r: int| #[trigger]
                first_trigger_ends(rules, s, r, at)) ==> exists|close: int|
                {
                    &&& at < close
                    &&& close + GEMMA4_STRING_DELIM@.len() <= s.len()
                    &&& #[trigger] s.subrange(close, close + GEMMA4_STRING_DELIM@.len())
                        == GEMMA4_STRING_DELIM@
                    &&& guarded.accepts(fits, s.skip(close + GEMMA4_STRING_DELIM@.len()))
                }
        }),
{
    let rules = dispatch_rules(keys);
    let guarded = Format::Dispatch { rules, repeat: true };
    let delim = GEMMA4_STRING_DELIM@;
    assert(guarded.accepts(fits, s) <==> Format::accepts_dispatched(rules, true, fits, s));
    if guarded.accepts(fits, s) && exists|r: int| #[trigger] first_trigger_ends(rules, s, r, at) {
        let r0 = choose|r: int| #[trigger] first_trigger_ends(rules, s, r, at);
        assert(trigger_ends(rules, s, r0, at));
        let (r, start, end) = choose|r: int, start: int, end: int|
            {
                &&& #[trigger] first_trigger_ends(rules, s, r, start)
                &&& start <= end <= s.len()
                &&& 0 < end
                &&& rules[r].1.accepts(fits, #[trigger] s.subrange(start, end))
                &&& Format::accepts_dispatched(rules, true, fits, s.skip(end))
            };
        assert(trigger_ends(rules, s, r, start));
        assert(start == at);
        lemma_dispatch_rules_value(keys);
        let value = s.subrange(at, end);
        let any = Format::Regex(Pattern::NonEmpty);
        let closer = Format::ConstString(delim);
        assert(rules[r].1 == nonempty_value_format());
        lemma_in_turn_two(any, closer, fits, value);
        let n = choose|n: int|
            0 <= n <= value.len() && any.accepts(fits, #[trigger] value.take(n)) && closer.accepts(
                fits,
                value.skip(n),
            );
        let close = at + n;
        assert(s.subrange(close, close + delim.len()) =~= value.skip(n));
        assert(guarded.accepts(fits, s.skip(end)));
    }
}

/// In the body in which a key is given an empty value, the opening delimiter is the first to be
/// complete, where the key itself holds none.
proof fn lemma_first_delimiter(key: Seq<char>, gap: Seq<char>, end: int)
    requires
        gap == ":"@ || gap == ": "@,
        !stands_in(GEMMA4_STRING_DELIM@, key),
        GEMMA4_STRING_DELIM@.len() <= end <= empty_value_body(key, gap).len(),
        empty_value_body(key, gap).subrange(end - GEMMA4_STRING_DELIM@.len(), end)
            == GEMMA4_STRING_DELIM@,
    ensures
        ("{"@ + key + gap + GEMMA4_STRING_DELIM@).len() <= end,
{
    reveal_strlit("<|\"|>");
    reveal_strlit("{");
    reveal_strlit(":");
    reveal_strlit(": ");
    let delim = GEMMA4_STRING_DELIM@;
    let body = empty_value_body(key, gap);
    let at = end - delim.len();
    assert(delim.len() == 5);
    assert(delim[0] == '<' && delim[1] == '|' && delim[2] == '"' && delim[3] == '|' && delim[4]
        == '>');
    assert(body.subrange(at, end)[0] == body[at]);
    assert(body.subrange(at, end)[4] == body[end - 1]);
    assert(body[0] == '{');
    if end <= 1 + key.len() {
        assert(key.subrange(at - 1, at - 1 + delim.len()) =~= body.subrange(at, end));
    } else if end <= 1 + key.len() + gap.len() {
        assert(body[end - 1] == gap[end - 2 - key.len()]);
    } else if end < 1 + key.len() + gap.len() + delim.len() {
        assert(body[end - 1] == delim[end - 2 - key.len() - gap.len()]);
    }
}

proof fn lemma_rule_for(keys: Seq<Seq<char>>, key: Seq<char>, gap: Seq<char>) -> (r: int)
    requires
        keys.contains(key),
        gap == ":"@ || gap == ": "@,
    ensures
        0 <= r < dispatch_rules(keys).len(),
        dispatch_rules(keys)[r].0 == key + gap + GEMMA4_STRING_DELIM@,
    decreases keys.len(),
{
    let prior = keys.drop_last();
    if keys.last() == key {
        if gap == ":"@ {
            dispatch_rules(prior).len() as int
        } else {
            dispatch_rules(prior).len() as int + 1
        }
    } else {
        let k = keys.index_of(key);
        assert(prior[k] == key);
        lemma_rule_for(prior, key, gap)
    }
}

/// Every trigger ends with the opening delimiter.
proof fn lemma_triggers_end_in_delimiter(keys: Seq<Seq<char>>, r: int)
    requires
        0 <= r < dispatch_rules(keys).len(),
    ensures
        ({
            let trigger = dispatch_rules(keys)[r].0;
            &&& GEMMA4_STRING_DELIM@.len() <= trigger.len()
            &&& trigger.skip(trigger.len() - GEMMA4_STRING_DELIM@.len()) == GEMMA4_STRING_DELIM@
        }),
    decreases keys.len(),
{
    let prior = keys.drop_last();
    let trigger = dispatch_rules(keys)[r].0;
    if r < dispatch_rules(prior).len() {
        lemma_triggers_end_in_delimiter(prior, r);
    } else {
        assert(trigger.skip(trigger.len() - GEMMA4_STRING_DELIM@.len()) =~= GEMMA4_STRING_DELIM@);
    }
}

/// Free text with rules for required strings does not admit the body in which one of the keys is
/// given an empty value, without a space before it or with one, where the key itself holds no
/// delimiter.
pub proof fn law_rules_refuse_empty_value(
    keys: Seq<Seq<char>>,
    key: Seq<char>,
    gap: Seq<char>,
    fits: SchemaTexts,
)
    requires
        keys.contains(key),
        gap == ":"@ || gap == ": "@,
        !stands_in(GEMMA4_STRING_DELIM@, key),
    ensures
        !(Format::Dispatch { rules: dispatch_rules(keys), repeat: true }).accepts(
            fits,
            empty_value_body(key, gap),
        ),
{
    let rules = dispatch_rules(keys);
    let delim = GEMMA4_STRING_DELIM@;
    let body = empty_value_body(key, gap);
    let opened = "{"@ + key + gap + delim;
    let at = opened.len() as int;
    let r = lemma_rule_for(keys, key, gap);
    reveal_strlit("{");
    reveal_strlit("}");
    assert(body.subrange(at - rules[r].0.len(), at) =~= rules[r].0);
    assert(trigger_ends(rules, body, r, at));
    assert forall|q: int, e: int| #[trigger] trigger_ends(rules, body, q, e) implies at <= e by {
        let trigger = rules[q].0;
        lemma_triggers_end_in_delimiter(keys, q);
        assert(body.subrange(e - delim.len(), e) =~= trigger.skip(trigger.len() - delim.len()));
        lemma_first_delimiter(key, gap, e);
    }
    assert(first_trigger_ends(rules, body, r, at));
    law_begun_string_is_not_left_empty(keys, fits, body, at);
    if (Format::Dispatch { rules, repeat: true }).accepts(fits, body) {
        let close = choose|close: int|
            at < close && close + delim.len() <= body.len() && #[trigger] body.subrange(
                close,
                close + delim.len(),
            ) == delim;
        reveal_strlit("<|\"|>");
        assert(close == at + 1);
        assert(body.subrange(close, close + delim.len())[0] == body[close]);
        assert(body[close] == delim[1]);
        assert(delim[0] == '<' && delim[1] == '|');
    }
}

/// Whatever else the schema holds, a required string argument cannot be emitted empty: the body
/// that gives it an empty value is not admitted. Where the grammar is not exact, that is so of
/// the keys that hold no delimiter themselves.
pub proof fn law_empty_required_string_is_refused(
    parameters: JsonTree,
    key: Seq<char>,
    fits: SchemaTexts,
)
    requires
        required_string_keys(Some(parameters)).contains(key),
        exact_tier(parameters) is None ==> !stands_in(GEMMA4_STRING_DELIM@, key),
    ensures
        !tool_args_format(Some(parameters)).accepts(fits, empty_value_body(key, ":"@)),
{
    broadcast use Seq::lemma_filter_contains_rev;

    let keys = required_string_keys(Some(parameters));
    let properties = parameters.field("properties"@)->0->Object_0;
    let names = required_names(parameters);
    let wanted = is_string_key(properties);
    let k = keys.index_of(key);
    assert(names.filter(wanted)[k] == key);
    assert(names.contains(key));
    assert(wanted(key)) by {
        names.lemma_filter_pred(wanted, k);
    }
    if exact_tier(parameters) is Some {
        let i = lemma_lookup_place(properties, key);
        law_required_string_is_filled(properties, names, fits, Seq::empty(), i);
    } else {
        law_rules_refuse_empty_value(keys, key, ":"@, fits);
    }
}

/// What stands in neither of two texts does not stand in them with a character between them
/// that it does not hold.
proof fn lemma_stands_in_neither(part: Seq<char>, a: Seq<char>, between: Seq<char>, b: Seq<char>)
    requires
        part.len() > 0,
        between.len() == 1,
        !part.contains(between[0]),
        !stands_in(part, a),
        !stands_in(part, b),
    ensures
        !stands_in(part, a + between + b),
{
    let s = a + between + b;
    if stands_in(part, s) {
        let at = choose|at: int|
            0 <= at && at + part.len() <= s.len() && #[trigger] s.subrange(at, at + part.len())
                == part;
        let here = s.subrange(at, at + part.len());
        if at + part.len() <= a.len() {
            assert(a.subrange(at, at + part.len()) =~= here);
        } else if a.len() < at {
            let from = at - a.len() - 1;
            assert(b.subrange(from, from + part.len()) =~= here);
        } else {
            assert(here[a.len() - at] == between[0]);
            assert(part[a.len() - at] == between[0]);
        }
    }
}

/// What stands in none of the parts does not stand in them with a character between each and
/// the next that it does not hold.
proof fn lemma_stands_in_none(part: Seq<char>, parts: Seq<Seq<char>>, separator: Seq<char>)
    requires
        part.len() > 0,
        separator.len() == 1,
        !part.contains(separator[0]),
        forall|k: int| 0 <= k < parts.len() ==> !stands_in(part, #[trigger] parts[k]),
    ensures
        !stands_in(part, joined(parts, separator)),
    decreases parts.len(),
{
    if parts.len() > 1 {
        let prior = parts.drop_last();
        assert forall|k: int| 0 <= k < prior.len() implies !stands_in(
            part,
            #[trigger] prior[k],
        ) by {
            assert(prior[k] == parts[k]);
        }
        lemma_stands_in_none(part, prior, separator);
        assert(parts.last() == parts[parts.len() - 1]);
        lemma_stands_in_neither(part, joined(prior, separator), separator, parts.last());
    } else if parts.len() == 1 {
        assert(!stands_in(part, parts[0]));
    }
}

/// The value of a property that is no string does not hold the character that markers start with.
proof fn lemma_plain_value(schema: JsonTree, required: bool, fits: SchemaTexts, value: Seq<char>)
    requires
        !is_string(schema),
        value_format(schema, required) is Some,
        value_format(schema, required)->0.accepts(fits, value),
    ensures
        !value.contains('<'),
{
    let format = value_format(schema, required)->0;
    if format is Regex {
        let unsigned = if is_unsigned(value) {
            value
        } else {
            value.skip(1)
        };
        assert forall|k: int| 0 <= k < unsigned.len() implies unsigned[k] != '<' by {
            if !is_digits(unsigned) {
                let n = choose|n: int|
                    0 <= n < unsigned.len() && #[trigger] unsigned[n] == '.' && is_digits(
                        unsigned.take(n),
                    ) && is_digits(unsigned.skip(n + 1));
                if k < n {
                    assert(unsigned.take(n)[k] == unsigned[k]);
                } else if k > n {
                    assert(unsigned.skip(n + 1)[k - n - 1] == unsigned[k]);
                }
            }
        }
        if value.contains('<') {
            let k = value.index_of('<');
            if unsigned == value {
                assert(unsigned[k] == '<');
            } else if k > 0 {
                assert(unsigned[k - 1] == '<');
            }
        }
    } else {
        let words = boolean_format()->Or_0;
        assert(format == boolean_format());
        assert(Format::accepts_any(words, fits, value));
        let i = choose|i: int| 0 <= i < words.len() && (#[trigger] words[i]).accepts(fits, value);
        assert(i == 0 || i == 1);
        reveal_strlit("true");
        reveal_strlit("false");
        assert(value == "true"@ || value == "false"@);
    }
}

/// Where no property is a string and no key holds the end marker of a call, no body that the
/// exact grammar admits holds it.
pub proof fn law_plain_arguments_hold_no_end_marker(
    properties: Seq<(Seq<char>, JsonTree)>,
    required: Seq<Seq<char>>,
    fits: SchemaTexts,
    s: Seq<char>,
)
    requires
        exact_args_fit(properties, required),
        forall|i: int|
            0 <= i < properties.len() ==> !is_string((#[trigger] properties[i]).1) && !stands_in(
                GEMMA4_TOOL_CALL_END@,
                properties[i].0,
            ),
    ensures
        exact_args_format(properties, required)->0.accepts(fits, s) ==> !stands_in(
            GEMMA4_TOOL_CALL_END@,
            s,
        ),
{
    let end = GEMMA4_TOOL_CALL_END@;
    law_exact_args_language(properties, required, fits, s);
    if exact_args_format(properties, required)->0.accepts(fits, s) {
        let (order, values) = choose|order: Seq<usize>, values: Seq<Seq<char>>|
            {
                &&& complete_order(properties, required, order)
                &&& admissible_values(properties, required, fits, order, values)
                &&& s == #[trigger] body_text(properties, order, values)
            };
        let parts = pairs(properties, order, values);
        let none = Seq::<char>::empty();
        reveal_strlit("<tool_call|>");
        reveal_strlit("{");
        reveal_strlit("}");
        reveal_strlit(",");
        reveal_strlit(":");
        assert(end.len() == 12 && end[0] == '<');
        assert(!end.contains('{') && !end.contains('}') && !end.contains(',') && !end.contains(
            ':',
        ));
        assert forall|k: int| 0 <= k < parts.len() implies !stands_in(end, #[trigger] parts[k]) by {
            let i = order[k] as int;
            assert(order[k] < properties.len());
            assert(slot_format(properties, required, i) is Some);
            assert(slot_format(properties, required, i)->0.accepts(fits, values[k]));
            assert(!is_string(properties[i].1));
            lemma_plain_value(
                properties[i].1,
                required.contains(properties[i].0),
                fits,
                values[k],
            );
            assert(!stands_in(end, values[k])) by {
                if stands_in(end, values[k]) {
                    let at = choose|at: int|
                        0 <= at && at + end.len() <= values[k].len()
                            && #[trigger] values[k].subrange(at, at + end.len()) == end;
                    assert(values[k].subrange(at, at + end.len())[0] == values[k][at]);
                    assert(values[k].contains('<'));
                }
            }
            lemma_stands_in_neither(end, properties[i].0, ":"@, values[k]);
        }
        lemma_stands_in_none(end, parts, ","@);
        let inner = args_text(properties, order, values);
        lemma_stands_in_neither(end, none, "{"@, inner);
        lemma_stands_in_neither(end, none + "{"@ + inner, "}"@, none);
        assert(s =~= none + "{"@ + inner + "}"@ + none);
    }
}

/// A body that the exact grammar admits starts with a brace.
pub proof fn lemma_exact_body_opens(
    properties: Seq<(Seq<char>, JsonTree)>,
    required: Seq<Seq<char>>,
    fits: SchemaTexts,
    s: Seq<char>,
)
    requires
        exact_args_fit(properties, required),
        exact_args_format(properties, required)->0.accepts(fits, s),
    ensures
        s.len() > 0,
        s[0] == '{',
{
    law_exact_args_language(properties, required, fits, s);
    let (order, values) = choose|order: Seq<usize>, values: Seq<Seq<char>>|
        {
            &&& complete_order(properties, required, order)
            &&& admissible_values(properties, required, fits, order, values)
            &&& s == #[trigger] body_text(properties, order, values)
        };
    reveal_strlit("{");
    assert("{"@[0] == '{');
}

} // verus!
