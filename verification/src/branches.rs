//! The branches of the exact grammar: what each admits, and in which order they come.
use crate::args::{
    arg_formats, branch_format, comma_separated, exact_args_fit, exact_args_format,
    exact_branches, exact_orders, optional_slots, orders_below, picked, required_slots,
    slot_format, slots, value_format,
};
use crate::args_language::{
    admissible_values, args_text, is_args_text, law_exact_orders_are_the_complete_ones,
    lemma_branch, lemma_slots,
};
use crate::format::Format;
use crate::json::JsonTree;
use crate::language::SchemaTexts;
use crate::permute::{
    is_ascending, law_orderings_follow_renaming, law_orderings_of_ascending_numbers_ascend, orderings,
};
use crate::schema::{is_value, law_values_follow_the_type};
use vstd::arithmetic::power2::pow2;
use vstd::prelude::*;

verus! {

/// The grammar is a brace, a body and a brace. The body is the only branch, or a choice between
/// the branches, of which there is one for each order of keys.
pub proof fn law_exact_grammar_is_a_choice_in_braces(
    properties: Seq<(Seq<char>, JsonTree)>,
    names: Seq<Seq<char>>,
)
    requires
        exact_args_fit(properties, names),
    ensures
        ({
            let format = exact_args_format(properties, names)->0;
            let branches = exact_branches(properties, names);
            &&& format is Sequence
            &&& format->Sequence_0.len() == 3
            &&& format->Sequence_0[0] == Format::ConstString(seq!['{'])
            &&& format->Sequence_0[1] == branches[0] && branches.len() == 1
                || format->Sequence_0[1] == Format::Or(branches) && branches.len() != 1
            &&& format->Sequence_0[2] == Format::ConstString(seq!['}'])
            &&& branches.len() == exact_orders(properties, names).len()
            &&& forall|k: int|
                0 <= k < branches.len() ==> #[trigger] branches[k] == branch_format(
                    arg_formats(properties, names),
                    exact_orders(properties, names)[k],
                )
        }),
{
    reveal_strlit("{");
    reveal_strlit("}");
    assert("{"@ =~= seq!['{']);
    assert("}"@ =~= seq!['}']);
}

/// A branch is the arguments of its order, with a comma between each and the next and nothing
/// else, or the empty text where there are none.
pub proof fn law_branch_is_its_arguments(args: Seq<Format>, order: Seq<usize>, k: int)
    requires
        0 <= k < order.len(),
    ensures
        branch_format(args, order) is Sequence,
        branch_format(args, order)->Sequence_0.len() == 2 * order.len() - 1,
        branch_format(args, order)->Sequence_0[2 * k] == args[order[k] as int],
        k > 0 ==> branch_format(args, order)->Sequence_0[2 * k - 1] == Format::ConstString(
            seq![','],
        ),
        branch_format(args, Seq::empty()) == Format::ConstString(Seq::empty()),
{
    reveal_strlit("");
    assert(""@ =~= Seq::empty());
    lemma_comma_separated_places(args, order, k);
}

proof fn lemma_comma_separated_places(args: Seq<Format>, order: Seq<usize>, k: int)
    requires
        0 <= k < order.len(),
    ensures
        comma_separated(args, order).len() == 2 * order.len() - 1,
        comma_separated(args, order)[2 * k] == args[order[k] as int],
        k > 0 ==> comma_separated(args, order)[2 * k - 1] == Format::ConstString(seq![',']),
    decreases order.len(),
{
    reveal_strlit(",");
    assert(","@ =~= seq![',']);
    if order.len() > 1 {
        let before = order.drop_last();
        if k < before.len() {
            lemma_comma_separated_places(args, before, k);
            assert(before[k] == order[k]);
        } else {
            lemma_comma_separated_places(args, before, 0);
        }
    }
}

/// An argument is its key with a colon, and then a value of its type.
pub proof fn law_argument_is_key_and_value(
    properties: Seq<(Seq<char>, JsonTree)>,
    names: Seq<Seq<char>>,
    i: int,
)
    requires
        0 <= i < properties.len(),
    ensures
        arg_formats(properties, names).len() == properties.len(),
        value_format(properties[i].1, names.contains(properties[i].0)) is Some ==> arg_formats(
            properties,
            names,
        )[i] == Format::Sequence(
            seq![
                Format::ConstString(properties[i].0 + seq![':']),
                value_format(properties[i].1, names.contains(properties[i].0))->0,
            ],
        ),
{
    reveal_strlit(":");
    assert(":"@ =~= seq![':']);
}

/// Whether the text is the arguments in this order, one value for each, of its type.
pub open spec fn is_in_order(
    properties: Seq<(Seq<char>, JsonTree)>,
    names: Seq<Seq<char>>,
    order: Seq<usize>,
    s: Seq<char>,
) -> bool {
    exists|values: Seq<Seq<char>>|
        {
            &&& values.len() == order.len()
            &&& s == #[trigger] args_text(properties, order, values)
            &&& forall|j: int|
                0 <= j < order.len() ==> is_value(
                    properties[order[j] as int].1,
                    names.contains(properties[order[j] as int].0),
                    #[trigger] values[j],
                )
        }
}

/// The branch at each place admits the arguments in the order at that place, and no other: one
/// value for each, of its type.
pub proof fn law_each_branch_admits_one_order(
    properties: Seq<(Seq<char>, JsonTree)>,
    names: Seq<Seq<char>>,
    fits: SchemaTexts,
    k: int,
    s: Seq<char>,
)
    requires
        exact_args_fit(properties, names),
        0 <= k < exact_orders(properties, names).len(),
    ensures
        exact_branches(properties, names)[k].accepts(fits, s) <==> is_in_order(
            properties,
            names,
            exact_orders(properties, names)[k],
            s,
        ),
{
    let order = exact_orders(properties, names)[k];
    assert(exact_orders(properties, names).contains(order));
    law_exact_orders_are_the_complete_ones(properties, names, order);
    lemma_branch(properties, names, fits, order, s);
    assert forall|j: int, value: Seq<char>| 0 <= j < order.len() implies slot_format(
        properties,
        names,
        order[j] as int,
    )->0.accepts(fits, value) == #[trigger] is_value(
        properties[order[j] as int].1,
        names.contains(properties[order[j] as int].0),
        value,
    ) by {
        let i = order[j] as int;
        assert(order[j] < properties.len());
        assert(slot_format(properties, names, i) is Some);
        law_values_follow_the_type(properties[i].1, names.contains(properties[i].0), fits, value);
    }
    if is_args_text(properties, names, fits, order, s) {
        let values = choose|values: Seq<Seq<char>>|
            admissible_values(properties, names, fits, order, values) && s == #[trigger] args_text(
                properties,
                order,
                values,
            );
        assert forall|j: int| 0 <= j < order.len() implies is_value(
            properties[order[j] as int].1,
            names.contains(properties[order[j] as int].0),
            #[trigger] values[j],
        ) by {
            assert(slot_format(properties, names, order[j] as int)->0.accepts(fits, values[j]));
        }
    }
    if is_in_order(properties, names, order, s) {
        let values = choose|values: Seq<Seq<char>>|
            {
                &&& values.len() == order.len()
                &&& s == #[trigger] args_text(properties, order, values)
                &&& forall|j: int|
                    0 <= j < order.len() ==> is_value(
                        properties[order[j] as int].1,
                        names.contains(properties[order[j] as int].0),
                        #[trigger] values[j],
                    )
            };
        assert(admissible_values(properties, names, fits, order, values));
    }
}

/// Whether a slot comes before another: the required before the optional, and each kind by the
/// order of the properties.
pub open spec fn slot_before(
    properties: Seq<(Seq<char>, JsonTree)>,
    names: Seq<Seq<char>>,
    a: usize,
    b: usize,
) -> bool {
    let a_required = names.contains(properties[a as int].0);
    let b_required = names.contains(properties[b as int].0);
    a_required && !b_required || a_required == b_required && a < b
}

/// Whether `x` is an optional slot that `b` names and `a` does not, and they agree on all
/// optional slots behind it.
pub open spec fn adds_optional(
    properties: Seq<(Seq<char>, JsonTree)>,
    names: Seq<Seq<char>>,
    a: Seq<usize>,
    b: Seq<usize>,
    x: usize,
) -> bool {
    &&& x < properties.len()
    &&& !names.contains(properties[x as int].0)
    &&& b.contains(x) && !a.contains(x)
    &&& forall|y: usize|
        x < y < properties.len() && !names.contains(properties[y as int].0) ==> (
        #[trigger] a.contains(y) <==> b.contains(y))
}

/// Whether the two agree up to a place where the slot of `a` comes before that of `b`.
pub open spec fn arranged_before(
    properties: Seq<(Seq<char>, JsonTree)>,
    names: Seq<Seq<char>>,
    a: Seq<usize>,
    b: Seq<usize>,
) -> bool {
    exists|k: int|
        {
            &&& 0 <= k < a.len()
            &&& k < b.len()
            &&& slot_before(properties, names, #[trigger] a[k], b[k])
            &&& forall|j: int| 0 <= j < k ==> #[trigger] a[j] == b[j]
        }
}

/// The number and the place in its list of an order below.
proof fn lemma_block(required: Seq<usize>, optional: Seq<usize>, masks: nat, a: int) -> (found: (
    nat,
    int,
))
    requires
        0 <= a < orders_below(required, optional, masks).len(),
    ensures
        found.0 < masks,
        0 <= found.1 < orderings(required + picked(optional, found.0)).len(),
        orders_below(required, optional, masks)[a] == orderings(
            required + picked(optional, found.0),
        )[found.1],
        a == orders_below(required, optional, found.0).len() + found.1,
    decreases masks,
{
    let prior = (masks - 1) as nat;
    let below = orders_below(required, optional, prior);
    if a < below.len() {
        lemma_block(required, optional, prior, a)
    } else {
        (prior, a - below.len())
    }
}

proof fn lemma_below_grows(required: Seq<usize>, optional: Seq<usize>, less: nat, more: nat)
    requires
        less <= more,
    ensures
        orders_below(required, optional, less).len() <= orders_below(
            required,
            optional,
            more,
        ).len(),
    decreases more,
{
    if less < more {
        lemma_below_grows(required, optional, less, (more - 1) as nat);
    }
}

/// Of two numbers the greater picks something that the smaller does not, and they agree on all
/// behind it.
proof fn lemma_greater_mask(optional: Seq<usize>, less: nat, more: nat) -> (k: int)
    requires
        less < more < pow2(optional.len()),
        optional.no_duplicates(),
    ensures
        0 <= k < optional.len(),
        picked(optional, more).contains(optional[k]),
        !picked(optional, less).contains(optional[k]),
        forall|j: int|
            k < j < optional.len() ==> (picked(optional, less).contains(#[trigger] optional[j])
                <==> picked(optional, more).contains(optional[j])),
    decreases optional.len(),
{
    if optional.len() == 0 {
        vstd::arithmetic::power2::lemma2_to64();
        0
    } else {
        let rest = optional.drop_first();
        vstd::arithmetic::power2::lemma_pow2_unfold(optional.len());
        lemma_picked_parts(optional, less);
        lemma_picked_parts(optional, more);
        if less / 2 < more / 2 {
            let k = lemma_greater_mask(rest, less / 2, more / 2);
            assert(rest[k] == optional[k + 1]);
            assert forall|j: int| k + 1 < j < optional.len() implies (picked(optional, less).contains(
                #[trigger] optional[j],
            ) <==> picked(optional, more).contains(optional[j])) by {
                assert(rest[j - 1] == optional[j]);
            }
            k + 1
        } else {
            assert(less / 2 == more / 2);
            assert forall|j: int| 0 < j < optional.len() implies (picked(optional, less).contains(
                #[trigger] optional[j],
            ) <==> picked(optional, more).contains(optional[j])) by {
                assert(rest[j - 1] == optional[j]);
            }
            0
        }
    }
}

/// The first slot is picked by the lowest bit, and the others by the rest of the number.
proof fn lemma_picked_parts(optional: Seq<usize>, mask: nat)
    requires
        optional.len() > 0,
        optional.no_duplicates(),
    ensures
        picked(optional, mask).contains(optional[0]) <==> mask % 2 == 1,
        forall|j: int|
            0 < j < optional.len() ==> (picked(optional, mask).contains(#[trigger] optional[j])
                <==> picked(optional.drop_first(), mask / 2).contains(optional[j])),
{
    let rest = optional.drop_first();
    let tail = picked(rest, mask / 2);
    let all = picked(optional, mask);
    crate::args_language::lemma_picked(rest, mask / 2);
    assert(!rest.contains(optional[0])) by {
        if rest.contains(optional[0]) {
            let k = rest.index_of(optional[0]);
            assert(optional[k + 1] == optional[0]);
        }
    }
    assert(!tail.contains(optional[0]));
    if mask % 2 == 1 {
        assert(all[0] == optional[0]);
        assert forall|j: int| 0 < j < optional.len() implies (all.contains(#[trigger] optional[j])
            <==> tail.contains(optional[j])) by {
            if all.contains(optional[j]) {
                let k = all.index_of(optional[j]);
                assert(tail[k - 1] == optional[j]);
            }
            if tail.contains(optional[j]) {
                let k = tail.index_of(optional[j]);
                assert(all[k + 1] == optional[j]);
            }
        }
    }
}

proof fn lemma_filter_ascends(all: Seq<usize>, p: spec_fn(usize) -> bool)
    requires
        is_ascending(all),
    ensures
        is_ascending(all.filter(p)),
        forall|k: int| 0 <= k < all.filter(p).len() ==> all.contains(#[trigger] all.filter(p)[k]),
    decreases all.len(),
{
    reveal(Seq::filter);
    if all.len() > 0 {
        let before = all.drop_last();
        let kept = before.filter(p);
        assert forall|i: int, j: int| 0 <= i < j < before.len() implies #[trigger] before[i]
            < #[trigger] before[j] by {
            assert(before[i] == all[i] && before[j] == all[j]);
        }
        lemma_filter_ascends(before, p);
        assert forall|k: int| 0 <= k < kept.len() implies #[trigger] kept[k] < all.last()
            && all.contains(kept[k]) by {
            let i = before.index_of(kept[k]);
            assert(before[i] == all[i]);
            assert(all[i] < all[all.len() - 1]);
        }
        assert(all[all.len() - 1] == all.last());
        assert forall|k: int| 0 <= k < all.filter(p).len() implies all.contains(
            #[trigger] all.filter(p)[k],
        ) by {
            if k < kept.len() {
                assert(all.filter(p)[k] == kept[k]);
            }
        }
        assert forall|i: int, j: int| 0 <= i < j < all.filter(p).len() implies #[trigger] all.filter(
            p,
        )[i] < #[trigger] all.filter(p)[j] by {
            assert(all.filter(p)[i] == kept[i]);
            if j < kept.len() {
                assert(all.filter(p)[j] == kept[j]);
            }
        }
    }
}

proof fn lemma_picked_ascends(optional: Seq<usize>, mask: nat)
    requires
        is_ascending(optional),
    ensures
        is_ascending(picked(optional, mask)),
        forall|k: int|
            0 <= k < picked(optional, mask).len() ==> optional.contains(
                #[trigger] picked(optional, mask)[k],
            ),
    decreases optional.len(),
{
    if optional.len() > 0 {
        let rest = optional.drop_first();
        let tail = picked(rest, mask / 2);
        let all = picked(optional, mask);
        assert forall|i: int, j: int| 0 <= i < j < rest.len() implies #[trigger] rest[i]
            < #[trigger] rest[j] by {
            assert(rest[i] == optional[i + 1] && rest[j] == optional[j + 1]);
        }
        lemma_picked_ascends(rest, mask / 2);
        assert forall|k: int| 0 <= k < tail.len() implies optional.contains(#[trigger] tail[k])
            && optional[0] < tail[k] by {
            let i = rest.index_of(tail[k]);
            assert(optional[i + 1] == tail[k]);
            assert(optional[0] < optional[i + 1]);
        }
        assert(optional.contains(optional[0]));
        assert forall|k: int| 0 <= k < all.len() implies optional.contains(#[trigger] all[k]) by {
            if mask % 2 == 1 && k > 0 {
                assert(all[k] == tail[k - 1]);
            } else if mask % 2 == 0 {
                assert(all[k] == tail[k]);
            }
        }
        assert forall|i: int, j: int| 0 <= i < j < all.len() implies #[trigger] all[i]
            < #[trigger] all[j] by {
            if mask % 2 == 1 {
                assert(all[j] == tail[j - 1]);
                if i > 0 {
                    assert(all[i] == tail[i - 1]);
                }
            }
        }
    }
}

/// The slots that a number picks come with the required ones first, and each kind in the order
/// of the properties.
proof fn lemma_chosen_in_order(
    properties: Seq<(Seq<char>, JsonTree)>,
    names: Seq<Seq<char>>,
    mask: nat,
    a: int,
    b: int,
)
    requires
        properties.len() <= usize::MAX,
        0 <= a < b < (required_slots(properties, names) + picked(
            optional_slots(properties, names),
            mask,
        )).len(),
    ensures
        ({
            let chosen = required_slots(properties, names) + picked(
                optional_slots(properties, names),
                mask,
            );
            slot_before(properties, names, chosen[a], chosen[b])
        }),
{
    let all = slots(properties.len());
    let needed = required_slots(properties, names);
    let spare = optional_slots(properties, names);
    let extra = picked(spare, mask);
    let chosen = needed + extra;
    assert(is_ascending(all));
    lemma_filter_ascends(all, crate::args::is_required_slot(properties, names));
    lemma_filter_ascends(all, crate::args::is_optional_slot(properties, names));
    lemma_picked_ascends(spare, mask);
    lemma_slots(properties, names);
    if a < needed.len() {
        assert(needed.contains(needed[a]));
    } else {
        assert(spare.contains(extra[a - needed.len()]));
    }
    if b < needed.len() {
        assert(needed.contains(needed[b]));
        assert(needed[a] < needed[b]);
    } else {
        assert(spare.contains(extra[b - needed.len()]));
        if a >= needed.len() {
            assert(extra[a - needed.len()] < extra[b - needed.len()]);
        }
    }
}

/// The orders of keys come sorted, so that none comes twice. They are counted by the optional
/// properties that they name, the last property being the highest digit; and those that name the
/// same come in the order of dictionaries, the required before the optional and each kind by the
/// order of the properties.
pub proof fn law_orders_come_sorted(
    properties: Seq<(Seq<char>, JsonTree)>,
    names: Seq<Seq<char>>,
    a: int,
    b: int,
)
    requires
        properties.len() <= usize::MAX,
        0 <= a < b < exact_orders(properties, names).len(),
    ensures
        ({
            let first = exact_orders(properties, names)[a];
            let second = exact_orders(properties, names)[b];
            &&& first != second
            &&& {
                ||| exists|x: usize| adds_optional(properties, names, first, second, x)
                ||| arranged_before(properties, names, first, second)
            }
        }),
{
    let needed = required_slots(properties, names);
    let spare = optional_slots(properties, names);
    let masks = pow2(spare.len());
    let first = exact_orders(properties, names)[a];
    let second = exact_orders(properties, names)[b];
    let (less, s) = lemma_block(needed, spare, masks, a);
    let (more, t) = lemma_block(needed, spare, masks, b);
    if more < less {
        lemma_below_grows(needed, spare, more + 1, less);
        assert(orders_below(needed, spare, more + 1).len() == orders_below(
            needed,
            spare,
            more,
        ).len() + orderings(needed + picked(spare, more)).len());
    }
    lemma_slots(properties, names);
    if less < more {
        let k = lemma_greater_mask(spare, less, more);
        let x = spare[k];
        lemma_named_optional(properties, names, less, s, x);
        lemma_named_optional(properties, names, more, t, x);
        assert(spare.contains(x));
        lemma_filter_ascends(
            slots(properties.len()),
            crate::args::is_optional_slot(properties, names),
        );
        assert forall|y: usize|
            x < y < properties.len() && !names.contains(properties[y as int].0) implies (
        #[trigger] first.contains(y) <==> second.contains(y)) by {
            assert(spare.contains(y));
            let j = spare.index_of(y);
            if j <= k {
                if j < k {
                    assert(spare[j] < spare[k]);
                }
            }
            assert(k < j);
            lemma_named_optional(properties, names, less, s, y);
            lemma_named_optional(properties, names, more, t, y);
            assert(picked(spare, less).contains(spare[j]) <==> picked(spare, more).contains(
                spare[j],
            ));
        }
        assert(adds_optional(properties, names, first, second, x));
        assert(first != second);
    } else {
        let chosen = needed + picked(spare, less);
        let n = chosen.len();
        let places = slots(n);
        let f = |i: usize| chosen[i as int];
        lemma_chosen_short(properties, names, less);
        assert(places.map_values(f) =~= chosen);
        law_orderings_follow_renaming(places, f);
        let listed = orderings(places);
        assert(is_ascending(places));
        law_orderings_of_ascending_numbers_ascend(places, s, t);
        let x = listed[s];
        let y = listed[t];
        assert(first == x.map_values(f));
        assert(second == y.map_values(f));
        let k = choose|k: int|
            {
                &&& 0 <= k < x.len()
                &&& k < y.len()
                &&& #[trigger] x[k] < y[k]
                &&& forall|j: int| 0 <= j < k ==> #[trigger] x[j] == y[j]
            };
        assert(listed.contains(x) && listed.contains(y));
        lemma_places_in_range(n, x, k);
        lemma_places_in_range(n, y, k);
        lemma_chosen_in_order(properties, names, less, x[k] as int, y[k] as int);
        assert(first[k] == chosen[x[k] as int] && second[k] == chosen[y[k] as int]);
        assert forall|j: int| 0 <= j < k implies #[trigger] first[j] == second[j] by {
            assert(x[j] == y[j]);
        }
        assert(slot_before(properties, names, first[k], second[k]));
        assert(first[k] != second[k]);
    }
}

/// An order listed for a number names the optional slots that the number picks.
proof fn lemma_named_optional(
    properties: Seq<(Seq<char>, JsonTree)>,
    names: Seq<Seq<char>>,
    mask: nat,
    place: int,
    x: usize,
)
    requires
        properties.len() <= usize::MAX,
        optional_slots(properties, names).contains(x),
        0 <= place < orderings(
            required_slots(properties, names) + picked(optional_slots(properties, names), mask),
        ).len(),
    ensures
        orderings(
            required_slots(properties, names) + picked(optional_slots(properties, names), mask),
        )[place].contains(x) <==> picked(optional_slots(properties, names), mask).contains(x),
{
    broadcast use vstd::seq_lib::group_to_multiset_ensures;

    let needed = required_slots(properties, names);
    let extra = picked(optional_slots(properties, names), mask);
    let chosen = needed + extra;
    let order = orderings(chosen)[place];
    assert(orderings(chosen).contains(order));
    crate::permute::law_orderings_are_the_rearrangements(chosen, order);
    lemma_slots(properties, names);
    crate::args_language::lemma_chosen(properties, names, mask);
    assert(order.contains(x) <==> order.to_multiset().count(x) > 0);
    assert(chosen.contains(x) <==> chosen.to_multiset().count(x) > 0);
    assert(!needed.contains(x));
}

proof fn lemma_chosen_short(
    properties: Seq<(Seq<char>, JsonTree)>,
    names: Seq<Seq<char>>,
    mask: nat,
)
    requires
        properties.len() <= usize::MAX,
    ensures
        (required_slots(properties, names) + picked(optional_slots(properties, names), mask)).len()
            <= usize::MAX,
{
    let needed = required_slots(properties, names);
    let spare = optional_slots(properties, names);
    let chosen = needed + picked(spare, mask);
    lemma_slots(properties, names);
    crate::args_language::lemma_picked(spare, mask);
    crate::args_language::lemma_chosen(properties, names, mask);
    chosen.unique_seq_to_set();
    assert forall|x: usize| chosen.to_set().contains(x) implies slots(
        properties.len(),
    ).to_set().contains(x) by {
        assert(chosen.contains(x));
        assert(needed.contains(x) || spare.contains(x));
        assert(slots(properties.len())[x as int] == x);
        assert(slots(properties.len()).contains(x));
    }
    slots(properties.len()).lemma_cardinality_of_set();
    vstd::set_lib::lemma_len_subset(chosen.to_set(), slots(properties.len()).to_set());
}

proof fn lemma_places_in_range(n: nat, order: Seq<usize>, k: int)
    requires
        n <= usize::MAX,
        orderings(slots(n)).contains(order),
        0 <= k < order.len(),
    ensures
        order[k] < n,
{
    broadcast use vstd::seq_lib::group_to_multiset_ensures;

    crate::permute::law_orderings_are_the_rearrangements(slots(n), order);
    assert(order.contains(order[k]));
    assert(order.to_multiset().count(order[k]) > 0);
    assert(slots(n).contains(order[k]));
}

} // verus!
