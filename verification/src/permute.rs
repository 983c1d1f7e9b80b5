//! Orderings of a list of indices.
use vstd::prelude::*;

verus! {

/// Every ordering of `items`: first those that start with the first item, each followed by
/// an ordering of the others, then those that start with the second, and so on.
pub open spec fn orderings(items: Seq<usize>) -> Seq<Seq<usize>>
    decreases items.len(), items.len() + 1,
{
    if items.len() <= 1 {
        seq![items]
    } else {
        orderings_by_head(items, items.len())
    }
}

/// The orderings of `items` that start with one of the first `n`, in turn.
pub open spec fn orderings_by_head(items: Seq<usize>, n: nat) -> Seq<Seq<usize>>
    decreases items.len(), n,
    when n <= items.len()
{
    if n == 0 {
        Seq::empty()
    } else {
        orderings_by_head(items, (n - 1) as nat) + each_after(
            items[n - 1],
            orderings(items.remove(n - 1)),
        )
    }
}

/// Each of `tails` with `head` before it.
pub open spec fn each_after(head: usize, tails: Seq<Seq<usize>>) -> Seq<Seq<usize>> {
    tails.map_values(|tail: Seq<usize>| seq![head] + tail)
}

/// What each of these lists holds.
pub open spec fn lists(vecs: Seq<Vec<usize>>) -> Seq<Seq<usize>> {
    Seq::new(vecs.len(), |i: int| vecs[i]@)
}

/// All orderings of `items`.
pub fn permutations(items: &[usize]) -> (out: Vec<Vec<usize>>)
    ensures
        lists(out@) == orderings(items@),
        forall|order: Seq<usize>| #[trigger]
            lists(out@).contains(order) <==> order.to_multiset() == items@.to_multiset(),
        out@.len() == factorial(items@.len()),
    decreases items@.len(),
{
    proof {
        law_orderings_count(items@);
        assert forall|order: Seq<usize>| #[trigger]
            orderings(items@).contains(order) <==> order.to_multiset() == items@.to_multiset() by {
            law_orderings_are_the_rearrangements(items@, order);
        }
    }
    if items.len() <= 1 {
        let mut only: Vec<usize> = Vec::new();
        if items.len() == 1 {
            only.push(items[0]);
        }
        let mut out: Vec<Vec<usize>> = Vec::new();
        assert(only@ =~= items@);
        out.push(only);
        assert(lists(out@) =~= orderings(items@));
        return out;
    }
    let mut out: Vec<Vec<usize>> = Vec::new();
    let mut i: usize = 0;
    assert(lists(out@) =~= orderings_by_head(items@, 0));
    while i < items.len()
        invariant
            items@.len() > 1,
            i <= items@.len(),
            lists(out@) == orderings_by_head(items@, i as nat),
        decreases items.len() - i,
    {
        let rest = without(items, i);
        let tails = permutations(rest.as_slice());
        prepend_all(items[i], &tails, &mut out);
        i += 1;
    }
    out
}

/// `items` without the one at `at`.
fn without(items: &[usize], at: usize) -> (rest: Vec<usize>)
    requires
        at < items@.len(),
    ensures
        rest@ == items@.remove(at as int),
{
    let mut rest: Vec<usize> = Vec::new();
    let mut k: usize = 0;
    while k < items.len()
        invariant
            at < items@.len(),
            k <= items@.len(),
            rest@ == if k <= at {
                items@.take(k as int)
            } else {
                items@.take(k as int).remove(at as int)
            },
        decreases items.len() - k,
    {
        if k != at {
            rest.push(items[k]);
        }
        k += 1;
        assert(rest@ =~= if k <= at {
            items@.take(k as int)
        } else {
            items@.take(k as int).remove(at as int)
        });
    }
    assert(items@.take(k as int) =~= items@);
    rest
}

/// Adds `head` before each of `tails` to the end of `out`.
fn prepend_all(head: usize, tails: &Vec<Vec<usize>>, out: &mut Vec<Vec<usize>>)
    ensures
        lists(final(out)@) == lists(old(out)@) + each_after(head, lists(tails@)),
{
    let ghost before = out@;
    let mut t: usize = 0;
    while t < tails.len()
        invariant
            t <= tails@.len(),
            out@.len() == before.len() + t,
            forall|k: int| 0 <= k < before.len() ==> #[trigger] out@[k] == before[k],
            forall|k: int|
                0 <= k < t ==> (#[trigger] out@[before.len() + k])@ == seq![head] + tails@[k]@,
        decreases tails.len() - t,
    {
        let mut order: Vec<usize> = Vec::new();
        order.push(head);
        let mut k: usize = 0;
        while k < tails[t].len()
            invariant
                t < tails@.len(),
                k <= tails@[t as int]@.len(),
                order@ == seq![head] + tails@[t as int]@.take(k as int),
            decreases tails@[t as int]@.len() - k,
        {
            order.push(tails[t][k]);
            k += 1;
            assert(order@ =~= seq![head] + tails@[t as int]@.take(k as int));
        }
        assert(order@ =~= seq![head] + tails@[t as int]@);
        out.push(order);
        t += 1;
    }
    proof {
        let after = each_after(head, lists(tails@));
        assert forall|k: int| 0 <= k < lists(out@).len() implies lists(out@)[k] == (lists(before)
            + after)[k] by {
            if k >= before.len() {
                assert(out@[before.len() + (k - before.len())]@ == seq![head] + tails@[k
                    - before.len()]@);
            }
        }
        assert(lists(out@) =~= lists(before) + after);
    }
}

/// The product of the numbers from 1 to `n`.
pub open spec fn factorial(n: nat) -> nat
    decreases n,
{
    if n == 0 {
        1
    } else {
        n * factorial((n - 1) as nat)
    }
}

/// An ordering that starts with one of the first `n` items is one of these items before an
/// ordering of the others.
proof fn lemma_by_head(items: Seq<usize>, n: nat, order: Seq<usize>)
    requires
        n <= items.len(),
    ensures
        orderings_by_head(items, n).contains(order) <==> order.len() > 0 && exists|i: int|
            0 <= i < n && items[i] == order[0] && #[trigger] orderings(items.remove(i)).contains(
                order.drop_first(),
            ),
    decreases n,
{
    if n > 0 {
        let prior = orderings_by_head(items, (n - 1) as nat);
        let tails = orderings(items.remove(n - 1));
        let added = each_after(items[n - 1], tails);
        lemma_by_head(items, (n - 1) as nat, order);
        if orderings_by_head(items, n).contains(order) {
            let k = orderings_by_head(items, n).index_of(order);
            if k < prior.len() {
                assert(prior[k] == order);
            } else {
                let t = k - prior.len();
                assert(added[t] == order);
                assert(order.drop_first() =~= tails[t]);
                assert(orderings(items.remove(n - 1)).contains(order.drop_first()));
            }
        }
        if order.len() > 0 && exists|i: int|
            0 <= i < n && items[i] == order[0] && #[trigger] orderings(items.remove(i)).contains(
                order.drop_first(),
            ) {
            let i = choose|i: int|
                0 <= i < n && items[i] == order[0] && #[trigger] orderings(
                    items.remove(i),
                ).contains(order.drop_first());
            if i < n - 1 {
                let k = prior.index_of(order);
                assert(orderings_by_head(items, n)[k] == order);
            } else {
                let t = tails.index_of(order.drop_first());
                assert(seq![items[n - 1]] + tails[t] =~= order);
                assert(orderings_by_head(items, n)[prior.len() + t] == order);
            }
        }
    }
}

/// What is listed is what holds the same items, each as often: nothing else, and all of it.
pub proof fn law_orderings_are_the_rearrangements(items: Seq<usize>, order: Seq<usize>)
    ensures
        orderings(items).contains(order) <==> order.to_multiset() == items.to_multiset(),
    decreases items.len(),
{
    broadcast use vstd::seq_lib::group_to_multiset_ensures;

    if items.len() <= 1 {
        assert(seq![items][0] == items);
        if order.to_multiset() == items.to_multiset() {
            assert(order.to_multiset().len() == items.to_multiset().len());
            if items.len() == 1 {
                assert(order.to_multiset().count(order[0]) > 0) by {
                    assert(order.contains(order[0]));
                }
                assert(items.contains(order[0]));
            }
            assert(order =~= items);
        }
        if orderings(items).contains(order) {
            assert(order == items);
        }
    } else {
        lemma_by_head(items, items.len(), order);
        if orderings(items).contains(order) {
            let i = choose|i: int|
                0 <= i < items.len() && items[i] == order[0] && #[trigger] orderings(
                    items.remove(i),
                ).contains(order.drop_first());
            law_orderings_are_the_rearrangements(items.remove(i), order.drop_first());
            assert(order.drop_first() =~= order.remove(0));
            assert(items.to_multiset().remove(items[i]).insert(items[i])
                =~= items.to_multiset());
            assert(order.contains(order[0]));
            assert(order.to_multiset().remove(order[0]).insert(order[0])
                =~= order.to_multiset());
        }
        if order.to_multiset() == items.to_multiset() {
            assert(order.to_multiset().len() == items.to_multiset().len());
            assert(order.contains(order[0]));
            assert(items.to_multiset().count(order[0]) > 0);
            assert(items.contains(order[0]));
            let i = items.index_of(order[0]);
            assert(order.drop_first() =~= order.remove(0));
            law_orderings_are_the_rearrangements(items.remove(i), order.drop_first());
            assert(orderings(items.remove(i)).contains(order.drop_first()));
        }
    }
}

proof fn lemma_by_head_count(items: Seq<usize>, n: nat)
    requires
        n <= items.len(),
        items.len() > 0,
        forall|i: int|
            0 <= i < items.len() ==> (#[trigger] orderings(items.remove(i))).len() == factorial(
                (items.len() - 1) as nat,
            ),
    ensures
        orderings_by_head(items, n).len() == n * factorial((items.len() - 1) as nat),
    decreases n,
{
    if n > 0 {
        lemma_by_head_count(items, (n - 1) as nat);
        let f = factorial((items.len() - 1) as nat);
        assert(orderings(items.remove(n - 1)).len() == f);
        assert((n - 1) * f + f == n * f) by (nonlinear_arith);
    } else {
        assert(0 * factorial((items.len() - 1) as nat) == 0) by (nonlinear_arith);
    }
}

/// There are as many orderings as the factorial of the number of items.
pub proof fn law_orderings_count(items: Seq<usize>)
    ensures
        orderings(items).len() == factorial(items.len()),
    decreases items.len(),
{
    if items.len() <= 1 {
        assert(factorial(0) == 1);
        assert(factorial(1) == 1 * factorial(0));
    } else {
        assert forall|i: int| 0 <= i < items.len() implies (#[trigger] orderings(
            items.remove(i),
        )).len() == factorial((items.len() - 1) as nat) by {
            law_orderings_count(items.remove(i));
        }
        lemma_by_head_count(items, items.len());
    }
}

proof fn lemma_by_head_distinct(items: Seq<usize>, n: nat)
    requires
        n <= items.len(),
        items.no_duplicates(),
        forall|i: int|
            0 <= i < items.len() ==> (#[trigger] orderings(items.remove(i))).no_duplicates(),
    ensures
        orderings_by_head(items, n).no_duplicates(),
    decreases n,
{
    if n > 0 {
        let prior = orderings_by_head(items, (n - 1) as nat);
        let tails = orderings(items.remove(n - 1));
        let all = orderings_by_head(items, n);
        lemma_by_head_distinct(items, (n - 1) as nat);
        assert(tails.no_duplicates());
        assert forall|a: int, b: int| 0 <= a < b < all.len() implies all[a] != all[b] by {
            if b < prior.len() {
                assert(prior[a] == all[a] && prior[b] == all[b]);
            } else if a >= prior.len() {
                let ta = tails[a - prior.len()];
                let tb = tails[b - prior.len()];
                assert(all[a].drop_first() =~= ta);
                assert(all[b].drop_first() =~= tb);
            } else {
                assert(prior.contains(prior[a]));
                lemma_by_head(items, (n - 1) as nat, all[a]);
                assert(all[b][0] == items[n - 1]);
            }
        }
    }
}

/// Where no item occurs twice, no ordering is listed twice.
pub proof fn law_orderings_distinct(items: Seq<usize>)
    requires
        items.no_duplicates(),
    ensures
        orderings(items).no_duplicates(),
    decreases items.len(),
{
    if items.len() > 1 {
        assert forall|i: int| 0 <= i < items.len() implies (#[trigger] orderings(
            items.remove(i),
        )).no_duplicates() by {
            law_orderings_distinct(items.remove(i));
        }
        lemma_by_head_distinct(items, items.len());
    }
}

proof fn lemma_by_head_renamed(items: Seq<usize>, f: spec_fn(usize) -> usize, n: nat)
    requires
        n <= items.len(),
        forall|i: int|
            0 <= i < items.len() ==> orderings((#[trigger] items.remove(i)).map_values(f))
                == orderings(items.remove(i)).map_values(|order: Seq<usize>| order.map_values(f)),
    ensures
        orderings_by_head(items.map_values(f), n) == orderings_by_head(items, n).map_values(
            |order: Seq<usize>| order.map_values(f),
        ),
    decreases n,
{
    let renamed = items.map_values(f);
    let rename = |order: Seq<usize>| order.map_values(f);
    if n > 0 {
        let prior = orderings_by_head(items, (n - 1) as nat);
        let tails = orderings(items.remove(n - 1));
        let added = each_after(items[n - 1], tails);
        lemma_by_head_renamed(items, f, (n - 1) as nat);
        assert(renamed.remove(n - 1) =~= items.remove(n - 1).map_values(f));
        assert(each_after(renamed[n - 1], tails.map_values(rename)) =~= added.map_values(rename))
            by {
            assert forall|t: int| 0 <= t < tails.len() implies seq![renamed[n - 1]]
                + tails[t].map_values(f) =~= (seq![items[n - 1]] + #[trigger] tails[t]).map_values(
                f,
            ) by {}
        }
        assert((prior + added).map_values(rename) =~= prior.map_values(rename)
            + added.map_values(rename));
    } else {
        assert(orderings_by_head(renamed, 0) =~= orderings_by_head(items, 0).map_values(rename));
    }
}

/// Which orderings come, and in which order, depends on the places of the items and not on the
/// items: with other items in their places the same orderings come.
pub proof fn law_orderings_follow_renaming(items: Seq<usize>, f: spec_fn(usize) -> usize)
    ensures
        orderings(items.map_values(f)) == orderings(items).map_values(
            |order: Seq<usize>| order.map_values(f),
        ),
    decreases items.len(),
{
    let rename = |order: Seq<usize>| order.map_values(f);
    if items.len() <= 1 {
        assert(orderings(items.map_values(f)) =~= orderings(items).map_values(rename));
    } else {
        assert forall|i: int| 0 <= i < items.len() implies orderings(
            (#[trigger] items.remove(i)).map_values(f),
        ) == orderings(items.remove(i)).map_values(|order: Seq<usize>| order.map_values(f)) by {
            law_orderings_follow_renaming(items.remove(i), f);
        }
        lemma_by_head_renamed(items, f, items.len());
        assert(items.map_values(f).len() == items.len());
    }
}

/// Whether the two agree up to a place where `a` has the smaller number.
pub open spec fn comes_first(a: Seq<usize>, b: Seq<usize>) -> bool {
    exists|k: int|
        {
            &&& 0 <= k < a.len()
            &&& k < b.len()
            &&& #[trigger] a[k] < b[k]
            &&& forall|j: int| 0 <= j < k ==> #[trigger] a[j] == b[j]
        }
}

/// Whether each number is less than all behind it.
pub open spec fn is_ascending(items: Seq<usize>) -> bool {
    forall|i: int, j: int| 0 <= i < j < items.len() ==> #[trigger] items[i] < #[trigger] items[j]
}

proof fn lemma_by_head_ascends(items: Seq<usize>, n: nat, a: int, b: int)
    requires
        n <= items.len(),
        items.len() > 1,
        is_ascending(items),
        0 <= a < b < orderings_by_head(items, n).len(),
        forall|i: int, c: int, d: int|
            0 <= i < items.len() && 0 <= c < d < orderings(items.remove(i)).len() ==> comes_first(
                #[trigger] orderings(items.remove(i))[c],
                #[trigger] orderings(items.remove(i))[d],
            ),
    ensures
        comes_first(orderings_by_head(items, n)[a], orderings_by_head(items, n)[b]),
    decreases n,
{
    let m = (n - 1) as nat;
    let prior = orderings_by_head(items, m);
    let tails = orderings(items.remove(n - 1));
    let all = orderings_by_head(items, n);
    if b < prior.len() {
        lemma_by_head_ascends(items, m, a, b);
        assert(all[a] == prior[a] && all[b] == prior[b]);
    } else if a >= prior.len() {
        let x = tails[a - prior.len()];
        let y = tails[b - prior.len()];
        assert(comes_first(x, y));
        let k = choose|k: int|
            {
                &&& 0 <= k < x.len()
                &&& k < y.len()
                &&& #[trigger] x[k] < y[k]
                &&& forall|j: int| 0 <= j < k ==> #[trigger] x[j] == y[j]
            };
        assert(all[a] == seq![items[n - 1]] + x && all[b] == seq![items[n - 1]] + y);
        assert forall|j: int| 0 <= j < k + 1 implies #[trigger] all[a][j] == all[b][j] by {
            if j > 0 {
                assert(x[j - 1] == y[j - 1]);
            }
        }
        assert(all[a][k + 1] < all[b][k + 1]);
    } else {
        assert(all[a] == prior[a]);
        assert(prior.contains(prior[a]));
        lemma_by_head(items, m, prior[a]);
        let i = choose|i: int|
            0 <= i < m && items[i] == prior[a][0] && #[trigger] orderings(
                items.remove(i),
            ).contains(prior[a].drop_first());
        assert(all[b] == seq![items[n - 1]] + tails[b - prior.len()]);
        assert(items[i] < items[n - 1]);
        assert(all[a][0] < all[b][0]);
    }
}

/// The orderings of ascending numbers come in the order of dictionaries.
pub proof fn law_orderings_of_ascending_numbers_ascend(items: Seq<usize>, a: int, b: int)
    requires
        is_ascending(items),
        0 <= a < b < orderings(items).len(),
    ensures
        comes_first(orderings(items)[a], orderings(items)[b]),
    decreases items.len(),
{
    if items.len() > 1 {
        assert forall|i: int, c: int, d: int|
            0 <= i < items.len() && 0 <= c < d < orderings(items.remove(i)).len() implies comes_first(
            #[trigger] orderings(items.remove(i))[c],
            #[trigger] orderings(items.remove(i))[d],
        ) by {
            let rest = items.remove(i);
            assert forall|x: int, y: int| 0 <= x < y < rest.len() implies #[trigger] rest[x]
                < #[trigger] rest[y] by {
                let p = if x < i {
                    x
                } else {
                    x + 1
                };
                let q = if y < i {
                    y
                } else {
                    y + 1
                };
                assert(rest[x] == items[p] && rest[y] == items[q]);
            }
            law_orderings_of_ascending_numbers_ascend(rest, c, d);
        }
        lemma_by_head_ascends(items, items.len(), a, b);
    }
}

/// Lists of numbers are taken item by item, in their order.
pub proof fn law_number_lists_are_taken_item_by_item(vecs: Seq<Vec<usize>>, i: int)
    ensures
        lists(vecs).len() == vecs.len(),
        0 <= i < vecs.len() ==> lists(vecs)[i] == vecs[i]@,
{
}

} // verus!
