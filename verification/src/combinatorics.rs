//! Choosing `k` of a row of items, and the sums of products over all such
//! choices: the alternating sum over all sizes is the product of the
//! complements.

use vstd::arithmetic::mul::*;
use vstd::prelude::*;

verus! {

/// Every subset of `subsets` with `first` put in front.
pub open spec fn with_first(first: usize, subsets: Seq<Seq<usize>>) -> Seq<Seq<usize>> {
    Seq::new(subsets.len(), |i: int| seq![first] + subsets[i])
}

/// All the ways to choose `k` of the items, each in the order of the items,
/// the choices in the lexicographic order of the places chosen.
pub open spec fn choices(items: Seq<usize>, k: nat) -> Seq<Seq<usize>>
    decreases items.len(),
{
    if k == 0 {
        seq![Seq::<usize>::empty()]
    } else if items.len() == 0 {
        Seq::empty()
    } else {
        with_first(items[0], choices(items.drop_first(), (k - 1) as nat)) + choices(
            items.drop_first(),
            k,
        )
    }
}

/// The product of the values of the items of a choice.
pub open spec fn product_of(choice: Seq<usize>, val: spec_fn(usize) -> int) -> int
    decreases choice.len(),
{
    if choice.len() == 0 {
        1
    } else {
        product_of(choice.drop_last(), val) * val(choice.last())
    }
}

/// The sum of the products of the choices.
pub open spec fn sum_of_products(subsets: Seq<Seq<usize>>, val: spec_fn(usize) -> int) -> int
    decreases subsets.len(),
{
    if subsets.len() == 0 {
        0
    } else {
        sum_of_products(subsets.drop_last(), val) + product_of(subsets.last(), val)
    }
}

/// The sum of the products of all choices of `k` of the items.
pub open spec fn elementary(items: Seq<usize>, k: nat, val: spec_fn(usize) -> int) -> int {
    sum_of_products(choices(items, k), val)
}

/// One for an even number, minus one for an odd one.
pub open spec fn sign(k: nat) -> int {
    if k % 2 == 0 {
        1
    } else {
        -1
    }
}

/// The sum over the sizes `0..=top` of the sums of products, with
/// alternating signs.
pub open spec fn alternating(items: Seq<usize>, top: nat, val: spec_fn(usize) -> int) -> int
    decreases top,
{
    if top == 0 {
        elementary(items, 0, val)
    } else {
        alternating(items, (top - 1) as nat, val) + sign(top) * elementary(items, top, val)
    }
}

/// The product of the complements `1 - v` of the values of the items.
pub open spec fn all_off(items: Seq<usize>, val: spec_fn(usize) -> int) -> int
    decreases items.len(),
{
    if items.len() == 0 {
        1
    } else {
        (1 - val(items[0])) * all_off(items.drop_first(), val)
    }
}

/// Every choice of `k` items holds `k` items, each of them one of the items.
pub proof fn lemma_choices_hold_items(items: Seq<usize>, k: nat, i: int)
    requires
        0 <= i < choices(items, k).len(),
    ensures
        choices(items, k)[i].len() == k,
        forall|j: int| 0 <= j < k ==> items.contains(#[trigger] choices(items, k)[i][j]),
    decreases items.len(),
{
    if k == 0 {
    } else if items.len() == 0 {
    } else {
        let rest: Seq<usize> = items.drop_first();
        let with: Seq<Seq<usize>> = with_first(items[0], choices(rest, (k - 1) as nat));
        let c: Seq<usize> = choices(items, k)[i];
        if i < with.len() {
            lemma_choices_hold_items(rest, (k - 1) as nat, i);
            let inner: Seq<usize> = choices(rest, (k - 1) as nat)[i];
            assert(c == seq![items[0]] + inner);
            assert forall|j: int| 0 <= j < k implies items.contains(#[trigger] c[j]) by {
                if j == 0 {
                    assert(items[0] == c[0]);
                } else {
                    assert(c[j] == inner[j - 1]);
                    assert(rest.contains(inner[j - 1]));
                    let at: int = choose|at: int| 0 <= at < rest.len() && rest[at] == inner[j - 1];
                    assert(items[at + 1] == c[j]);
                }
            }
        } else {
            lemma_choices_hold_items(rest, k, i - with.len());
            let same: Seq<usize> = choices(rest, k)[i - with.len()];
            assert(c == same);
            assert forall|j: int| 0 <= j < k implies items.contains(#[trigger] c[j]) by {
                assert(rest.contains(same[j]));
                let at: int = choose|at: int| 0 <= at < rest.len() && rest[at] == same[j];
                assert(items[at + 1] == c[j]);
            }
        }
    }
}

/// There is a way to choose `k` of at least `k` items, and none to choose
/// more items than there are.
pub proof fn lemma_choices_exist(items: Seq<usize>, k: nat)
    ensures
        k <= items.len() ==> choices(items, k).len() >= 1,
        k > items.len() ==> choices(items, k).len() == 0,
    decreases items.len(),
{
    if k > 0 && items.len() > 0 {
        lemma_choices_exist(items.drop_first(), (k - 1) as nat);
        lemma_choices_exist(items.drop_first(), k);
    }
}

/// The product of a choice with an item put in front.
proof fn lemma_product_with_first(first: usize, choice: Seq<usize>, val: spec_fn(usize) -> int)
    ensures
        product_of(seq![first] + choice, val) == val(first) * product_of(choice, val),
    decreases choice.len(),
{
    let whole: Seq<usize> = seq![first] + choice;
    if choice.len() == 0 {
        assert(whole.drop_last() =~= Seq::<usize>::empty());
        assert(whole.last() == first);
        assert(product_of(whole.drop_last(), val) == 1);
        lemma_mul_basics(val(first));
    } else {
        lemma_product_with_first(first, choice.drop_last(), val);
        assert(whole.drop_last() =~= seq![first] + choice.drop_last());
        assert(whole.last() == choice.last());
        lemma_mul_is_associative(val(first), product_of(choice.drop_last(), val), val(choice.last()));
    }
}

/// The sum over two rows of choices is the sum of their sums.
proof fn lemma_sum_of_both(a: Seq<Seq<usize>>, b: Seq<Seq<usize>>, val: spec_fn(usize) -> int)
    ensures
        sum_of_products(a + b, val) == sum_of_products(a, val) + sum_of_products(b, val),
    decreases b.len(),
{
    if b.len() == 0 {
        assert(a + b =~= a);
    } else {
        lemma_sum_of_both(a, b.drop_last(), val);
        assert((a + b).drop_last() =~= a + b.drop_last());
        assert((a + b).last() == b.last());
    }
}

/// The sum over choices that all begin with the same item.
proof fn lemma_sum_with_first(first: usize, subsets: Seq<Seq<usize>>, val: spec_fn(usize) -> int)
    ensures
        sum_of_products(with_first(first, subsets), val) == val(first) * sum_of_products(
            subsets,
            val,
        ),
    decreases subsets.len(),
{
    let all: Seq<Seq<usize>> = with_first(first, subsets);
    if subsets.len() == 0 {
        lemma_mul_basics(val(first));
    } else {
        lemma_sum_with_first(first, subsets.drop_last(), val);
        assert(all.drop_last() =~= with_first(first, subsets.drop_last()));
        assert(all.last() == seq![first] + subsets.last());
        lemma_product_with_first(first, subsets.last(), val);
        lemma_mul_is_distributive_add(
            val(first),
            sum_of_products(subsets.drop_last(), val),
            product_of(subsets.last(), val),
        );
    }
}

/// The sum of products over the choices of `k` items: of none, it is one; of
/// some among no items, zero; otherwise the first item is chosen or not.
pub proof fn lemma_elementary(items: Seq<usize>, k: nat, val: spec_fn(usize) -> int)
    ensures
        k == 0 ==> elementary(items, k, val) == 1,
        k > 0 && items.len() == 0 ==> elementary(items, k, val) == 0,
        k > 0 && items.len() > 0 ==> elementary(items, k, val) == val(items[0]) * elementary(
            items.drop_first(),
            (k - 1) as nat,
            val,
        ) + elementary(items.drop_first(), k, val),
{
    if k == 0 {
        let only: Seq<Seq<usize>> = seq![Seq::<usize>::empty()];
        assert(only.drop_last().len() == 0);
        assert(only.last().len() == 0);
        assert(sum_of_products(only, val) == sum_of_products(only.drop_last(), val) + product_of(
            only.last(),
            val,
        ));
    } else if items.len() > 0 {
        let rest: Seq<usize> = items.drop_first();
        lemma_sum_of_both(
            with_first(items[0], choices(rest, (k - 1) as nat)),
            choices(rest, k),
            val,
        );
        lemma_sum_with_first(items[0], choices(rest, (k - 1) as nat), val);
    }
}

/// The alternating sum over the choices among no items is one.
proof fn lemma_alternating_of_none(top: nat, val: spec_fn(usize) -> int)
    ensures
        alternating(Seq::<usize>::empty(), top, val) == 1,
    decreases top,
{
    let none: Seq<usize> = Seq::empty();
    lemma_elementary(none, top, val);
    if top > 0 {
        lemma_alternating_of_none((top - 1) as nat, val);
        lemma_mul_basics(sign(top));
    }
}

/// The alternating sum with the first item chosen or not.
proof fn lemma_alternating_split(items: Seq<usize>, top: nat, val: spec_fn(usize) -> int)
    requires
        items.len() > 0,
        top >= 1,
    ensures
        alternating(items, top, val) == alternating(items.drop_first(), top, val) - val(items[0])
            * alternating(items.drop_first(), (top - 1) as nat, val),
    decreases top,
{
    let rest: Seq<usize> = items.drop_first();
    let v: int = val(items[0]);
    lemma_elementary(items, top, val);
    lemma_elementary(items, 0, val);
    lemma_elementary(rest, 0, val);
    let e1: int = elementary(rest, (top - 1) as nat, val);
    let e2: int = elementary(rest, top, val);
    if top == 1 {
        assert(alternating(items, 0, val) == elementary(items, 0, val));
        assert(alternating(rest, 0, val) == elementary(rest, 0, val));
        assert(sign(1) == -1);
        assert(alternating(items, 1, val) == alternating(items, 0, val) + sign(1) * elementary(
            items,
            1,
            val,
        ));
        assert(alternating(rest, 1, val) == alternating(rest, 0, val) + sign(1) * elementary(
            rest,
            1,
            val,
        ));
        assert(alternating(items, 1, val) == 1 + (-1) * (v * e1 + e2));
        assert(alternating(rest, 1, val) == 1 + (-1) * e2);
        assert(alternating(rest, 0, val) == 1);
        assert(e1 == 1);
        assert(1 + (-1) * (v * e1 + e2) == (1 + (-1) * e2) - v * 1) by (nonlinear_arith)
            requires
                e1 == 1,
        ;
    } else {
        let lower: nat = (top - 1) as nat;
        lemma_alternating_split(items, lower, val);
        let a1: int = alternating(rest, lower, val);
        let a0: int = alternating(rest, (lower - 1) as nat, val);
        assert(alternating(rest, top, val) == a1 + sign(top) * e2);
        assert(a1 == a0 + sign(lower) * e1);
        assert(sign(lower) == -sign(top));
        assert(a1 - v * a0 + sign(top) * (v * e1 + e2) == (a1 + sign(top) * e2) - v * a1)
            by (nonlinear_arith)
            requires
                a1 == a0 + sign(lower) * e1,
                sign(lower) == -sign(top),
        ;
    }
}

/// Inclusion and exclusion: the alternating sum over the choices of all
/// sizes is the product of the complements.
pub proof fn lemma_alternating_is_product(items: Seq<usize>, top: nat, val: spec_fn(usize) -> int)
    requires
        top >= items.len(),
    ensures
        alternating(items, top, val) == all_off(items, val),
    decreases items.len(),
{
    if items.len() == 0 {
        assert(items =~= Seq::<usize>::empty());
        lemma_alternating_of_none(top, val);
    } else {
        let rest: Seq<usize> = items.drop_first();
        lemma_alternating_split(items, top, val);
        lemma_alternating_is_product(rest, top, val);
        lemma_alternating_is_product(rest, (top - 1) as nat, val);
        let p: int = all_off(rest, val);
        assert(p - val(items[0]) * p == (1 - val(items[0])) * p) by (nonlinear_arith);
    }
}

/// Whether every item has the value zero or one.
pub open spec fn binary(items: Seq<usize>, val: spec_fn(usize) -> int) -> bool {
    forall|i: int| 0 <= i < items.len() ==> val(#[trigger] items[i]) == 0 || val(items[i]) == 1
}

/// The number of items with the value one, among items with the values zero
/// and one.
pub open spec fn ones(items: Seq<usize>, val: spec_fn(usize) -> int) -> int
    decreases items.len(),
{
    if items.len() == 0 {
        0
    } else {
        val(items[0]) + ones(items.drop_first(), val)
    }
}

/// The product over items with the values zero and one is one when all have
/// the value one, and zero when one of them has not.
pub proof fn lemma_product_of_binary(choice: Seq<usize>, val: spec_fn(usize) -> int)
    requires
        binary(choice, val),
    ensures
        product_of(choice, val) == if forall|i: int|
            0 <= i < choice.len() ==> val(#[trigger] choice[i]) == 1 {
            1int
        } else {
            0int
        },
    decreases choice.len(),
{
    if choice.len() > 0 {
        let front: Seq<usize> = choice.drop_last();
        assert forall|i: int| 0 <= i < front.len() implies val(#[trigger] front[i]) == 0 || val(
            front[i],
        ) == 1 by {
            assert(front[i] == choice[i]);
        }
        lemma_product_of_binary(front, val);
        let last: int = val(choice.last());
        assert(last == 0 || last == 1);
        lemma_mul_basics(product_of(front, val));
        if forall|i: int| 0 <= i < choice.len() ==> val(#[trigger] choice[i]) == 1 {
            assert forall|i: int| 0 <= i < front.len() implies val(#[trigger] front[i]) == 1 by {
                assert(front[i] == choice[i]);
            }
        } else {
            let bad: int = choose|i: int| 0 <= i < choice.len() && val(#[trigger] choice[i]) != 1;
            if bad < front.len() {
                assert(front[bad] == choice[bad]);
            }
        }
    }
}

/// The product of the complements over items with the values zero and one
/// is zero when an item has the value one, and one when none has.
pub proof fn lemma_all_off_of_binary(items: Seq<usize>, val: spec_fn(usize) -> int)
    requires
        binary(items, val),
    ensures
        all_off(items, val) == if exists|i: int| 0 <= i < items.len() && val(#[trigger] items[i]) == 1 {
            0int
        } else {
            1int
        },
    decreases items.len(),
{
    if items.len() > 0 {
        let rest: Seq<usize> = items.drop_first();
        assert forall|i: int| 0 <= i < rest.len() implies val(#[trigger] rest[i]) == 0 || val(
            rest[i],
        ) == 1 by {
            assert(rest[i] == items[i + 1]);
        }
        lemma_all_off_of_binary(rest, val);
        let first: int = val(items[0]);
        assert(first == 0 || first == 1);
        lemma_mul_basics(all_off(rest, val));
        if exists|i: int| 0 <= i < items.len() && val(#[trigger] items[i]) == 1 {
            let at: int = choose|i: int| 0 <= i < items.len() && val(#[trigger] items[i]) == 1;
            if at > 0 {
                assert(rest[at - 1] == items[at]);
            }
        } else {
            assert forall|i: int| 0 <= i < rest.len() implies val(#[trigger] rest[i]) != 1 by {
                assert(rest[i] == items[i + 1]);
            }
        }
    }
}

/// Whether every item of a choice has the value one.
pub open spec fn all_on(choice: Seq<usize>, val: spec_fn(usize) -> int) -> bool {
    forall|j: int| 0 <= j < choice.len() ==> val(#[trigger] choice[j]) == 1
}

/// Among items with the values zero and one, `k` items with the value one
/// can be chosen just when at least `k` items have it.
pub proof fn lemma_choice_of_ones(items: Seq<usize>, k: nat, val: spec_fn(usize) -> int)
    requires
        binary(items, val),
    ensures
        0 <= ones(items, val) <= items.len(),
        (exists|i: int| 0 <= i < choices(items, k).len() && all_on(#[trigger] choices(items, k)[i], val))
            <==> ones(items, val) >= k,
    decreases items.len(),
{
    let cs: Seq<Seq<usize>> = choices(items, k);
    if items.len() == 0 {
        if k == 0 {
            assert(all_on(cs[0], val));
        }
    } else {
        let rest: Seq<usize> = items.drop_first();
        assert forall|i: int| 0 <= i < rest.len() implies val(#[trigger] rest[i]) == 0 || val(
            rest[i],
        ) == 1 by {
            assert(rest[i] == items[i + 1]);
        }
        let first: int = val(items[0]);
        assert(first == 0 || first == 1);
        lemma_choice_of_ones(rest, k, val);
        if k == 0 {
            assert(all_on(cs[0], val));
        } else {
            lemma_choice_of_ones(rest, (k - 1) as nat, val);
            let inner: Seq<Seq<usize>> = choices(rest, (k - 1) as nat);
            let with: Seq<Seq<usize>> = with_first(items[0], inner);
            let without: Seq<Seq<usize>> = choices(rest, k);
            assert(cs == with + without);
            if exists|i: int| 0 <= i < cs.len() && all_on(#[trigger] cs[i], val) {
                let i: int = choose|i: int| 0 <= i < cs.len() && all_on(#[trigger] cs[i], val);
                if i < with.len() {
                    let c: Seq<usize> = cs[i];
                    assert(c == seq![items[0]] + inner[i]);
                    assert(val(c[0]) == 1);
                    assert forall|j: int| 0 <= j < inner[i].len() implies val(
                        #[trigger] inner[i][j],
                    ) == 1 by {
                        assert(c[j + 1] == inner[i][j]);
                    }
                    assert(all_on(inner[i], val));
                } else {
                    assert(cs[i] == without[i - with.len()]);
                    assert(all_on(without[i - with.len()], val));
                }
                assert(ones(items, val) >= k);
            }
            if ones(items, val) >= k {
                if ones(rest, val) >= k {
                    let i: int = choose|i: int|
                        0 <= i < without.len() && all_on(#[trigger] without[i], val);
                    assert(cs[with.len() + i] == without[i]);
                    assert(all_on(cs[with.len() + i], val));
                } else {
                    assert(first == 1);
                    let i: int = choose|i: int| 0 <= i < inner.len() && all_on(#[trigger] inner[i], val);
                    let c: Seq<usize> = cs[i];
                    assert(c == seq![items[0]] + inner[i]);
                    assert forall|j: int| 0 <= j < c.len() implies val(#[trigger] c[j]) == 1 by {
                        if j > 0 {
                            assert(c[j] == inner[i][j - 1]);
                        }
                    }
                    assert(all_on(cs[i], val));
                }
            }
        }
    }
}

} // verus!
