//! The circuit of a vote: for every option, one output that tells whether at
//! least a threshold of the voters chose it.

use crate::circuit::Circuit;
use crate::circuit::gate_value;
use crate::circuit::operands_precede;
use crate::combinatorics::all_on;
use crate::combinatorics::alternating;
use crate::combinatorics::binary;
use crate::combinatorics::choices;
use crate::combinatorics::elementary;
use crate::combinatorics::lemma_all_off_of_binary;
use crate::combinatorics::lemma_alternating_is_product;
use crate::combinatorics::lemma_choice_of_ones;
use crate::combinatorics::lemma_choices_exist;
use crate::combinatorics::lemma_choices_hold_items;
use crate::combinatorics::lemma_elementary;
use crate::combinatorics::lemma_product_of_binary;
use crate::combinatorics::ones;
use crate::combinatorics::product_of;
use crate::combinatorics::sign;
use crate::combinatorics::sum_of_products;
use crate::field::add_mod;
use crate::field::mul_mod;
use crate::gate::Gate;
use crate::sharing::lemma_congruent_add;
use crate::sharing::lemma_congruent_mul;
use itertools::Itertools;
use vstd::arithmetic::div_mod::*;
use vstd::arithmetic::mul::*;
use vstd::prelude::*;

verus! {

/// `Itertools::combinations`, gathered into a vector: all the ways to choose
/// `k` of the items, each in the order of the items, the choices in the
/// lexicographic order of the places chosen. No more is chosen than there
/// are items: the outside function sets up one index for each of the `k`.
#[verifier::external_body]
fn combinations(items: &Vec<usize>, k: usize) -> (subsets: Vec<Vec<usize>>)
    requires
        k <= items.len(),
    ensures
        subsets.len() == choices(items@, k as nat).len(),
        forall|i: int| 0 <= i < subsets.len() ==> (#[trigger] subsets[i])@ == choices(items@, k as nat)[i],
{
    items.clone().into_iter().combinations(k).collect()
}

/// Whether `new` holds the gates of `old`, and maybe more behind them.
pub open spec fn grown_from(new: Seq<Gate<u16>>, old: Seq<Gate<u16>>) -> bool {
    &&& old.len() <= new.len()
    &&& forall|i: int| 0 <= i < old.len() ==> #[trigger] new[i] == old[i]
}

/// Whether what stands at `g` multiplies the items, from the first to the last:
/// it is the only item, or the product of the last item with the product of
/// those before.
pub open spec fn is_product_of(arena: Seq<Gate<u16>>, g: usize, items: Seq<usize>) -> bool
    decreases items.len(),
{
    if items.len() == 0 {
        false
    } else if items.len() == 1 {
        g == items[0] && g < arena.len()
    } else {
        &&& g < arena.len()
        &&& arena[g as int] matches Gate::Mul { first, second, .. }
        &&& second == items.last()
        &&& first < g
        &&& second < g
        &&& is_product_of(arena, first, items.drop_last())
    }
}

/// Whether what stands at `g` adds the items up, from the first to the last.
pub open spec fn is_sum_of(arena: Seq<Gate<u16>>, g: usize, items: Seq<usize>) -> bool
    decreases items.len(),
{
    if items.len() == 0 {
        false
    } else if items.len() == 1 {
        g == items[0] && g < arena.len()
    } else {
        &&& g < arena.len()
        &&& arena[g as int] matches Gate::Add { first, second, .. }
        &&& second == items.last()
        &&& first < g
        &&& second < g
        &&& is_sum_of(arena, first, items.drop_last())
    }
}

/// Whether what stands at `g` is the product of the items, times `factor` if
/// there is one.
pub open spec fn is_scaled_product(
    arena: Seq<Gate<u16>>,
    g: usize,
    items: Seq<usize>,
    factor: Option<u16>,
) -> bool {
    match factor {
        None => is_product_of(arena, g, items),
        Some(c) => {
            &&& g < arena.len()
            &&& arena[g as int] matches Gate::MulByConst { first, second, .. }
            &&& second == c
            &&& first < g
            &&& is_product_of(arena, first, items)
        },
    }
}

/// The factor of the product of a number of items in the formula of
/// inclusion and exclusion: minus one, as `minus_one` stands for it, for an
/// even number, none for an odd one.
pub open spec fn factor_of(len: nat, minus_one: u16) -> Option<u16> {
    if len % 2 == 0 {
        Some(minus_one)
    } else {
        None
    }
}

/// The choices of `1..=top` of the items, the smaller choices first.
pub open spec fn subsets_up_to(items: Seq<usize>, top: nat) -> Seq<Seq<usize>>
    decreases top,
{
    if top == 0 {
        Seq::empty()
    } else {
        subsets_up_to(items, (top - 1) as nat) + choices(items, top)
    }
}

/// Whether every input gate of the arena names one of `n` voters and one of
/// the options.
pub open spec fn inputs_named(arena: Seq<Gate<u16>>, n: nat, options: nat) -> bool {
    forall|g: int|
        0 <= g < arena.len() ==> (#[trigger] arena[g] matches Gate::Input { party, circuit_id, .. }
            ==> party < n && circuit_id < options)
}

/// The votes of the `n` voters on an option: the inputs they give for it.
pub open spec fn votes(inputs: Seq<Seq<int>>, option: int, n: nat) -> Seq<int> {
    Seq::new(n, |i: int| inputs[i][option])
}

/// Whether every vote is zero or one.
pub open spec fn valid_votes(votes: Seq<int>) -> bool {
    forall|i: int| 0 <= i < votes.len() ==> #[trigger] votes[i] == 0 || votes[i] == 1
}

/// The number of votes for an option.
pub open spec fn count(votes: Seq<int>) -> int
    decreases votes.len(),
{
    if votes.len() == 0 {
        0
    } else {
        votes[0] + count(votes.drop_first())
    }
}

/// Whether an option is carried: one when at least `threshold` voters chose
/// it, zero when fewer did.
pub open spec fn carried(votes: Seq<int>, threshold: nat) -> int {
    if count(votes) >= threshold {
        1
    } else {
        0
    }
}

/// The value of every gate, for given inputs.
pub open spec fn value_in(arena: Seq<Gate<u16>>, inputs: Seq<Seq<int>>, m: int) -> spec_fn(
    usize,
) -> int {
    |g: usize| gate_value(arena, inputs, g, m)
}

/// The sum of the values of the items.
pub open spec fn total(items: Seq<usize>, val: spec_fn(usize) -> int) -> int
    decreases items.len(),
{
    if items.len() == 0 {
        0
    } else {
        total(items.drop_last(), val) + val(items.last())
    }
}

/// The sum over the choices of the products of their values, a choice of an
/// even number of items counting with minus one.
pub open spec fn signed_sum(subsets: Seq<Seq<usize>>, val: spec_fn(usize) -> int) -> int
    decreases subsets.len(),
{
    if subsets.len() == 0 {
        0
    } else {
        signed_sum(subsets.drop_last(), val) - sign(subsets.last().len()) * product_of(
            subsets.last(),
            val,
        )
    }
}

/// Gates keep their value when more gates are put behind them.
pub proof fn lemma_value_of_prefix(
    old: Seq<Gate<u16>>,
    new: Seq<Gate<u16>>,
    inputs: Seq<Seq<int>>,
    g: usize,
    m: int,
)
    requires
        grown_from(new, old),
        g < old.len(),
    ensures
        gate_value(new, inputs, g, m) == gate_value(old, inputs, g, m),
    decreases g,
{
    assert(new[g as int] == old[g as int]);
    match old[g as int] {
        Gate::Input { .. } => {},
        Gate::Add { first, second, .. } => {
            if first < g && second < g {
                lemma_value_of_prefix(old, new, inputs, first, m);
                lemma_value_of_prefix(old, new, inputs, second, m);
            }
        },
        Gate::MulByConst { first, .. } => {
            if first < g {
                lemma_value_of_prefix(old, new, inputs, first, m);
            }
        },
        Gate::Mul { first, second, .. } => {
            if first < g && second < g {
                lemma_value_of_prefix(old, new, inputs, first, m);
                lemma_value_of_prefix(old, new, inputs, second, m);
            }
        },
    }
}

/// A product stays one when more gates are put behind its gates.
proof fn lemma_product_of_prefix(
    old: Seq<Gate<u16>>,
    new: Seq<Gate<u16>>,
    g: usize,
    items: Seq<usize>,
)
    requires
        grown_from(new, old),
        is_product_of(old, g, items),
    ensures
        is_product_of(new, g, items),
    decreases items.len(),
{
    if items.len() >= 2 {
        assert(new[g as int] == old[g as int]);
        match old[g as int] {
            Gate::Mul { first, .. } => {
                lemma_product_of_prefix(old, new, first, items.drop_last());
            },
            _ => {},
        }
    }
}

/// A product, with its factor or without, stays one when more gates are put
/// behind its gates.
proof fn lemma_scaled_product_of_prefix(
    old: Seq<Gate<u16>>,
    new: Seq<Gate<u16>>,
    g: usize,
    items: Seq<usize>,
    factor: Option<u16>,
)
    requires
        grown_from(new, old),
        is_scaled_product(old, g, items, factor),
    ensures
        is_scaled_product(new, g, items, factor),
{
    match factor {
        None => {
            lemma_product_of_prefix(old, new, g, items);
        },
        Some(c) => {
            assert(new[g as int] == old[g as int]);
            match old[g as int] {
                Gate::MulByConst { first, .. } => {
                    lemma_product_of_prefix(old, new, first, items);
                },
                _ => {},
            }
        },
    }
}

/// Appends the gates that multiply the items, from the first to the last,
/// and returns the place of the product.
fn product_chain(circuit: &mut Circuit<u16>, items: &Vec<usize>) -> (last: usize)
    requires
        items.len() >= 1,
        forall|i: int| 0 <= i < items.len() ==> items[i] < old(circuit).arena().len(),
        operands_precede(old(circuit).arena()),
    ensures
        grown_from(final(circuit).arena(), old(circuit).arena()),
        operands_precede(final(circuit).arena()),
        is_product_of(final(circuit).arena(), last, items@),
        last < final(circuit).arena().len(),
        final(circuit).roots() == old(circuit).roots(),
        final(circuit).parties() == old(circuit).parties(),
        forall|g: int|
            old(circuit).arena().len() <= g < final(circuit).arena().len() ==> !(
            #[trigger] final(circuit).arena()[g] is Input),
{
    let mut acc: usize = items[0];
    let mut k: usize = 1;
    assert(items@.take(1).len() == 1);
    while k < items.len()
        invariant
            1 <= k <= items.len(),
            forall|i: int| 0 <= i < items.len() ==> items[i] < old(circuit).arena().len(),
            grown_from(circuit.arena(), old(circuit).arena()),
            operands_precede(circuit.arena()),
            is_product_of(circuit.arena(), acc, items@.take(k as int)),
            acc < circuit.arena().len(),
            circuit.roots() == old(circuit).roots(),
            circuit.parties() == old(circuit).parties(),
            forall|g: int|
                old(circuit).arena().len() <= g < circuit.arena().len() ==> !(
                #[trigger] circuit.arena()[g] is Input),
        decreases items.len() - k,
    {
        let ghost before: Seq<Gate<u16>> = circuit.arena();
        let item: usize = items[k];
        let next: usize = circuit.add(Gate::new_mul(acc, item));
        proof {
            let after: Seq<Gate<u16>> = circuit.arena();
            assert(grown_from(after, before));
            lemma_product_of_prefix(before, after, acc, items@.take(k as int));
            let longer: Seq<usize> = items@.take(k + 1);
            assert(longer.drop_last() =~= items@.take(k as int));
            assert(longer.last() == item);
            assert(after[next as int] == (Gate::<u16>::Mul { first: acc, second: item, output: None }));
            assert(is_product_of(after, next, longer));
            assert forall|i: int| 0 <= i < after.len() implies {
                &&& ((#[trigger] after[i]).first_operand() matches Some(a) ==> a < i)
                &&& (after[i].second_operand() matches Some(b) ==> b < i)
            } by {
                if i < before.len() {
                    assert(after[i] == before[i]);
                }
            }
        }
        acc = next;
        k = k + 1;
    }
    assert(items@.take(items.len() as int) == items@);
    acc
}

/// Appends the gates that add the items up, from the first to the last, and
/// returns the place of the sum.
fn sum_chain(circuit: &mut Circuit<u16>, items: &Vec<usize>) -> (last: usize)
    requires
        items.len() >= 1,
        forall|i: int| 0 <= i < items.len() ==> items[i] < old(circuit).arena().len(),
        operands_precede(old(circuit).arena()),
    ensures
        grown_from(final(circuit).arena(), old(circuit).arena()),
        operands_precede(final(circuit).arena()),
        is_sum_of(final(circuit).arena(), last, items@),
        last < final(circuit).arena().len(),
        final(circuit).roots() == old(circuit).roots(),
        final(circuit).parties() == old(circuit).parties(),
        forall|g: int|
            old(circuit).arena().len() <= g < final(circuit).arena().len() ==> !(
            #[trigger] final(circuit).arena()[g] is Input),
{
    let mut acc: usize = items[0];
    let mut k: usize = 1;
    assert(items@.take(1).len() == 1);
    while k < items.len()
        invariant
            1 <= k <= items.len(),
            forall|i: int| 0 <= i < items.len() ==> items[i] < old(circuit).arena().len(),
            grown_from(circuit.arena(), old(circuit).arena()),
            operands_precede(circuit.arena()),
            is_sum_of(circuit.arena(), acc, items@.take(k as int)),
            acc < circuit.arena().len(),
            circuit.roots() == old(circuit).roots(),
            circuit.parties() == old(circuit).parties(),
            forall|g: int|
                old(circuit).arena().len() <= g < circuit.arena().len() ==> !(
                #[trigger] circuit.arena()[g] is Input),
        decreases items.len() - k,
    {
        let ghost before: Seq<Gate<u16>> = circuit.arena();
        let item: usize = items[k];
        let next: usize = circuit.add(Gate::new_add(acc, item));
        proof {
            let after: Seq<Gate<u16>> = circuit.arena();
            assert(grown_from(after, before));
            lemma_sum_of_prefix(before, after, acc, items@.take(k as int));
            let longer: Seq<usize> = items@.take(k + 1);
            assert(longer.drop_last() =~= items@.take(k as int));
            assert(longer.last() == item);
            assert(after[next as int] == (Gate::<u16>::Add { first: acc, second: item, output: None }));
            assert(is_sum_of(after, next, longer));
            assert forall|i: int| 0 <= i < after.len() implies {
                &&& ((#[trigger] after[i]).first_operand() matches Some(a) ==> a < i)
                &&& (after[i].second_operand() matches Some(b) ==> b < i)
            } by {
                if i < before.len() {
                    assert(after[i] == before[i]);
                }
            }
        }
        acc = next;
        k = k + 1;
    }
    assert(items@.take(items.len() as int) == items@);
    acc
}

/// A sum stays one when more gates are put behind its gates.
proof fn lemma_sum_of_prefix(old: Seq<Gate<u16>>, new: Seq<Gate<u16>>, g: usize, items: Seq<usize>)
    requires
        grown_from(new, old),
        is_sum_of(old, g, items),
    ensures
        is_sum_of(new, g, items),
    decreases items.len(),
{
    if items.len() >= 2 {
        assert(new[g as int] == old[g as int]);
        match old[g as int] {
            Gate::Add { first, .. } => {
                lemma_sum_of_prefix(old, new, first, items.drop_last());
            },
            _ => {},
        }
    }
}

/// Appends, for every way to choose `k` of the items, the gates that
/// multiply the chosen items, and that multiply the product by `factor` if
/// there is one. Returns the places of the results, in the order of the
/// choices.
#[verifier::spinoff_prover]
#[verifier::rlimit(50)]
fn add_products(
    circuit: &mut Circuit<u16>,
    items: &Vec<usize>,
    k: usize,
    factor: Option<u16>,
) -> (gates: Vec<usize>)
    requires
        1 <= k <= items.len(),
        forall|i: int| 0 <= i < items.len() ==> items[i] < old(circuit).arena().len(),
        operands_precede(old(circuit).arena()),
    ensures
        grown_from(final(circuit).arena(), old(circuit).arena()),
        operands_precede(final(circuit).arena()),
        gates.len() == choices(items@, k as nat).len(),
        forall|j: int|
            0 <= j < gates.len() ==> (#[trigger] gates[j]) < final(circuit).arena().len()
                && is_scaled_product(
                final(circuit).arena(),
                gates[j],
                choices(items@, k as nat)[j],
                factor,
            ),
        final(circuit).roots() == old(circuit).roots(),
        final(circuit).parties() == old(circuit).parties(),
        forall|g: int|
            old(circuit).arena().len() <= g < final(circuit).arena().len() ==> !(
            #[trigger] final(circuit).arena()[g] is Input),
{
    let subsets: Vec<Vec<usize>> = combinations(items, k);
    let ghost all: Seq<Seq<usize>> = choices(items@, k as nat);
    let mut gates: Vec<usize> = Vec::new();
    let mut j: usize = 0;
    while j < subsets.len()
        invariant
            j <= subsets.len(),
            k >= 1,
            all == choices(items@, k as nat),
            subsets.len() == all.len(),
            forall|i: int| 0 <= i < subsets.len() ==> (#[trigger] subsets[i])@ == all[i],
            forall|i: int| 0 <= i < items.len() ==> items[i] < old(circuit).arena().len(),
            grown_from(circuit.arena(), old(circuit).arena()),
            operands_precede(circuit.arena()),
            gates.len() == j,
            forall|i: int|
                0 <= i < j ==> (#[trigger] gates[i]) < circuit.arena().len() && is_scaled_product(
                    circuit.arena(),
                    gates[i],
                    all[i],
                    factor,
                ),
            circuit.roots() == old(circuit).roots(),
            circuit.parties() == old(circuit).parties(),
            forall|g: int|
                old(circuit).arena().len() <= g < circuit.arena().len() ==> !(
                #[trigger] circuit.arena()[g] is Input),
        decreases subsets.len() - j,
    {
        let ghost before: Seq<Gate<u16>> = circuit.arena();
        let subset: &Vec<usize> = &subsets[j];
        proof {
            lemma_choices_hold_items(items@, k as nat, j as int);
            assert(subset@ == all[j as int]);
            assert forall|i: int| 0 <= i < subset.len() implies subset[i] < before.len() by {
                assert(items@.contains(all[j as int][i]));
                let at: int = choose|at: int| 0 <= at < items@.len() && items@[at] == all[j as int][i];
                assert(items[at] < old(circuit).arena().len());
            }
        }
        let product: usize = product_chain(circuit, subset);
        let ghost middle: Seq<Gate<u16>> = circuit.arena();
        let gate: usize = match factor {
            Some(c) => circuit.add(Gate::new_mul_by_const(product, c)),
            None => product,
        };
        proof {
            let after: Seq<Gate<u16>> = circuit.arena();
            assert(grown_from(after, middle));
            assert(grown_from(after, before));
            assert(grown_from(after, old(circuit).arena()));
            lemma_product_of_prefix(middle, after, product, subset@);
            assert(is_scaled_product(after, gate, all[j as int], factor));
            assert forall|i: int| 0 <= i < after.len() implies {
                &&& ((#[trigger] after[i]).first_operand() matches Some(a) ==> a < i)
                &&& (after[i].second_operand() matches Some(b) ==> b < i)
            } by {
                if i < middle.len() {
                    assert(after[i] == middle[i]);
                }
            }
            assert forall|i: int| 0 <= i < j implies (#[trigger] gates[i]) < after.len()
                && is_scaled_product(after, gates[i], all[i], factor) by {
                lemma_scaled_product_of_prefix(before, after, gates[i], all[i], factor);
            }
            assert forall|g: int| old(circuit).arena().len() <= g < after.len() implies !(
            #[trigger] after[g] is Input) by {
                if g < middle.len() {
                    assert(after[g] == middle[g]);
                }
            }
        }
        gates.push(gate);
        j = j + 1;
    }
    gates
}

/// The value of a product of items: the product of their values, modulo
/// `m`; for one item, its value.
proof fn lemma_product_value(
    arena: Seq<Gate<u16>>,
    g: usize,
    items: Seq<usize>,
    inputs: Seq<Seq<int>>,
    m: int,
)
    requires
        m >= 2,
        is_product_of(arena, g, items),
    ensures
        gate_value(arena, inputs, g, m) % m == product_of(items, value_in(arena, inputs, m)) % m,
        items.len() >= 2 ==> 0 <= gate_value(arena, inputs, g, m) < m,
        items.len() == 1 ==> gate_value(arena, inputs, g, m) == value_in(arena, inputs, m)(items[0]),
    decreases items.len(),
{
    let val = value_in(arena, inputs, m);
    if items.len() == 1 {
        assert(items.drop_last().len() == 0);
        assert(product_of(items.drop_last(), val) == 1);
        assert(product_of(items, val) == product_of(items.drop_last(), val) * val(items.last()));
        lemma_mul_basics(val(items[0]));
    } else {
        match arena[g as int] {
            Gate::Mul { first, second, .. } => {
                lemma_product_value(arena, first, items.drop_last(), inputs, m);
                let a: int = gate_value(arena, inputs, first, m);
                let b: int = gate_value(arena, inputs, second, m);
                assert(gate_value(arena, inputs, g, m) == mul_mod(a, b, m));
                assert(val(items.last()) == b);
                lemma_mod_twice(a * b, m);
                lemma_mod_bound(a * b, m);
                lemma_congruent_mul(a, product_of(items.drop_last(), val), b, m);
            },
            _ => {},
        }
    }
}

/// The value of a product with its factor: the product of the values, with
/// minus one for an even number of items, modulo `m`.
proof fn lemma_scaled_value(
    arena: Seq<Gate<u16>>,
    g: usize,
    items: Seq<usize>,
    minus_one: u16,
    inputs: Seq<Seq<int>>,
    m: int,
)
    requires
        m >= 2,
        minus_one == m - 1,
        is_scaled_product(arena, g, items, factor_of(items.len(), minus_one)),
    ensures
        gate_value(arena, inputs, g, m) % m == (-sign(items.len()) * product_of(
            items,
            value_in(arena, inputs, m),
        )) % m,
        items.len() != 1 ==> 0 <= gate_value(arena, inputs, g, m) < m,
        items.len() == 1 ==> gate_value(arena, inputs, g, m) == value_in(arena, inputs, m)(items[0]),
{
    let val = value_in(arena, inputs, m);
    let p: int = product_of(items, val);
    if items.len() % 2 == 0 {
        match arena[g as int] {
            Gate::MulByConst { first, second, .. } => {
                lemma_product_value(arena, first, items, inputs, m);
                let a: int = gate_value(arena, inputs, first, m);
                assert(gate_value(arena, inputs, g, m) == mul_mod(a, second as int, m));
                lemma_mod_twice(a * (m - 1), m);
                lemma_mod_bound(a * (m - 1), m);
                lemma_mod_add_multiples_vanish(-1, m);
                assert(m + (-1) == m - 1);
                lemma_congruent_mul(m - 1, -1, a, m);
                lemma_congruent_mul(a, p, -1, m);
                assert((-1) * p == -sign(items.len()) * p);
            },
            _ => {},
        }
    } else {
        lemma_product_value(arena, g, items, inputs, m);
        assert(-sign(items.len()) == 1);
        lemma_mul_basics(p);
    }
}

/// The value of a sum of items: the sum of their values, modulo `m`; for
/// one item, its value.
proof fn lemma_sum_value(
    arena: Seq<Gate<u16>>,
    g: usize,
    items: Seq<usize>,
    inputs: Seq<Seq<int>>,
    m: int,
)
    requires
        m >= 2,
        is_sum_of(arena, g, items),
    ensures
        gate_value(arena, inputs, g, m) % m == total(items, value_in(arena, inputs, m)) % m,
        items.len() >= 2 ==> 0 <= gate_value(arena, inputs, g, m) < m,
        items.len() == 1 ==> gate_value(arena, inputs, g, m) == value_in(arena, inputs, m)(items[0]),
    decreases items.len(),
{
    let val = value_in(arena, inputs, m);
    if items.len() == 1 {
        assert(items.drop_last().len() == 0);
        assert(total(items.drop_last(), val) == 0);
        assert(total(items, val) == total(items.drop_last(), val) + val(items.last()));
    } else {
        match arena[g as int] {
            Gate::Add { first, second, .. } => {
                lemma_sum_value(arena, first, items.drop_last(), inputs, m);
                let a: int = gate_value(arena, inputs, first, m);
                let b: int = gate_value(arena, inputs, second, m);
                assert(gate_value(arena, inputs, g, m) == add_mod(a, b, m));
                assert(val(items.last()) == b);
                lemma_mod_twice(a + b, m);
                lemma_mod_bound(a + b, m);
                lemma_congruent_add(a, total(items.drop_last(), val), b, m);
            },
            _ => {},
        }
    }
}

/// The values of the products with their factors add up to the sum over
/// the choices with their signs, modulo `m`.
proof fn lemma_total_of_terms(
    arena: Seq<Gate<u16>>,
    terms: Seq<usize>,
    chosen: Seq<Seq<usize>>,
    minus_one: u16,
    inputs: Seq<Seq<int>>,
    m: int,
)
    requires
        m >= 2,
        minus_one == m - 1,
        terms.len() == chosen.len(),
        forall|j: int|
            0 <= j < terms.len() ==> is_scaled_product(
                arena,
                #[trigger] terms[j],
                chosen[j],
                factor_of(chosen[j].len(), minus_one),
            ),
    ensures
        total(terms, value_in(arena, inputs, m)) % m == signed_sum(
            chosen,
            value_in(arena, inputs, m),
        ) % m,
    decreases terms.len(),
{
    let val = value_in(arena, inputs, m);
    if terms.len() > 0 {
        let front: Seq<usize> = terms.drop_last();
        let before: Seq<Seq<usize>> = chosen.drop_last();
        assert forall|j: int| 0 <= j < front.len() implies is_scaled_product(
            arena,
            #[trigger] front[j],
            before[j],
            factor_of(before[j].len(), minus_one),
        ) by {
            assert(front[j] == terms[j]);
            assert(before[j] == chosen[j]);
        }
        lemma_total_of_terms(arena, front, before, minus_one, inputs, m);
        let last: int = terms.len() - 1;
        assert(is_scaled_product(
            arena,
            terms[last],
            chosen[last],
            factor_of(chosen[last].len(), minus_one),
        ));
        lemma_scaled_value(arena, terms.last(), chosen.last(), minus_one, inputs, m);
        let v: int = val(terms.last());
        let w: int = -sign(chosen.last().len()) * product_of(chosen.last(), val);
        lemma_congruent_add(total(front, val), signed_sum(before, val), v, m);
        lemma_congruent_add(v, w, signed_sum(before, val), m);
        assert(signed_sum(chosen, val) == signed_sum(before, val) + w) by (nonlinear_arith)
            requires
                signed_sum(chosen, val) == signed_sum(before, val) - sign(chosen.last().len())
                    * product_of(chosen.last(), val),
                w == -sign(chosen.last().len()) * product_of(chosen.last(), val),
        ;
    }
}

/// The sum with signs over two rows of choices is the sum of their sums.
proof fn lemma_signed_sum_of_both(
    a: Seq<Seq<usize>>,
    b: Seq<Seq<usize>>,
    val: spec_fn(usize) -> int,
)
    ensures
        signed_sum(a + b, val) == signed_sum(a, val) + signed_sum(b, val),
    decreases b.len(),
{
    if b.len() == 0 {
        assert(a + b =~= a);
    } else {
        lemma_signed_sum_of_both(a, b.drop_last(), val);
        assert((a + b).drop_last() =~= a + b.drop_last());
        assert((a + b).last() == b.last());
    }
}

/// The sum with signs over choices of the same number of items.
proof fn lemma_signed_sum_of_same_size(
    subsets: Seq<Seq<usize>>,
    k: nat,
    val: spec_fn(usize) -> int,
)
    requires
        forall|i: int| 0 <= i < subsets.len() ==> (#[trigger] subsets[i]).len() == k,
    ensures
        signed_sum(subsets, val) == -sign(k) * sum_of_products(subsets, val),
    decreases subsets.len(),
{
    if subsets.len() == 0 {
        lemma_mul_basics(-sign(k));
    } else {
        let front: Seq<Seq<usize>> = subsets.drop_last();
        assert forall|i: int| 0 <= i < front.len() implies (#[trigger] front[i]).len() == k by {
            assert(front[i] == subsets[i]);
        }
        lemma_signed_sum_of_same_size(front, k, val);
        assert(subsets.last().len() == k);
        let a: int = sum_of_products(front, val);
        let b: int = product_of(subsets.last(), val);
        let c: int = sign(k);
        assert((-c) * a - c * b == (-c) * (a + b)) by (nonlinear_arith);
    }
}

/// The sum with signs over the choices of `1..=top` items is one less the
/// alternating sum.
proof fn lemma_signed_sum_up_to(items: Seq<usize>, top: nat, val: spec_fn(usize) -> int)
    ensures
        signed_sum(subsets_up_to(items, top), val) == 1 - alternating(items, top, val),
    decreases top,
{
    if top == 0 {
        lemma_elementary(items, 0, val);
    } else {
        lemma_signed_sum_up_to(items, (top - 1) as nat, val);
        lemma_signed_sum_of_both(
            subsets_up_to(items, (top - 1) as nat),
            choices(items, top),
            val,
        );
        assert forall|i: int| 0 <= i < choices(items, top).len() implies (#[trigger] choices(
            items,
            top,
        )[i]).len() == top by {
            lemma_choices_hold_items(items, top, i);
        }
        lemma_signed_sum_of_same_size(choices(items, top), top, val);
        assert(-sign(top) * elementary(items, top, val) == -(sign(top) * elementary(
            items,
            top,
            val,
        ))) by (nonlinear_arith);
    }
}

/// The first of the choices of `1..=top` of the items, if there is one,
/// holds one of the items.
proof fn lemma_first_of_subsets(items: Seq<usize>, top: nat)
    requires
        subsets_up_to(items, top).len() >= 1,
    ensures
        subsets_up_to(items, top)[0].len() >= 1,
        forall|j: int|
            0 <= j < subsets_up_to(items, top)[0].len() ==> items.contains(
                #[trigger] subsets_up_to(items, top)[0][j],
            ),
    decreases top,
{
    if top > 0 {
        let before: Seq<Seq<usize>> = subsets_up_to(items, (top - 1) as nat);
        if before.len() >= 1 {
            lemma_first_of_subsets(items, (top - 1) as nat);
            assert(subsets_up_to(items, top)[0] == before[0]);
        } else {
            assert(subsets_up_to(items, top)[0] == choices(items, top)[0]);
            lemma_choices_hold_items(items, top, 0);
        }
    }
}

/// The number of items with the value one is the number of ones among
/// their values.
proof fn lemma_ones_is_count(items: Seq<usize>, val: spec_fn(usize) -> int, values: Seq<int>)
    requires
        values.len() == items.len(),
        forall|i: int| 0 <= i < items.len() ==> #[trigger] values[i] == val(items[i]),
    ensures
        ones(items, val) == count(values),
    decreases items.len(),
{
    if items.len() > 0 {
        let rest: Seq<usize> = items.drop_first();
        let others: Seq<int> = values.drop_first();
        assert forall|i: int| 0 <= i < rest.len() implies #[trigger] others[i] == val(rest[i]) by {
            assert(others[i] == values[i + 1]);
            assert(rest[i] == items[i + 1]);
        }
        lemma_ones_is_count(rest, val, others);
        assert(values[0] == val(items[0]));
    }
}

/// The output for an option: built as the formula of inclusion and
/// exclusion over all the ways to choose `t` of the voters, it is one when
/// at least `t` voters chose the option, and zero when fewer did.
#[verifier::spinoff_prover]
#[verifier::rlimit(50)]
proof fn lemma_option_value(
    arena: Seq<Gate<u16>>,
    voters: Seq<usize>,
    ands: Seq<usize>,
    chosen: Seq<Seq<usize>>,
    terms: Seq<usize>,
    root: usize,
    minus_one: u16,
    inputs: Seq<Seq<int>>,
    option: int,
    t: nat,
    m: int,
)
    requires
        m >= 2,
        minus_one == m - 1,
        1 <= t <= voters.len(),
        forall|i: int|
            0 <= i < voters.len() ==> (#[trigger] voters[i]) < arena.len() && arena[voters[i] as int]
                == (Gate::<u16>::Input { party: i as usize, circuit_id: option as usize, output: None }),
        0 <= option <= usize::MAX,
        voters.len() <= usize::MAX,
        ands.len() == choices(voters, t).len(),
        forall|k: int|
            0 <= k < ands.len() ==> is_product_of(arena, #[trigger] ands[k], choices(voters, t)[k]),
        chosen == subsets_up_to(ands, ands.len()),
        terms.len() == chosen.len(),
        forall|j: int|
            0 <= j < terms.len() ==> is_scaled_product(
                arena,
                #[trigger] terms[j],
                chosen[j],
                factor_of(chosen[j].len(), minus_one),
            ),
        is_sum_of(arena, root, terms),
        valid_votes(votes(inputs, option, voters.len())),
    ensures
        gate_value(arena, inputs, root, m) == carried(votes(inputs, option, voters.len()), t),
{
    let val = value_in(arena, inputs, m);
    let n: nat = voters.len();
    let cast: Seq<int> = votes(inputs, option, n);
    let groups: Seq<Seq<usize>> = choices(voters, t);
    // the voters' gates have their votes for values
    assert forall|i: int| 0 <= i < n implies #[trigger] cast[i] == val(voters[i]) by {
        assert(arena[voters[i] as int] == (Gate::<u16>::Input {
            party: i as usize,
            circuit_id: option as usize,
            output: None,
        }));
    }
    assert(binary(voters, val)) by {
        assert forall|i: int| 0 <= i < n implies val(#[trigger] voters[i]) == 0 || val(voters[i])
            == 1 by {
            assert(cast[i] == val(voters[i]));
        }
    }
    lemma_ones_is_count(voters, val, cast);
    lemma_choice_of_ones(voters, t, val);
    // every group is one when all its voters chose the option, else zero
    assert forall|k: int| 0 <= k < ands.len() implies val(#[trigger] ands[k]) == if all_on(
        groups[k],
        val,
    ) {
        1int
    } else {
        0int
    } by {
        lemma_choices_hold_items(voters, t, k);
        let group: Seq<usize> = groups[k];
        assert(binary(group, val)) by {
            assert forall|i: int| 0 <= i < group.len() implies val(#[trigger] group[i]) == 0 || val(
                group[i],
            ) == 1 by {
                assert(voters.contains(group[i]));
                let at: int = choose|at: int| 0 <= at < voters.len() && voters[at] == group[i];
                assert(val(voters[at]) == 0 || val(voters[at]) == 1);
            }
        }
        lemma_product_of_binary(group, val);
        lemma_product_value(arena, ands[k], group, inputs, m);
        if group.len() >= 2 {
            lemma_small_mod(gate_value(arena, inputs, ands[k], m) as nat, m as nat);
            lemma_small_mod(product_of(group, val) as nat, m as nat);
        } else {
            assert(product_of(group.drop_last(), val) == 1);
            lemma_mul_basics(val(group[0]));
        }
    }
    assert(binary(ands, val));
    lemma_all_off_of_binary(ands, val);
    lemma_alternating_is_product(ands, ands.len(), val);
    lemma_signed_sum_up_to(ands, ands.len(), val);
    let expected: int = carried(cast, t);
    assert(signed_sum(chosen, val) == expected) by {
        if exists|k: int| 0 <= k < ands.len() && val(#[trigger] ands[k]) == 1 {
            let k: int = choose|k: int| 0 <= k < ands.len() && val(#[trigger] ands[k]) == 1;
            assert(all_on(groups[k], val));
        } else {
            if exists|i: int| 0 <= i < groups.len() && all_on(#[trigger] groups[i], val) {
                let i: int = choose|i: int| 0 <= i < groups.len() && all_on(#[trigger] groups[i], val);
                assert(val(ands[i]) == 1);
            }
        }
    }
    lemma_total_of_terms(arena, terms, chosen, minus_one, inputs, m);
    lemma_sum_value(arena, root, terms, inputs, m);
    let value: int = gate_value(arena, inputs, root, m);
    assert(value % m == expected % m);
    lemma_small_mod(expected as nat, m as nat);
    // the value is normalized
    lemma_choices_exist(voters, t);
    if terms.len() == 1 {
        lemma_first_of_subsets(ands, ands.len());
        lemma_scaled_value(arena, terms[0], chosen[0], minus_one, inputs, m);
        if chosen[0].len() == 1 {
            assert(ands.contains(chosen[0][0]));
            let at: int = choose|at: int| 0 <= at < ands.len() && ands[at] == chosen[0][0];
            assert(val(ands[at]) == 0 || val(ands[at]) == 1);
        }
    }
    lemma_small_mod(value as nat, m as nat);
}

/// The circuit of a vote of `number_of_voters` voters on
/// `number_of_options` options: the voter `i` gives, as its input for the
/// option `o`, one if it chooses the option and zero if not, and the output
/// `o` is one when at least `vote_threshold` voters chose the option, and
/// zero when fewer did. Every output is built as the formula of inclusion and
/// exclusion over all the ways to choose `vote_threshold` of the voters.
#[verifier::spinoff_prover]
#[verifier::rlimit(50)]
pub fn generate_circuit(
    number_of_voters: usize,
    vote_threshold: usize,
    number_of_options: usize,
    group_order: u16,
) -> (circuit: Circuit<u16>)
    requires
        1 <= vote_threshold <= number_of_voters <= u16::MAX,
        group_order >= 1,
    ensures
        circuit.wf(),
        circuit.parties() == number_of_voters,
        circuit.roots().len() == number_of_options,
        inputs_named(circuit.arena(), number_of_voters as nat, number_of_options as nat),
        group_order >= 2 ==> forall|inputs: Seq<Seq<int>>, option: int|
            0 <= option < number_of_options && valid_votes(
                votes(inputs, option, number_of_voters as nat),
            ) ==> #[trigger] gate_value(
                circuit.arena(),
                inputs,
                circuit.roots()[option],
                group_order as int,
            ) == carried(votes(inputs, option, number_of_voters as nat), vote_threshold as nat),
{
    let minus_one: u16 = group_order - 1;
    let ghost m: int = group_order as int;
    let ghost n: nat = number_of_voters as nat;
    let ghost t: nat = vote_threshold as nat;
    let mut circuit: Circuit<u16> = Circuit::new(number_of_voters as u16);
    let mut roots: Vec<usize> = Vec::new();
    let mut option_id: usize = 0;
    while option_id < number_of_options
        invariant
            option_id <= number_of_options,
            1 <= vote_threshold <= number_of_voters <= u16::MAX,
            group_order >= 1,
            minus_one == group_order - 1,
            m == group_order,
            n == number_of_voters,
            t == vote_threshold,
            operands_precede(circuit.arena()),
            circuit.parties() == number_of_voters,
            roots.len() == option_id,
            forall|o: int| 0 <= o < roots.len() ==> #[trigger] roots[o] < circuit.arena().len(),
            inputs_named(circuit.arena(), n, number_of_options as nat),
            group_order >= 2 ==> forall|inputs: Seq<Seq<int>>, option: int|
                0 <= option < roots.len() && valid_votes(votes(inputs, option, n))
                    ==> #[trigger] gate_value(circuit.arena(), inputs, roots@[option], m) == carried(
                    votes(inputs, option, n),
                    t,
                ),
        decreases number_of_options - option_id,
    {
        let ghost start: Seq<Gate<u16>> = circuit.arena();
        let voters: Vec<usize> = add_inputs(&mut circuit, number_of_voters, option_id);
        let ghost with_inputs: Seq<Gate<u16>> = circuit.arena();
        let last_and_gates: Vec<usize> = add_products(&mut circuit, &voters, vote_threshold, None);
        let ghost with_ands: Seq<Gate<u16>> = circuit.arena();
        let mut mul_last_gates: Vec<usize> = Vec::new();
        let ghost mut chosen: Seq<Seq<usize>> = Seq::empty();
        let mut l: usize = 0;
        while l < last_and_gates.len()
            invariant
                l <= last_and_gates.len(),
                operands_precede(circuit.arena()),
                grown_from(circuit.arena(), with_ands),
                circuit.parties() == number_of_voters,
                forall|k: int| 0 <= k < last_and_gates.len() ==> last_and_gates[k] < with_ands.len(),
                chosen == subsets_up_to(last_and_gates@, l as nat),
                mul_last_gates.len() == chosen.len(),
                forall|j: int|
                    0 <= j < mul_last_gates.len() ==> (#[trigger] mul_last_gates[j])
                        < circuit.arena().len() && is_scaled_product(
                        circuit.arena(),
                        mul_last_gates[j],
                        chosen[j],
                        factor_of(chosen[j].len(), minus_one),
                    ),
                forall|g: int|
                    with_ands.len() <= g < circuit.arena().len() ==> !(
                    #[trigger] circuit.arena()[g] is Input),
            decreases last_and_gates.len() - l,
        {
            l = l + 1;
            let ghost before: Seq<Gate<u16>> = circuit.arena();
            let factor: Option<u16> = if l % 2 == 0 {
                Some(minus_one)
            } else {
                None
            };
            let mut products: Vec<usize> = add_products(&mut circuit, &last_and_gates, l, factor);
            proof {
                let after: Seq<Gate<u16>> = circuit.arena();
                let more: Seq<Seq<usize>> = choices(last_and_gates@, l as nat);
                assert forall|j: int| 0 <= j < mul_last_gates.len() implies (
                #[trigger] mul_last_gates[j]) < after.len() && is_scaled_product(
                    after,
                    mul_last_gates[j],
                    chosen[j],
                    factor_of(chosen[j].len(), minus_one),
                ) by {
                    lemma_scaled_product_of_prefix(
                        before,
                        after,
                        mul_last_gates[j],
                        chosen[j],
                        factor_of(chosen[j].len(), minus_one),
                    );
                }
                assert forall|j: int| 0 <= j < products.len() implies factor_of(
                    (#[trigger] more[j]).len(),
                    minus_one,
                ) == factor by {
                    lemma_choices_hold_items(last_and_gates@, l as nat, j);
                }
                assert forall|g: int| with_ands.len() <= g < after.len() implies !(
                #[trigger] after[g] is Input) by {
                    if g < before.len() {
                        assert(after[g] == before[g]);
                    }
                }
                chosen = chosen + more;
                assert forall|j: int| 0 <= j < (mul_last_gates@ + products@).len() implies (
                #[trigger] (mul_last_gates@ + products@)[j]) < after.len() && is_scaled_product(
                    after,
                    (mul_last_gates@ + products@)[j],
                    chosen[j],
                    factor_of(chosen[j].len(), minus_one),
                ) by {
                    if j >= mul_last_gates.len() {
                        let i: int = j - mul_last_gates.len();
                        assert((mul_last_gates@ + products@)[j] == products[i]);
                        assert(chosen[j] == more[i]);
                    }
                }
            }
            mul_last_gates.append(&mut products);
        }
        proof {
            lemma_choices_exist(voters@, t);
            lemma_subsets_exist(last_and_gates@, last_and_gates.len() as nat);
        }
        let ghost with_terms: Seq<Gate<u16>> = circuit.arena();
        let root: usize = sum_chain(&mut circuit, &mul_last_gates);
        let ghost previous: Seq<usize> = roots@;
        roots.push(root);
        proof {
            let arena: Seq<Gate<u16>> = circuit.arena();
            assert(grown_from(arena, with_ands));
            assert(grown_from(arena, with_inputs));
            assert(grown_from(arena, start));
            assert forall|g: int| 0 <= g < arena.len() implies (#[trigger] arena[g] matches Gate::Input {
                party,
                circuit_id,
                ..
            } ==> party < n && circuit_id < number_of_options) by {
                if g < with_inputs.len() {
                    assert(arena[g] == with_inputs[g]);
                }
            }
            if group_order >= 2 {
                assert forall|inputs: Seq<Seq<int>>, option: int|
                    0 <= option < roots.len() && valid_votes(
                        votes(inputs, option, n),
                    ) implies #[trigger] gate_value(arena, inputs, roots@[option], m) == carried(
                    votes(inputs, option, n),
                    t,
                ) by {
                    if option < previous.len() {
                        assert(roots@[option] == previous[option]);
                        lemma_value_of_prefix(start, arena, inputs, previous[option], m);
                    } else {
                        assert forall|i: int| 0 <= i < voters@.len() implies (#[trigger] voters@[i])
                            < arena.len() && arena[voters@[i] as int] == (Gate::<u16>::Input {
                            party: i as usize,
                            circuit_id: option as usize,
                            output: None,
                        }) by {
                            assert(arena[voters@[i] as int] == with_inputs[voters@[i] as int]);
                        }
                        assert forall|k: int| 0 <= k < last_and_gates@.len() implies is_product_of(
                            arena,
                            #[trigger] last_and_gates@[k],
                            choices(voters@, t)[k],
                        ) by {
                            lemma_product_of_prefix(
                                with_ands,
                                arena,
                                last_and_gates@[k],
                                choices(voters@, t)[k],
                            );
                        }
                        assert forall|j: int| 0 <= j < mul_last_gates@.len() implies is_scaled_product(
                            arena,
                            #[trigger] mul_last_gates@[j],
                            chosen[j],
                            factor_of(chosen[j].len(), minus_one),
                        ) by {
                            lemma_scaled_product_of_prefix(
                                with_terms,
                                arena,
                                mul_last_gates@[j],
                                chosen[j],
                                factor_of(chosen[j].len(), minus_one),
                            );
                        }
                        lemma_option_value(
                            arena,
                            voters@,
                            last_and_gates@,
                            chosen,
                            mul_last_gates@,
                            root,
                            minus_one,
                            inputs,
                            option,
                            t,
                            m,
                        );
                    }
                }
            }
        }
        option_id = option_id + 1;
    }
    circuit.set_roots(roots);
    circuit
}

/// There is a choice of one or more of at least one item.
proof fn lemma_subsets_exist(items: Seq<usize>, top: nat)
    requires
        1 <= top <= items.len(),
    ensures
        subsets_up_to(items, top).len() >= 1,
    decreases top,
{
    lemma_choices_exist(items, top);
}

/// Appends the input gates of the voters for an option, and returns their
/// places.
fn add_inputs(circuit: &mut Circuit<u16>, number_of_voters: usize, option_id: usize) -> (voters:
    Vec<usize>)
    requires
        operands_precede(old(circuit).arena()),
    ensures
        grown_from(final(circuit).arena(), old(circuit).arena()),
        operands_precede(final(circuit).arena()),
        final(circuit).arena().len() == old(circuit).arena().len() + number_of_voters,
        voters.len() == number_of_voters,
        forall|i: int|
            0 <= i < number_of_voters ==> (#[trigger] voters[i]) < final(circuit).arena().len()
                && final(circuit).arena()[voters[i] as int] == (Gate::<u16>::Input {
                party: i as usize,
                circuit_id: option_id,
                output: None,
            }),
        forall|g: int|
            old(circuit).arena().len() <= g < final(circuit).arena().len() ==> (
            #[trigger] final(circuit).arena()[g] matches Gate::Input { party, circuit_id, .. } && party
                < number_of_voters && circuit_id == option_id),
        final(circuit).roots() == old(circuit).roots(),
        final(circuit).parties() == old(circuit).parties(),
{
    let mut voters: Vec<usize> = Vec::new();
    let mut i: usize = 0;
    while i < number_of_voters
        invariant
            i <= number_of_voters,
            grown_from(circuit.arena(), old(circuit).arena()),
            operands_precede(circuit.arena()),
            circuit.arena().len() == old(circuit).arena().len() + i,
            voters.len() == i,
            forall|j: int|
                0 <= j < i ==> (#[trigger] voters[j]) < circuit.arena().len() && circuit.arena()[voters[j] as int]
                    == (Gate::<u16>::Input { party: j as usize, circuit_id: option_id, output: None }),
            forall|g: int|
                old(circuit).arena().len() <= g < circuit.arena().len() ==> (
                #[trigger] circuit.arena()[g] matches Gate::Input { party, circuit_id, .. } && party
                    < number_of_voters && circuit_id == option_id),
            circuit.roots() == old(circuit).roots(),
            circuit.parties() == old(circuit).parties(),
        decreases number_of_voters - i,
    {
        let ghost before: Seq<Gate<u16>> = circuit.arena();
        let at: usize = circuit.add(Gate::new_input(i, option_id));
        proof {
            let after: Seq<Gate<u16>> = circuit.arena();
            assert forall|k: int| 0 <= k < after.len() implies {
                &&& ((#[trigger] after[k]).first_operand() matches Some(a) ==> a < k)
                &&& (after[k].second_operand() matches Some(b) ==> b < k)
            } by {
                if k < before.len() {
                    assert(after[k] == before[k]);
                }
            }
            assert forall|j: int| 0 <= j < i implies (#[trigger] voters[j]) < after.len()
                && after[voters[j] as int] == (Gate::<u16>::Input {
                party: j as usize,
                circuit_id: option_id,
                output: None,
            }) by {
                assert(after[voters[j] as int] == before[voters[j] as int]);
            }
            assert forall|g: int| old(circuit).arena().len() <= g < after.len() implies (
            #[trigger] after[g] matches Gate::Input { party, circuit_id, .. } && party
                < number_of_voters && circuit_id == option_id) by {
                if g < before.len() {
                    assert(after[g] == before[g]);
                }
            }
        }
        voters.push(at);
        i = i + 1;
    }
    voters
}

} // verus!
