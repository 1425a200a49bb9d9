//! Arithmetic circuits: an arena of gates, the gates that carry the outputs,
//! and the order in which the gates are evaluated.

use crate::field::add_mod;
use crate::field::Field;
use crate::field::FieldElement;
use crate::field::mul_mod;
use crate::gate::Gate;
use crate::polynomial::values;
use vstd::prelude::*;
use vstd::seq_lib::lemma_seq_contains_after_push;

verus! {

/// Every operand of a gate stands earlier in the arena than that gate.
pub open spec fn operands_precede<DataType: Copy>(gates: Seq<Gate<DataType>>) -> bool {
    forall|i: int|
        0 <= i < gates.len() ==> {
            &&& ((#[trigger] gates[i]).first_operand() matches Some(a) ==> a < i)
            &&& (gates[i].second_operand() matches Some(b) ==> b < i)
        }
}

/// The sequence `done`, followed by the gates that `gate` depends on and that
/// `done` does not hold yet, each after its own operands, and by `gate`
/// itself: a depth-first walk in post-order.
pub open spec fn visit<DataType: Copy>(
    gates: Seq<Gate<DataType>>,
    gate: usize,
    done: Seq<usize>,
) -> Seq<usize>
    decreases gate,
{
    if done.contains(gate) || gate >= gates.len() {
        done
    } else {
        let first = gates[gate as int].first_operand();
        let second = gates[gate as int].second_operand();
        let after_first = if first is Some && first->0 < gate {
            visit(gates, first->0, done)
        } else {
            done
        };
        let after_second = if second is Some && second->0 < gate {
            visit(gates, second->0, after_first)
        } else {
            after_first
        };
        after_second.push(gate)
    }
}

/// The walk from each of the first `count` roots in turn, none of them
/// visiting a gate again.
pub open spec fn visit_roots<DataType: Copy>(
    gates: Seq<Gate<DataType>>,
    roots: Seq<usize>,
    count: nat,
) -> Seq<usize>
    decreases count,
{
    if count == 0 {
        Seq::empty()
    } else {
        visit(gates, roots[count - 1], visit_roots(gates, roots, (count - 1) as nat))
    }
}

/// Whether `gate` stands in `order` before the position `p`.
pub open spec fn occurs_before(order: Seq<usize>, gate: usize, p: int) -> bool {
    exists|q: int| 0 <= q < p && q < order.len() && order[q] == gate
}

/// Whether the operands of what stands at position `p` of `order` stand before
/// it in `order`.
pub open spec fn placed_after_operands<DataType: Copy>(
    gates: Seq<Gate<DataType>>,
    order: Seq<usize>,
    p: int,
) -> bool {
    let gate = gates[order[p] as int];
    &&& (gate.first_operand() matches Some(a) ==> occurs_before(order, a, p))
    &&& (gate.second_operand() matches Some(b) ==> occurs_before(order, b, p))
}

/// `order` lists gates of the arena, none of them twice and each after its
/// operands.
pub open spec fn dependency_ordered<DataType: Copy>(
    gates: Seq<Gate<DataType>>,
    order: Seq<usize>,
) -> bool {
    &&& order.no_duplicates()
    &&& forall|p: int| 0 <= p < order.len() ==> #[trigger] order[p] < gates.len()
    &&& forall|p: int| 0 <= p < order.len() ==> #[trigger] placed_after_operands(gates, order, p)
}

/// A walk from `gate` keeps what was visited before, adds `gate` and only
/// gates up to `gate`, and keeps the sequence in dependency order.
pub proof fn lemma_visit_ordered<DataType: Copy>(
    gates: Seq<Gate<DataType>>,
    gate: usize,
    done: Seq<usize>,
)
    requires
        operands_precede(gates),
        dependency_ordered(gates, done),
        gate < gates.len(),
    ensures
        dependency_ordered(gates, visit(gates, gate, done)),
        done.is_prefix_of(visit(gates, gate, done)),
        visit(gates, gate, done).contains(gate),
        forall|t: usize| visit(gates, gate, done).contains(t) && !done.contains(t) ==> t <= gate,
    decreases gate,
{
    if done.contains(gate) {
        return ;
    }
    let first = gates[gate as int].first_operand();
    let second = gates[gate as int].second_operand();
    let after_first = if first is Some && first->0 < gate {
        visit(gates, first->0, done)
    } else {
        done
    };
    let after_second = if second is Some && second->0 < gate {
        visit(gates, second->0, after_first)
    } else {
        after_first
    };
    let all = after_second.push(gate);
    assert(all == visit(gates, gate, done));
    if first is Some {
        lemma_visit_ordered(gates, first->0, done);
    }
    if second is Some {
        lemma_visit_ordered(gates, second->0, after_first);
    }
    assert(done.is_prefix_of(after_first));
    assert(after_first.is_prefix_of(after_second));
    assert(done.is_prefix_of(all));
    assert(all[after_second.len() as int] == gate);
    assert forall|t: usize| all.contains(t) && !done.contains(t) implies t <= gate by {
        lemma_seq_contains_after_push(after_second, gate, t);
    }
    assert(!after_second.contains(gate));
    assert(all.no_duplicates()) by {
        assert forall|i: int, j: int| 0 <= i < all.len() && 0 <= j < all.len() && i != j implies all[i]
            != all[j] by {
            if i < after_second.len() && j < after_second.len() {
            } else if i < after_second.len() {
                assert(after_second.contains(all[i]));
            } else {
                assert(after_second.contains(all[j]));
            }
        }
    }
    assert forall|p: int| 0 <= p < all.len() implies #[trigger] placed_after_operands(gates, all, p) by {
        if p < after_second.len() {
            assert(placed_after_operands(gates, after_second, p));
            assert(all[p] == after_second[p]);
            let g = gates[all[p] as int];
            if g.first_operand() is Some {
                let q = choose|q: int|
                    0 <= q < p && q < after_second.len() && after_second[q] == g.first_operand()->0;
                assert(all[q] == g.first_operand()->0);
            }
            if g.second_operand() is Some {
                let q = choose|q: int|
                    0 <= q < p && q < after_second.len() && after_second[q] == g.second_operand()->0;
                assert(all[q] == g.second_operand()->0);
            }
        } else {
            if first is Some {
                assert(after_first.contains(first->0));
                let q = choose|q: int| 0 <= q < after_first.len() && after_first[q] == first->0;
                assert(all[q] == first->0);
            }
            if second is Some {
                assert(after_second.contains(second->0));
                let q = choose|q: int| 0 <= q < after_second.len() && after_second[q] == second->0;
                assert(all[q] == second->0);
            }
        }
    }
}

/// The walk from the first `count` roots is in dependency order.
pub proof fn lemma_visit_roots_ordered<DataType: Copy>(
    gates: Seq<Gate<DataType>>,
    roots: Seq<usize>,
    count: nat,
)
    requires
        operands_precede(gates),
        count <= roots.len(),
        forall|k: int| 0 <= k < roots.len() ==> #[trigger] roots[k] < gates.len(),
    ensures
        dependency_ordered(gates, visit_roots(gates, roots, count)),
        forall|k: int| 0 <= k < count ==> visit_roots(gates, roots, count).contains(#[trigger] roots[k]),
    decreases count,
{
    if count > 0 {
        let before = visit_roots(gates, roots, (count - 1) as nat);
        lemma_visit_roots_ordered(gates, roots, (count - 1) as nat);
        lemma_visit_ordered(gates, roots[count - 1], before);
        let all = visit_roots(gates, roots, count);
        assert forall|k: int| 0 <= k < count implies all.contains(#[trigger] roots[k]) by {
            if k < count - 1 {
                let q = choose|q: int| 0 <= q < before.len() && before[q] == roots[k];
                assert(all[q] == roots[k]);
            }
        }
    }
}

/// Two arenas hold gates with the same operands, whatever their outputs.
pub open spec fn same_shape<DataType: Copy>(
    gates: Seq<Gate<DataType>>,
    other: Seq<Gate<DataType>>,
) -> bool {
    &&& gates.len() == other.len()
    &&& forall|i: int|
        0 <= i < gates.len() ==> (#[trigger] gates[i]).with_output(None) == other[i].with_output(None)
}

/// A walk looks at the operands of the gates only: filling outputs does not
/// change it.
pub proof fn lemma_visit_same_shape<DataType: Copy>(
    gates: Seq<Gate<DataType>>,
    other: Seq<Gate<DataType>>,
    gate: usize,
    done: Seq<usize>,
)
    requires
        same_shape(gates, other),
    ensures
        visit(gates, gate, done) == visit(other, gate, done),
    decreases gate,
{
    if !done.contains(gate) && gate < gates.len() {
        let g = gates[gate as int];
        let h = other[gate as int];
        assert(g.with_output(None) == h.with_output(None));
        assert(g.first_operand() == h.first_operand());
        assert(g.second_operand() == h.second_operand());
        let first = g.first_operand();
        let second = g.second_operand();
        let after_first = if first is Some && first->0 < gate {
            visit(gates, first->0, done)
        } else {
            done
        };
        if first is Some && first->0 < gate {
            lemma_visit_same_shape(gates, other, first->0, done);
        }
        if second is Some && second->0 < gate {
            lemma_visit_same_shape(gates, other, second->0, after_first);
        }
    }
}

/// The walk from the roots looks at the operands of the gates only.
pub proof fn lemma_visit_roots_same_shape<DataType: Copy>(
    gates: Seq<Gate<DataType>>,
    other: Seq<Gate<DataType>>,
    roots: Seq<usize>,
    count: nat,
)
    requires
        same_shape(gates, other),
    ensures
        visit_roots(gates, roots, count) == visit_roots(other, roots, count),
    decreases count,
{
    if count > 0 {
        lemma_visit_roots_same_shape(gates, other, roots, (count - 1) as nat);
        lemma_visit_same_shape(
            gates,
            other,
            roots[count - 1],
            visit_roots(gates, roots, (count - 1) as nat),
        );
    }
}

/// Whether `gate` depends on `target`: it is `target`, or one of its operands
/// depends on it.
pub open spec fn depends_on<DataType: Copy>(
    gates: Seq<Gate<DataType>>,
    gate: usize,
    target: usize,
) -> bool
    decreases gate,
{
    gate == target || (gate < gates.len() && {
        let first = gates[gate as int].first_operand();
        let second = gates[gate as int].second_operand();
        ||| (first is Some && first->0 < gate && depends_on(gates, first->0, target))
        ||| (second is Some && second->0 < gate && depends_on(gates, second->0, target))
    })
}

/// With every gate of `done`, `done` holds what that gate depends on.
pub open spec fn holds_dependencies<DataType: Copy>(
    gates: Seq<Gate<DataType>>,
    done: Seq<usize>,
) -> bool {
    forall|t: usize, u: usize|
        done.contains(t) && #[trigger] depends_on(gates, t, u) ==> done.contains(u)
}

/// A walk from `gate` adds exactly what `gate` depends on.
pub proof fn lemma_visit_reaches<DataType: Copy>(
    gates: Seq<Gate<DataType>>,
    gate: usize,
    done: Seq<usize>,
)
    requires
        operands_precede(gates),
        holds_dependencies(gates, done),
        gate < gates.len(),
    ensures
        holds_dependencies(gates, visit(gates, gate, done)),
        forall|u: usize|
            visit(gates, gate, done).contains(u) <==> done.contains(u) || depends_on(gates, gate, u),
    decreases gate,
{
    let all = visit(gates, gate, done);
    if done.contains(gate) {
        assert forall|u: usize| all.contains(u) <==> done.contains(u) || depends_on(
            gates,
            gate,
            u,
        ) by {
            if depends_on(gates, gate, u) {
                assert(done.contains(u));
            }
        }
        return ;
    }
    let first = gates[gate as int].first_operand();
    let second = gates[gate as int].second_operand();
    let after_first = if first is Some && first->0 < gate {
        visit(gates, first->0, done)
    } else {
        done
    };
    let after_second = if second is Some && second->0 < gate {
        visit(gates, second->0, after_first)
    } else {
        after_first
    };
    assert(all == after_second.push(gate));
    if first is Some {
        lemma_visit_reaches(gates, first->0, done);
    }
    if second is Some {
        lemma_visit_reaches(gates, second->0, after_first);
    }
    assert forall|u: usize| all.contains(u) <==> done.contains(u) || depends_on(gates, gate, u) by {
        lemma_seq_contains_after_push(after_second, gate, u);
    }
    assert forall|t: usize, u: usize| all.contains(t) && #[trigger] depends_on(
        gates,
        t,
        u,
    ) implies all.contains(u) by {
        lemma_seq_contains_after_push(after_second, gate, t);
        lemma_seq_contains_after_push(after_second, gate, u);
        if after_second.contains(t) {
            assert(after_second.contains(u));
        }
    }
}

/// The walk from the first `count` roots holds exactly what those roots
/// depend on.
pub proof fn lemma_visit_roots_reaches<DataType: Copy>(
    gates: Seq<Gate<DataType>>,
    roots: Seq<usize>,
    count: nat,
)
    requires
        operands_precede(gates),
        count <= roots.len(),
        forall|k: int| 0 <= k < roots.len() ==> #[trigger] roots[k] < gates.len(),
    ensures
        holds_dependencies(gates, visit_roots(gates, roots, count)),
        forall|u: usize|
            visit_roots(gates, roots, count).contains(u) <==> exists|k: int|
                0 <= k < count && depends_on(gates, #[trigger] roots[k], u),
    decreases count,
{
    let all = visit_roots(gates, roots, count);
    if count > 0 {
        let before = visit_roots(gates, roots, (count - 1) as nat);
        lemma_visit_roots_reaches(gates, roots, (count - 1) as nat);
        lemma_visit_reaches(gates, roots[count - 1], before);
        assert forall|u: usize| all.contains(u) <==> exists|k: int|
            0 <= k < count && depends_on(gates, #[trigger] roots[k], u) by {
            if all.contains(u) {
                if before.contains(u) {
                    let k = choose|k: int| 0 <= k < count - 1 && depends_on(gates, #[trigger] roots[k], u);
                    assert(0 <= k < count && depends_on(gates, roots[k], u));
                } else {
                    assert(depends_on(gates, roots[count - 1], u));
                }
            }
            if exists|k: int| 0 <= k < count && depends_on(gates, #[trigger] roots[k], u) {
                let k = choose|k: int| 0 <= k < count && depends_on(gates, #[trigger] roots[k], u);
                if k < count - 1 {
                    assert(before.contains(u));
                }
            }
        }
    } else {
        assert forall|u: usize| all.contains(u) <==> exists|k: int|
            0 <= k < count && depends_on(gates, #[trigger] roots[k], u) by {}
    }
}

/// An arithmetic circuit for a number of parties.
pub struct Circuit<DataType> {
    gates: Vec<Gate<DataType>>,
    roots: Vec<usize>,
    n_parties: u16,
}

impl<DataType: Copy> Clone for Circuit<DataType> {
    fn clone(&self) -> (copy: Self)
        ensures
            copy.arena() == self.arena(),
            copy.roots() == self.roots(),
            copy.parties() == self.parties(),
    {
        let mut gates: Vec<Gate<DataType>> = Vec::new();
        let mut i: usize = 0;
        while i < self.gates.len()
            invariant
                i <= self.gates.len(),
                gates@ == self.gates@.subrange(0, i as int),
            decreases self.gates.len() - i,
        {
            gates.push(self.gates[i]);
            i = i + 1;
        }
        assert(self.gates@.subrange(0, self.gates.len() as int) == self.gates@);
        Circuit { gates, roots: self.roots.clone(), n_parties: self.n_parties }
    }
}

impl<DataType: Copy> Circuit<DataType> {
    /// The gates of the circuit, in the order in which they were added.
    pub closed spec fn arena(&self) -> Seq<Gate<DataType>> {
        self.gates@
    }

    /// The gates that carry the outputs of the circuit.
    pub closed spec fn roots(&self) -> Seq<usize> {
        self.roots@
    }

    /// The number of parties that the circuit is evaluated by.
    pub closed spec fn parties(&self) -> u16 {
        self.n_parties
    }

    /// Operands stand before the gates that use them, and every root is a
    /// gate of the circuit.
    pub open spec fn wf(&self) -> bool {
        &&& operands_precede(self.arena())
        &&& forall|k: int| 0 <= k < self.roots().len() ==> #[trigger] self.roots()[k] < self.arena().len()
    }

    /// The order in which the gates are evaluated.
    pub open spec fn traversal(&self) -> Seq<usize> {
        visit_roots(self.arena(), self.roots(), self.roots().len())
    }

    /// The evaluation order holds every root and the gates they depend on,
    /// each exactly once and after its operands.
    pub proof fn lemma_traversal_ordered(&self)
        requires
            self.wf(),
        ensures
            dependency_ordered(self.arena(), self.traversal()),
            forall|k: int|
                0 <= k < self.roots().len() ==> self.traversal().contains(#[trigger] self.roots()[k]),
    {
        lemma_visit_roots_ordered(self.arena(), self.roots(), self.roots().len());
    }

    /// The evaluation order holds exactly the gates that a root depends on.
    pub proof fn lemma_traversal_reaches(&self)
        requires
            self.wf(),
        ensures
            forall|u: usize|
                self.traversal().contains(u) <==> exists|k: int|
                    0 <= k < self.roots().len() && depends_on(self.arena(), #[trigger] self.roots()[k], u),
    {
        lemma_visit_roots_reaches(self.arena(), self.roots(), self.roots().len());
    }

    pub fn new(n_parties: u16) -> (circuit: Self)
        ensures
            circuit.arena() == Seq::<Gate<DataType>>::empty(),
            circuit.roots() == Seq::<usize>::empty(),
            circuit.parties() == n_parties,
            circuit.wf(),
    {
        Circuit { gates: Vec::new(), roots: Vec::new(), n_parties }
    }

    pub fn set_roots(&mut self, gate_ids: Vec<usize>)
        ensures
            final(self).roots() == gate_ids@,
            final(self).arena() == old(self).arena(),
            final(self).parties() == old(self).parties(),
    {
        self.roots = gate_ids;
    }

    /// Appends a gate and returns its index.
    pub fn add(&mut self, gate: Gate<DataType>) -> (index: usize)
        ensures
            index == old(self).arena().len(),
            final(self).arena() == old(self).arena().push(gate),
            final(self).roots() == old(self).roots(),
            final(self).parties() == old(self).parties(),
    {
        self.gates.push(gate);
        self.gates.len() - 1
    }

    pub fn get_n_parties(&self) -> (n_parties: u16)
        ensures
            n_parties == self.parties(),
    {
        self.n_parties
    }

    pub fn get_roots(&self) -> (roots: Vec<usize>)
        ensures
            roots@ == self.roots(),
    {
        self.roots.clone()
    }

    /// The number of gates in the arena.
    pub fn size(&self) -> (size: usize)
        ensures
            size == self.arena().len(),
    {
        self.gates.len()
    }

    pub fn get_gate(&self, idx: usize) -> (gate: &Gate<DataType>)
        requires
            idx < self.arena().len(),
        ensures
            *gate == self.arena()[idx as int],
    {
        &self.gates[idx]
    }

    pub fn get_gate_mut(&mut self, idx: usize) -> (gate: &mut Gate<DataType>)
        requires
            idx < old(self).arena().len(),
        ensures
            *gate == old(self).arena()[idx as int],
            final(self).arena() == old(self).arena().update(idx as int, *final(gate)),
            final(self).roots() == old(self).roots(),
            final(self).parties() == old(self).parties(),
    {
        &mut self.gates[idx]
    }

    /// Whether operands stand before the gates that use them and every root is
    /// a gate of the circuit.
    pub fn is_well_formed(&self) -> (ok: bool)
        ensures
            ok == self.wf(),
    {
        let mut i: usize = 0;
        while i < self.gates.len()
            invariant
                i <= self.gates.len(),
                operands_precede(self.gates@.subrange(0, i as int)),
            decreases self.gates.len() - i,
        {
            let ok: bool = match self.gates[i] {
                Gate::Add { first, second, .. } => first < i && second < i,
                Gate::Mul { first, second, .. } => first < i && second < i,
                Gate::MulByConst { first, .. } => first < i,
                Gate::Input { .. } => true,
            };
            if !ok {
                assert(!operands_precede(self.gates@)) by {
                    let g = self.gates@[i as int];
                    assert(!((g.first_operand() matches Some(a) ==> a < i) && (g.second_operand()
                        matches Some(b) ==> b < i)));
                }
                return false;
            }
            proof {
                let next = self.gates@.subrange(0, i + 1);
                let prev = self.gates@.subrange(0, i as int);
                assert forall|j: int| 0 <= j < next.len() implies {
                    &&& ((#[trigger] next[j]).first_operand() matches Some(a) ==> a < j)
                    &&& (next[j].second_operand() matches Some(b) ==> b < j)
                } by {
                    if j < i {
                        assert(next[j] == prev[j]);
                        assert(prev[j].first_operand() matches Some(a) ==> a < j);
                    }
                }
            }
            i = i + 1;
        }
        assert(self.gates@.subrange(0, self.gates.len() as int) == self.gates@);
        let mut k: usize = 0;
        while k < self.roots.len()
            invariant
                k <= self.roots.len(),
                forall|j: int| 0 <= j < k ==> #[trigger] self.roots@[j] < self.gates.len(),
            decreases self.roots.len() - k,
        {
            if self.roots[k] >= self.gates.len() {
                assert(!(self.roots()[k as int] < self.arena().len()));
                return false;
            }
            k = k + 1;
        }
        true
    }

    /// The gates that the roots depend on, each exactly once and after its own
    /// operands: depth-first from every root in turn, in post-order.
    pub fn traverse(&self) -> (order: Vec<usize>)
        requires
            self.wf(),
        ensures
            order@ == self.traversal(),
    {
        let mut stack: Vec<usize> = Vec::new();
        let mut visited: Vec<bool> = Vec::new();
        let mut i: usize = 0;
        while i < self.gates.len()
            invariant
                i <= self.gates.len(),
                visited.len() == i,
                forall|j: int| 0 <= j < i ==> !visited[j],
            decreases self.gates.len() - i,
        {
            visited.push(false);
            i = i + 1;
        }
        let mut k: usize = 0;
        while k < self.roots.len()
            invariant
                k <= self.roots.len(),
                self.wf(),
                visited.len() == self.gates.len(),
                stack@ == visit_roots(self.gates@, self.roots@, k as nat),
                forall|j: usize| j < visited.len() ==> (visited@[j as int] <==> stack@.contains(j)),
            decreases self.roots.len() - k,
        {
            let root: usize = self.roots[k];
            assert(self.roots()[k as int] < self.arena().len());
            self.topological_sort(root, &mut visited, &mut stack);
            k = k + 1;
        }
        stack
    }

    /// Appends to `stack` the gates that `gate` depends on and that are not
    /// marked in `visited`, then `gate` itself, and marks them.
    fn topological_sort(&self, gate: usize, visited: &mut Vec<bool>, stack: &mut Vec<usize>)
        requires
            operands_precede(self.arena()),
            gate < self.arena().len(),
            old(visited).len() == self.arena().len(),
            forall|j: usize| j <= gate ==> (old(visited)@[j as int] <==> old(stack)@.contains(j)),
        ensures
            final(visited).len() == self.arena().len(),
            final(stack)@ == visit(self.arena(), gate, old(stack)@),
            forall|j: usize| j <= gate ==> (final(visited)@[j as int] <==> final(stack)@.contains(j)),
            forall|j: usize|
                gate < j < self.arena().len() ==> final(visited)@[j as int] == old(visited)@[j as int],
            forall|j: usize| gate < j ==> (final(stack)@.contains(j) <==> old(stack)@.contains(j)),
        decreases gate,
    {
        if visited[gate] {
            return ;
        }
        visited.set(gate, true);
        let ghost start: Seq<usize> = stack@;
        match self.gates[gate] {
            Gate::Add { first, second, .. } => {
                self.topological_sort(first, visited, stack);
                self.topological_sort(second, visited, stack);
            },
            Gate::Mul { first, second, .. } => {
                self.topological_sort(first, visited, stack);
                self.topological_sort(second, visited, stack);
            },
            Gate::MulByConst { first, .. } => {
                self.topological_sort(first, visited, stack);
            },
            Gate::Input { .. } => {},
        }
        proof {
            let before: Seq<usize> = stack@;
            assert forall|j: usize| true implies (before.push(gate).contains(j) <==> before.contains(
                j,
            ) || j == gate) by {
                lemma_seq_contains_after_push(before, gate, j);
            }
        }
        stack.push(gate);
    }
}

/// The value that a gate computes from the inputs of the parties, `inputs`
/// holding the inputs of each party by slot: an input gate has the input it
/// names, a sum the sum of its operands' values, a product their product,
/// all in the field of integers modulo `m`.
pub open spec fn gate_value<DataType: FieldElement>(
    gates: Seq<Gate<DataType>>,
    inputs: Seq<Seq<int>>,
    gate: usize,
    m: int,
) -> int
    decreases gate,
{
    if gate >= gates.len() {
        0
    } else {
        match gates[gate as int] {
            Gate::Input { party, circuit_id, .. } => inputs[party as int][circuit_id as int],
            Gate::Add { first, second, .. } => {
                if first < gate && second < gate {
                    add_mod(
                        gate_value(gates, inputs, first, m),
                        gate_value(gates, inputs, second, m),
                        m,
                    )
                } else {
                    0
                }
            },
            Gate::MulByConst { first, second, .. } => {
                if first < gate {
                    mul_mod(gate_value(gates, inputs, first, m), second.value(), m)
                } else {
                    0
                }
            },
            Gate::Mul { first, second, .. } => {
                if first < gate && second < gate {
                    mul_mod(
                        gate_value(gates, inputs, first, m),
                        gate_value(gates, inputs, second, m),
                        m,
                    )
                } else {
                    0
                }
            },
        }
    }
}

/// The numbers that the inputs of the parties stand for.
pub open spec fn input_values<DataType: FieldElement>(inputs: Seq<Vec<DataType>>) -> Seq<Seq<int>> {
    Seq::new(inputs.len(), |p: int| values(inputs[p]@))
}

/// Every input gate of `order` names an input that `inputs` holds.
pub open spec fn inputs_given<DataType: Copy>(
    gates: Seq<Gate<DataType>>,
    order: Seq<usize>,
    inputs: Seq<Seq<int>>,
) -> bool {
    forall|p: int|
        0 <= p < order.len() ==> (gates[#[trigger] order[p] as int] matches Gate::Input {
            party,
            circuit_id,
            ..
        } ==> party < inputs.len() && circuit_id < inputs[party as int].len())
}

/// The value of a gate rests on the operands of the gates only, not on the
/// outputs that they carry.
pub proof fn lemma_gate_value_same_shape<DataType: FieldElement>(
    gates: Seq<Gate<DataType>>,
    other: Seq<Gate<DataType>>,
    inputs: Seq<Seq<int>>,
    gate: usize,
    m: int,
)
    requires
        same_shape(gates, other),
    ensures
        gate_value(gates, inputs, gate, m) == gate_value(other, inputs, gate, m),
    decreases gate,
{
    if gate < gates.len() {
        let g = gates[gate as int];
        let h = other[gate as int];
        assert(g.with_output(None) == h.with_output(None));
        match g {
            Gate::Input { .. } => {},
            Gate::Add { first, second, .. } => {
                if first < gate && second < gate {
                    lemma_gate_value_same_shape(gates, other, inputs, first, m);
                    lemma_gate_value_same_shape(gates, other, inputs, second, m);
                }
            },
            Gate::MulByConst { first, .. } => {
                if first < gate {
                    lemma_gate_value_same_shape(gates, other, inputs, first, m);
                }
            },
            Gate::Mul { first, second, .. } => {
                if first < gate && second < gate {
                    lemma_gate_value_same_shape(gates, other, inputs, first, m);
                    lemma_gate_value_same_shape(gates, other, inputs, second, m);
                }
            },
        }
    }
}

/// Whether `placed` holds the gates of `gates` in another order: gate `i`
/// of `gates` stands at `place[i]` in `placed`, with its operands renamed
/// accordingly.
pub open spec fn rearranged<DataType: FieldElement>(
    gates: Seq<Gate<DataType>>,
    placed: Seq<Gate<DataType>>,
    place: Seq<usize>,
) -> bool {
    &&& place.len() == gates.len()
    &&& forall|i: int|
        0 <= i < gates.len() ==> {
            &&& (#[trigger] place[i]) < placed.len()
            &&& match gates[i] {
                Gate::Input { party, circuit_id, .. } => placed[place[i] as int] matches Gate::Input {
                    party: p,
                    circuit_id: c,
                    ..
                } && p == party && c == circuit_id,
                Gate::Add { first, second, .. } => placed[place[i] as int] matches Gate::Add {
                    first: a,
                    second: b,
                    ..
                } && first < i && second < i && a == place[first as int] && b == place[second as int],
                Gate::MulByConst { first, second, .. } => placed[place[i] as int] matches Gate::MulByConst {
                    first: a,
                    second: c,
                    ..
                } && first < i && a == place[first as int] && c == second,
                Gate::Mul { first, second, .. } => placed[place[i] as int] matches Gate::Mul {
                    first: a,
                    second: b,
                    ..
                } && first < i && second < i && a == place[first as int] && b == place[second as int],
            }
        }
}

/// The value of a gate does not depend on the order in which the gates were
/// added: in an arena that holds the same gates in another order, operands
/// still before the gates that use them, every gate has the value it had.
pub proof fn lemma_value_independent_of_insertion_order<DataType: FieldElement>(
    gates: Seq<Gate<DataType>>,
    placed: Seq<Gate<DataType>>,
    place: Seq<usize>,
    inputs: Seq<Seq<int>>,
    gate: usize,
    m: int,
)
    requires
        operands_precede(gates),
        operands_precede(placed),
        rearranged(gates, placed, place),
        gate < gates.len(),
    ensures
        gate_value(placed, inputs, place[gate as int], m) == gate_value(gates, inputs, gate, m),
    decreases gate,
{
    let g = gates[gate as int];
    let at: usize = place[gate as int];
    let h = placed[at as int];
    assert(h.first_operand() matches Some(a) ==> a < at);
    assert(h.second_operand() matches Some(b) ==> b < at);
    match g {
        Gate::Input { .. } => {},
        Gate::Add { first, second, .. } => {
            lemma_value_independent_of_insertion_order(gates, placed, place, inputs, first, m);
            lemma_value_independent_of_insertion_order(gates, placed, place, inputs, second, m);
        },
        Gate::MulByConst { first, .. } => {
            lemma_value_independent_of_insertion_order(gates, placed, place, inputs, first, m);
        },
        Gate::Mul { first, second, .. } => {
            lemma_value_independent_of_insertion_order(gates, placed, place, inputs, first, m);
            lemma_value_independent_of_insertion_order(gates, placed, place, inputs, second, m);
        },
    }
}

impl<DataType: FieldElement> Circuit<DataType> {
    /// Whether `inputs` holds every input that the gates of the evaluation
    /// order name.
    pub fn takes(&self, inputs: &Vec<Vec<DataType>>) -> (ok: bool)
        requires
            self.wf(),
        ensures
            ok == inputs_given(self.arena(), self.traversal(), input_values(inputs@)),
    {
        let order: Vec<usize> = self.traverse();
        let ghost given: Seq<Seq<int>> = input_values(inputs@);
        proof {
            self.lemma_traversal_ordered();
        }
        let mut p: usize = 0;
        while p < order.len()
            invariant
                p <= order.len(),
                order@ == self.traversal(),
                given == input_values(inputs@),
                dependency_ordered(self.arena(), order@),
                inputs_given(self.arena(), order@.take(p as int), given),
            decreases order.len() - p,
        {
            let gate_id: usize = order[p];
            assert(order@[p as int] < self.arena().len());
            let ok: bool = match self.get_gate(gate_id) {
                Gate::Input { party, circuit_id, .. } => *party < inputs.len() && *circuit_id
                    < inputs[*party].len(),
                _ => true,
            };
            if !ok {
                assert(!inputs_given(self.arena(), order@, given)) by {
                    let at: usize = order@[p as int];
                }
                return false;
            }
            proof {
                let before = order@.take(p as int);
                let after = order@.take(p + 1);
                assert forall|q: int| 0 <= q < after.len() implies (self.arena()[#[trigger] after[q] as int] matches Gate::Input {
                    party,
                    circuit_id,
                    ..
                } ==> party < given.len() && circuit_id < given[party as int].len()) by {
                    if q < p {
                        assert(after[q] == before[q]);
                    }
                }
            }
            p = p + 1;
        }
        assert(order@.take(order.len() as int) == order@);
        true
    }

    /// Evaluates the circuit in the clear on the inputs of the parties, gate
    /// by gate in the order of the traversal, fills the outputs of the gates
    /// and returns those of the roots: each is the value of its gate,
    /// whatever the order of the traversal.
    #[verifier::spinoff_prover]
    #[verifier::rlimit(50)]
    pub fn evaluate(&mut self, field: &Field<DataType>, inputs: &Vec<Vec<DataType>>) -> (outputs:
        Vec<DataType>)
        requires
            old(self).wf(),
            field.wf(),
            inputs_given(old(self).arena(), old(self).traversal(), input_values(inputs@)),
        ensures
            final(self).roots() == old(self).roots(),
            final(self).parties() == old(self).parties(),
            same_shape(final(self).arena(), old(self).arena()),
            outputs.len() == old(self).roots().len(),
            forall|k: int|
                0 <= k < outputs.len() ==> (#[trigger] outputs[k]).value() == gate_value(
                    old(self).arena(),
                    input_values(inputs@),
                    old(self).roots()[k],
                    field.modulus(),
                ),
            forall|p: int|
                0 <= p < old(self).traversal().len() ==> (final(self).arena()[#[trigger] old(
                    self,
                ).traversal()[p] as int].output() matches Some(v) && v.value() == gate_value(
                    old(self).arena(),
                    input_values(inputs@),
                    old(self).traversal()[p],
                    field.modulus(),
                )),
    {
        let ghost start: Seq<Gate<DataType>> = self.arena();
        let ghost given: Seq<Seq<int>> = input_values(inputs@);
        let ghost m: int = field.modulus();
        let order: Vec<usize> = self.traverse();
        proof {
            self.lemma_traversal_ordered();
        }
        let mut pos: usize = 0;
        while pos < order.len()
            invariant
                pos <= order.len(),
                field.wf(),
                m == field.modulus(),
                given == input_values(inputs@),
                operands_precede(start),
                dependency_ordered(start, order@),
                inputs_given(start, order@, given),
                same_shape(self.arena(), start),
                self.roots() == old(self).roots(),
                self.parties() == old(self).parties(),
                forall|p: int|
                    0 <= p < pos ==> (self.arena()[#[trigger] order@[p] as int].output() matches Some(v)
                        && v.value() == gate_value(start, given, order@[p], m)),
            decreases order.len() - pos,
        {
            let gate_id: usize = order[pos];
            let ghost before: Seq<Gate<DataType>> = self.arena();
            proof {
                assert(order@[pos as int] < start.len());
                assert(placed_after_operands(start, order@, pos as int));
                assert(before[gate_id as int].with_output(None) == start[gate_id as int].with_output(
                    None,
                ));
                let g = start[gate_id as int];
                if g.first_operand() is Some {
                    let a: usize = g.first_operand()->0;
                    let q: int = choose|q: int| 0 <= q < pos && q < order@.len() && order@[q] == a;
                    assert(order@[q] < start.len());
                    assert(before[order@[q] as int].output() is Some);
                }
                if g.second_operand() is Some {
                    let b: usize = g.second_operand()->0;
                    let q: int = choose|q: int| 0 <= q < pos && q < order@.len() && order@[q] == b;
                    assert(order@[q] < start.len());
                    assert(before[order@[q] as int].output() is Some);
                }
            }
            let gate: Gate<DataType> = *self.get_gate(gate_id);
            let output: DataType = match gate {
                Gate::Input { party, circuit_id, .. } => {
                    assert(given[party as int][circuit_id as int] == inputs@[party as int]@[circuit_id as int].value());
                    inputs[party][circuit_id]
                },
                Gate::Add { first, second, .. } => {
                    field.add(self.get_gate(first).get_output(), self.get_gate(second).get_output())
                },
                Gate::MulByConst { first, second, .. } => {
                    field.mul(self.get_gate(first).get_output(), second)
                },
                Gate::Mul { first, second, .. } => {
                    field.mul(self.get_gate(first).get_output(), self.get_gate(second).get_output())
                },
            };
            self.get_gate_mut(gate_id).set_output(output);
            proof {
                let after: Seq<Gate<DataType>> = self.arena();
                assert(same_shape(after, start)) by {
                    assert forall|i: int| 0 <= i < after.len() implies (#[trigger] after[i]).with_output(
                        None,
                    ) == start[i].with_output(None) by {
                        assert(before[i].with_output(None) == start[i].with_output(None));
                    }
                }
                assert forall|p: int| 0 <= p < pos + 1 implies (after[#[trigger] order@[p] as int].output() matches Some(
                    v,
                ) && v.value() == gate_value(start, given, order@[p], m)) by {
                    if p < pos {
                        assert(order@[p] != order@[pos as int]);
                        assert(after[order@[p] as int] == before[order@[p] as int]);
                    }
                }
            }
            pos = pos + 1;
        }
        let mut outputs: Vec<DataType> = Vec::new();
        let mut k: usize = 0;
        while k < self.roots.len()
            invariant
                k <= self.roots.len(),
                outputs.len() == k,
                self.roots() == old(self).roots(),
                old(self).wf(),
                same_shape(self.arena(), start),
                start == old(self).arena(),
                order@ == old(self).traversal(),
                forall|k: int|
                    0 <= k < old(self).roots().len() ==> order@.contains(#[trigger] old(self).roots()[k]),
                forall|p: int|
                    0 <= p < order@.len() ==> (self.arena()[#[trigger] order@[p] as int].output() matches Some(
                        v,
                    ) && v.value() == gate_value(start, given, order@[p], m)),
                forall|j: int|
                    0 <= j < k ==> (#[trigger] outputs[j]).value() == gate_value(
                        start,
                        given,
                        old(self).roots()[j],
                        m,
                    ),
            decreases self.roots.len() - k,
        {
            let root: usize = self.roots[k];
            proof {
                assert(old(self).roots()[k as int] == root);
                assert(order@.contains(root));
                let p: int = choose|p: int| 0 <= p < order@.len() && order@[p] == root;
                assert(self.arena()[order@[p] as int].output() is Some);
                assert(root < start.len());
            }
            outputs.push(self.get_gate(root).get_output());
            k = k + 1;
        }
        outputs
    }
}

} // verus!
