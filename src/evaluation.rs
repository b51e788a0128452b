use vstd::prelude::*;

use crate::genotype::NodeType;
use crate::phenotype::{PhenoNodes, Phenotype, PhenotypeError};

verus! {

/// Where a node stands in one evaluation pass.
#[derive(Clone, Copy, PartialEq, Eq, Debug, Structural)]
pub enum Mark {
    Unresolved,
    InProgress,
    Resolved,
}

/// Whether the node at position `a` reads the value of the non-input node
/// at position `b` through one of its links. Input nodes are read from the
/// input vector and depend on nothing.
pub open spec fn depends(p: &Phenotype, a: int, b: int) -> bool {
    &&& 0 <= a < p.nodes@.len()
    &&& 0 <= b < p.nodes@.len()
    &&& p.nodes@[b].node_type != NodeType::Input
    &&& exists|e: int|
        0 <= e < p.nodes@[a].links@.len() && (#[trigger] p.nodes@[a].links@[e]).source_index == b
}

/// Whether `c` is a cycle of dependencies: each node depends on the next,
/// and the last on the first.
pub open spec fn is_cycle(p: &Phenotype, c: Seq<usize>) -> bool {
    &&& c.len() > 0
    &&& forall|i: int| 0 <= i < c.len() - 1 ==> depends(p, #[trigger] c[i] as int, c[i + 1] as int)
    &&& depends(p, c.last() as int, c[0] as int)
}

pub open spec fn has_cycle(p: &Phenotype) -> bool {
    exists|c: Seq<usize>| is_cycle(p, c)
}

/// Whether every non-input source of the node at `order[t]` stands before it in `order`.
pub open spec fn sources_before(p: &Phenotype, order: Seq<usize>, t: int) -> bool {
    forall|e: int|
        0 <= e < p.nodes@[order[t] as int].links@.len() ==> {
            let s = (#[trigger] p.nodes@[order[t] as int].links@[e]).source_index;
            p.nodes@[s as int].node_type == NodeType::Input || order.take(t).contains(s)
        }
}

/// Whether `order` lists distinct non-input nodes, each after the nodes it depends on.
pub open spec fn is_schedule(p: &Phenotype, order: Seq<usize>) -> bool {
    &&& order.no_duplicates()
    &&& forall|t: int|
        0 <= t < order.len() ==> (#[trigger] order[t]) < p.nodes@.len() && p.nodes@[order[t] as int].node_type
            != NodeType::Input
    &&& forall|t: int| 0 <= t < order.len() ==> #[trigger] sources_before(p, order, t)
}

/// Whether `order` is a schedule that resolves every output node.
pub open spec fn is_full_schedule(p: &Phenotype, order: Seq<usize>) -> bool {
    &&& is_schedule(p, order)
    &&& forall|k: int|
        0 <= k < p.nodes@.len() && (#[trigger] p.nodes@[k]).node_type == NodeType::Output ==> order.contains(
            k as usize,
        )
}

/// The number of nodes not yet reached in this pass.
pub open spec fn unresolved_count(marks: Seq<Mark>) -> nat
    decreases marks.len(),
{
    if marks.len() == 0 {
        0
    } else {
        unresolved_count(marks.drop_last()) + if marks.last() == Mark::Unresolved {
            1nat
        } else {
            0nat
        }
    }
}

proof fn lemma_unresolved_count_mono(a: Seq<Mark>, b: Seq<Mark>)
    requires
        a.len() == b.len(),
        forall|x: int| 0 <= x < a.len() && a[x] == Mark::Unresolved ==> b[x] == Mark::Unresolved,
    ensures
        unresolved_count(a) <= unresolved_count(b),
        (exists|x: int| 0 <= x < a.len() && a[x] != Mark::Unresolved && b[x] == Mark::Unresolved)
            ==> unresolved_count(a) < unresolved_count(b),
    decreases a.len(),
{
    if a.len() > 0 {
        lemma_unresolved_count_mono(a.drop_last(), b.drop_last());
        if exists|x: int| 0 <= x < a.len() && a[x] != Mark::Unresolved && b[x] == Mark::Unresolved {
            let x = choose|x: int| 0 <= x < a.len() && a[x] != Mark::Unresolved && b[x] == Mark::Unresolved;
            if x < a.len() - 1 {
                assert(a.drop_last()[x] != Mark::Unresolved && b.drop_last()[x] == Mark::Unresolved);
            }
        }
    }
}

/// The marks and the schedule agree: the resolved nodes are those scheduled.
pub open spec fn marks_match(p: &Phenotype, marks: Seq<Mark>, order: Seq<usize>) -> bool {
    &&& marks.len() == p.nodes@.len()
    &&& is_schedule(p, order)
    &&& forall|x: int| 0 <= x < marks.len() ==> (#[trigger] marks[x] == Mark::Resolved <==> order.contains(x as usize))
}

/// The nodes in progress are those of `stack`, each depending on the next.
pub open spec fn stack_matches(p: &Phenotype, marks: Seq<Mark>, stack: Seq<usize>) -> bool {
    &&& forall|x: int| 0 <= x < marks.len() ==> (#[trigger] marks[x] == Mark::InProgress <==> stack.contains(x as usize))
    &&& forall|i: int| 0 <= i < stack.len() - 1 ==> depends(p, #[trigger] stack[i] as int, stack[i + 1] as int)
}

proof fn lemma_schedule_push(p: &Phenotype, order: Seq<usize>, k: usize)
    requires
        is_schedule(p, order),
        !order.contains(k),
        k < p.nodes@.len(),
        p.nodes@[k as int].node_type != NodeType::Input,
        forall|e: int|
            0 <= e < p.nodes@[k as int].links@.len() ==> {
                let s = (#[trigger] p.nodes@[k as int].links@[e]).source_index;
                p.nodes@[s as int].node_type == NodeType::Input || order.contains(s)
            },
    ensures
        is_schedule(p, order.push(k)),
{
    let o2 = order.push(k);
    assert forall|t: int| 0 <= t < o2.len() implies #[trigger] sources_before(p, o2, t) by {
        if t < order.len() {
            assert(o2.take(t) =~= order.take(t));
            assert(sources_before(p, order, t));
        } else {
            assert(o2.take(t) =~= order);
        }
    }
    assert forall|i: int, j: int| 0 <= i < o2.len() && 0 <= j < o2.len() && i != j implies o2[i] != o2[j] by {
        if i < order.len() && j < order.len() {
        } else if i < order.len() {
            assert(order.contains(o2[i]));
        } else {
            assert(order.contains(o2[j]));
        }
    }
}

impl Phenotype {
    /// Resolves the node at position `k` and, before it, every node it
    /// depends on that is not resolved yet, appending each to `order` once.
    ///
    /// Fails when it meets a node that is still in progress: that node
    /// depends on itself.
    fn resolve(&self, k: usize, marks: &mut Vec<Mark>, order: &mut Vec<usize>, Ghost(stack): Ghost<Seq<usize>>) -> (r: Result<(), PhenotypeError>)
        requires
            self.wf(),
            k < self.nodes@.len(),
            self.nodes@[k as int].node_type != NodeType::Input,
            old(marks)@[k as int] == Mark::Unresolved,
            marks_match(self, old(marks)@, old(order)@),
            stack_matches(self, old(marks)@, stack),
            stack.len() > 0 ==> depends(self, stack.last() as int, k as int),
            stack.len() == 0 ==> self.nodes@[k as int].node_type == NodeType::Output,
            stack.len() > 0 ==> stack[0] < self.nodes@.len() && self.nodes@[stack[0] as int].node_type
                == NodeType::Output,
        ensures
            r is Err ==> r == Err::<(), _>(PhenotypeError::CyclicTopologyError) && has_cycle(self)
                && output_reaches_cycle(self),
            r is Ok ==> {
                &&& marks_match(self, final(marks)@, final(order)@)
                &&& final(marks)@[k as int] == Mark::Resolved
                &&& forall|x: int|
                    0 <= x < final(marks)@.len() ==> (#[trigger] final(marks)@[x] == Mark::InProgress
                        <==> old(marks)@[x] == Mark::InProgress)
                &&& forall|x: int|
                    0 <= x < final(marks)@.len() && #[trigger] final(marks)@[x] == Mark::Unresolved
                        ==> old(marks)@[x] == Mark::Unresolved
                &&& forall|x: int|
                    0 <= x < final(marks)@.len() && #[trigger] old(marks)@[x] == Mark::Resolved
                        ==> final(marks)@[x] == Mark::Resolved
            },
        decreases unresolved_count(old(marks)@),
    {
        let ghost m0 = marks@;
        marks.set(k, Mark::InProgress);
        let ghost inner = stack.push(k);
        proof {
            assert(self.nodes.len() == self.nodes@.len());
            lemma_unresolved_count_mono(marks@, m0);
            assert forall|x: int| 0 <= x < marks@.len() implies (#[trigger] marks@[x] == Mark::InProgress
                <==> inner.contains(x as usize)) by {
                if x == k {
                    assert(inner[inner.len() - 1] == k);
                } else if stack.contains(x as usize) {
                    let j = choose|j: int| 0 <= j < stack.len() && stack[j] == x as usize;
                    assert(inner[j] == x as usize);
                } else if inner.contains(x as usize) {
                    let j = choose|j: int| 0 <= j < inner.len() && inner[j] == x as usize;
                    if j == stack.len() {
                        assert(inner[j] == k);
                    }
                    assert(stack[j] == x as usize);
                }
            }
            assert forall|i: int| 0 <= i < inner.len() - 1 implies depends(self, #[trigger] inner[i] as int, inner[i + 1] as int) by {
                if i < stack.len() - 1 {
                    assert(inner[i] == stack[i] && inner[i + 1] == stack[i + 1]);
                }
            }
        }
        let n = self.nodes[k].links.len();
        let mut i: usize = 0;
        while i < n
            invariant
                self.wf(),
                k < self.nodes@.len(),
                n == self.nodes@[k as int].links@.len(),
                i <= n,
                marks@.len() == m0.len(),
                marks@[k as int] == Mark::InProgress,
                marks_match(self, marks@, order@),
                stack_matches(self, marks@, inner),
                inner.len() > 0 && inner.last() == k,
                inner[0] < self.nodes@.len() && self.nodes@[inner[0] as int].node_type == NodeType::Output,
                unresolved_count(marks@) < unresolved_count(m0),
                m0 == old(marks)@,
                forall|x: int| 0 <= x < marks@.len() && x != k ==> (#[trigger] marks@[x] == Mark::InProgress
                    <==> m0[x] == Mark::InProgress),
                forall|x: int|
                    0 <= x < marks@.len() && #[trigger] marks@[x] == Mark::Unresolved ==> m0[x] == Mark::Unresolved,
                forall|x: int| 0 <= x < marks@.len() && #[trigger] m0[x] == Mark::Resolved ==> marks@[x] == Mark::Resolved,
                forall|e: int|
                    0 <= e < i ==> {
                        let s = (#[trigger] self.nodes@[k as int].links@[e]).source_index;
                        self.nodes@[s as int].node_type == NodeType::Input || marks@[s as int] == Mark::Resolved
                    },
            decreases n - i,
        {
            let s = self.nodes[k].links[i].source_index;
            proof {
                assert(self.nodes@[k as int].links@[i as int].source_index == s);
            }
            if self.nodes[s].node_type != NodeType::Input {
                proof {
                    assert(depends(self, k as int, s as int));
                }
                if marks[s] == Mark::InProgress {
                    proof {
                        let j = choose|j: int| 0 <= j < inner.len() && inner[j] == s;
                        let c = inner.subrange(j, inner.len() as int);
                        assert(is_cycle(self, c)) by {
                            assert forall|x: int| 0 <= x < c.len() - 1 implies depends(self, #[trigger] c[x] as int, c[x + 1] as int) by {
                                assert(c[x] == inner[j + x] && c[x + 1] == inner[j + x + 1]);
                            }
                        }
                        let path = inner.take(j + 1);
                        assert forall|x: int| 0 <= x < path.len() - 1 implies depends(self, #[trigger] path[x] as int, path[x + 1] as int) by {
                            assert(path[x] == inner[x] && path[x + 1] == inner[x + 1]);
                        }
                        assert(path[0] == inner[0]);
                        assert(c[0] == s);
                        assert(is_path(self, path) && c.contains(path.last()));
                        assert(output_reaches_cycle(self));
                    }
                    return Err(PhenotypeError::CyclicTopologyError);
                }
                if marks[s] == Mark::Unresolved {
                    let ghost before = marks@;
                    assert(unresolved_count(marks@) < unresolved_count(m0));
                    let r = self.resolve(s, marks, order, Ghost(inner));
                    if r.is_err() {
                        return r;
                    }
                    proof {
                        assert forall|x: int| 0 <= x < marks@.len() && #[trigger] marks@[x] == Mark::Unresolved implies m0[x] == Mark::Unresolved by {
                            assert(before[x] == Mark::Unresolved);
                        }
                        assert forall|x: int| 0 <= x < marks@.len() implies (#[trigger] marks@[x] == Mark::InProgress
                            <==> inner.contains(x as usize)) by {
                            assert(marks@[x] == Mark::InProgress <==> before[x] == Mark::InProgress);
                        }
                        lemma_unresolved_count_mono(marks@, before);
                        assert forall|e: int| 0 <= e < i implies {
                            let s = (#[trigger] self.nodes@[k as int].links@[e]).source_index;
                            self.nodes@[s as int].node_type == NodeType::Input || marks@[s as int] == Mark::Resolved
                        } by {
                            let s2 = self.nodes@[k as int].links@[e].source_index;
                            if self.nodes@[s2 as int].node_type != NodeType::Input {
                                assert(before[s2 as int] == Mark::Resolved);
                            }
                        }
                    }
                }
            }
            i = i + 1;
        }
        let ghost m1 = marks@;
        proof {
            assert(!order@.contains(k));
            assert forall|e: int| 0 <= e < self.nodes@[k as int].links@.len() implies {
                let s = (#[trigger] self.nodes@[k as int].links@[e]).source_index;
                self.nodes@[s as int].node_type == NodeType::Input || order@.contains(s)
            } by {
                let s = self.nodes@[k as int].links@[e].source_index;
                if self.nodes@[s as int].node_type != NodeType::Input {
                    assert(marks@[s as int] == Mark::Resolved);
                }
            }
            lemma_schedule_push(self, order@, k);
        }
        let ghost o1 = order@;
        marks.set(k, Mark::Resolved);
        order.push(k);
        proof {
            assert forall|x: int| 0 <= x < marks@.len() implies (#[trigger] marks@[x] == Mark::Resolved
                <==> order@.contains(x as usize)) by {
                assert(order@[order@.len() - 1] == k);
                if x != k {
                    assert(marks@[x] == m1[x]);
                    if m1[x] == Mark::Resolved {
                        let j = choose|j: int| 0 <= j < o1.len() && o1[j] == x as usize;
                        assert(order@[j] == x as usize);
                    }
                    if order@.contains(x as usize) {
                        let j = choose|j: int| 0 <= j < order@.len() && order@[j] == x as usize;
                        assert(o1[j] == x as usize);
                    }
                }
            }
        }
        Ok(())
    }
}


/// The arithmetic of an evaluation pass, for the value type that carries it.
/// Each operation is tied to a spec function of the same name.
pub trait Signal: Copy + Sized {
    spec fn spec_bias() -> Self;

    spec fn spec_zero() -> Self;

    spec fn spec_activation(self) -> Self;

    spec fn spec_weighted(self, weight_bits: u64) -> Self;

    spec fn spec_plus(self, other: Self) -> Self;

    /// The value that the bias node always carries.
    fn bias() -> (r: Self)
        ensures
            r == Self::spec_bias(),
    ;

    /// The value that a sum of contributions starts from.
    fn zero() -> (r: Self)
        ensures
            r == Self::spec_zero(),
    ;

    /// The activation function, applied where a value crosses a link and to
    /// each output.
    fn activation(self) -> (r: Self)
        ensures
            r == self.spec_activation(),
    ;

    /// The value times a weight given as the bit pattern of an IEEE-754
    /// binary64 number.
    fn weighted(self, weight_bits: u64) -> (r: Self)
        ensures
            r == self.spec_weighted(weight_bits),
    ;

    /// The sum of two values.
    fn plus(self, other: Self) -> (r: Self)
        ensures
            r == self.spec_plus(other),
    ;
}

/// The value of the node at position `k`, looking at most `depth` links deep.
///
/// An input node carries its entry of `eff`, the input vector with the bias
/// value in front. Any other node carries the sum, from zero and in the order
/// of its links, of the activation of each source's value times the link's
/// weight. In a network whose nodes can all be scheduled the value no longer
/// changes once `depth` passes the node's place in a schedule; `feed` uses the
/// number of nodes.
pub open spec fn node_value<V: Signal>(p: &Phenotype, eff: Seq<V>, k: int, depth: nat) -> V
    decreases depth, 0nat,
{
    if !(0 <= k < p.nodes@.len()) {
        V::spec_zero()
    } else if p.nodes@[k].node_type == NodeType::Input {
        eff[p.nodes@[k].number as int]
    } else if depth == 0 {
        V::spec_zero()
    } else {
        link_sum(p, eff, k, p.nodes@[k].links@.len(), (depth - 1) as nat)
    }
}

/// The sum of the contributions of the first `e` links of the node at `k`,
/// the sources' values looked at most `depth` links deep.
pub open spec fn link_sum<V: Signal>(p: &Phenotype, eff: Seq<V>, k: int, e: nat, depth: nat) -> V
    decreases depth, e + 1,
{
    if !(0 <= k < p.nodes@.len()) || e == 0 || e > p.nodes@[k].links@.len() {
        V::spec_zero()
    } else {
        let l = p.nodes@[k].links@[e - 1];
        link_sum(p, eff, k, (e - 1) as nat, depth).spec_plus(
            node_value(p, eff, l.source_index as int, depth).spec_activation().spec_weighted(l.weight_bits),
        )
    }
}

/// The input vector with the bias value in front.
pub open spec fn effective_inputs<V: Signal>(inputs: Seq<V>) -> Seq<V> {
    seq![V::spec_bias()] + inputs
}

proof fn lemma_distinct_len(s: Seq<usize>, n: nat)
    requires
        s.no_duplicates(),
        forall|i: int| 0 <= i < s.len() ==> (#[trigger] s[i]) < n,
    ensures
        s.len() <= n,
    decreases n,
{
    if n == 0 {
        if s.len() > 0 {
            assert(s[0] < 0);
        }
    } else if s.contains((n - 1) as usize) {
        let j = choose|j: int| 0 <= j < s.len() && s[j] == (n - 1) as usize;
        let s2 = s.remove(j);
        assert forall|i: int| 0 <= i < s2.len() implies (#[trigger] s2[i]) < (n - 1) as nat by {
            if i < j {
                assert(s2[i] == s[i]);
            } else {
                assert(s2[i] == s[i + 1]);
            }
        }
        assert forall|a: int, b: int| 0 <= a < s2.len() && 0 <= b < s2.len() && a != b implies s2[a] != s2[b] by {
            let a1 = if a < j { a } else { a + 1 };
            let b1 = if b < j { b } else { b + 1 };
            assert(s2[a] == s[a1] && s2[b] == s[b1]);
        }
        lemma_distinct_len(s2, (n - 1) as nat);
    } else {
        assert forall|i: int| 0 <= i < s.len() implies (#[trigger] s[i]) < (n - 1) as nat by {
            assert(s[i] != (n - 1) as usize);
        }
        lemma_distinct_len(s, (n - 1) as nat);
    }
}

/// Whether node `a` comes before node `b` in the output listing: by number,
/// and by position where the numbers are equal.
pub open spec fn listed_before(p: &Phenotype, a: usize, b: usize) -> bool {
    p.nodes@[a as int].number < p.nodes@[b as int].number || (p.nodes@[a as int].number
        == p.nodes@[b as int].number && a < b)
}

/// Whether the positions in `outs` are those of the output nodes, each once,
/// in ascending order of node number, and of position among equal numbers.
pub open spec fn is_output_listing(p: &Phenotype, outs: Seq<usize>) -> bool {
    &&& outs.no_duplicates()
    &&& forall|t: int|
        0 <= t < outs.len() ==> (#[trigger] outs[t]) < p.nodes@.len() && p.nodes@[outs[t] as int].node_type
            == NodeType::Output
    &&& forall|k: int|
        0 <= k < p.nodes@.len() && (#[trigger] p.nodes@[k]).node_type == NodeType::Output ==> outs.contains(
            k as usize,
        )
    &&& forall|a: int, b: int| 0 <= a < b < outs.len() ==> #[trigger] listed_before(p, outs[a], outs[b])
}

/// The number of input nodes, the bias among them.
pub open spec fn input_count(nodes: Seq<PhenoNodes>) -> nat
    decreases nodes.len(),
{
    if nodes.len() == 0 {
        0
    } else {
        input_count(nodes.drop_last()) + if nodes.last().node_type == NodeType::Input {
            1nat
        } else {
            0nat
        }
    }
}

/// Whether an input vector of length `len` feeds the network: one value for
/// each input node but the bias, and every input node numbered at most `len`.
pub open spec fn inputs_fit(p: &Phenotype, len: int) -> bool {
    &&& input_count(p.nodes@) == len + 1
    &&& forall|k: int|
        0 <= k < p.nodes@.len() && (#[trigger] p.nodes@[k]).node_type == NodeType::Input ==> p.nodes@[k].number
            <= len
}

/// Whether each node of `path` depends on the next.
pub open spec fn is_path(p: &Phenotype, path: Seq<usize>) -> bool {
    forall|i: int| 0 <= i < path.len() - 1 ==> depends(p, #[trigger] path[i] as int, path[i + 1] as int)
}

proof fn lemma_schedule_holds_dependency(p: &Phenotype, order: Seq<usize>, a: usize, b: usize)
    requires
        is_schedule(p, order),
        order.contains(a),
        depends(p, a as int, b as int),
    ensures
        order.contains(b),
{
    let t = choose|t: int| 0 <= t < order.len() && order[t] == a;
    let e = choose|e: int|
        0 <= e < p.nodes@[a as int].links@.len() && (#[trigger] p.nodes@[a as int].links@[e]).source_index == b;
    assert(sources_before(p, order, t));
    assert(p.nodes@[order[t] as int].links@[e].source_index == b);
    let prefix = order.take(t);
    let u = choose|u: int| 0 <= u < prefix.len() && prefix[u] == b;
    assert(order[u] == b);
}

proof fn lemma_no_cycle_member_before(p: &Phenotype, c: Seq<usize>, order: Seq<usize>, t: int)
    requires
        is_cycle(p, c),
        is_schedule(p, order),
        0 <= t <= order.len(),
    ensures
        forall|u: int| 0 <= u < t ==> !c.contains(#[trigger] order[u]),
    decreases t,
{
    if t > 0 {
        lemma_no_cycle_member_before(p, c, order, t - 1);
        if c.contains(order[t - 1]) {
            let j = choose|j: int| 0 <= j < c.len() && c[j] == order[t - 1];
            let next = if j < c.len() - 1 { j + 1 } else { 0 };
            assert(depends(p, c[j] as int, c[next] as int));
            let b = c[next];
            let e = choose|e: int|
                0 <= e < p.nodes@[c[j] as int].links@.len() && (#[trigger] p.nodes@[c[j] as int].links@[e]).source_index
                    == b;
            assert(sources_before(p, order, t - 1));
            assert(p.nodes@[order[t - 1] as int].links@[e].source_index == b);
            let prefix = order.take(t - 1);
            let u = choose|u: int| 0 <= u < prefix.len() && prefix[u] == b;
            assert(order[u] == b);
            assert(c.contains(order[u]));
        }
    }
}

/// Whether some output node depends, along a path of dependencies, on a
/// node of a cycle.
pub open spec fn output_reaches_cycle(p: &Phenotype) -> bool {
    exists|c: Seq<usize>, path: Seq<usize>|
        {
            &&& is_cycle(p, c)
            &&& #[trigger] is_path(p, path)
            &&& path.len() > 0
            &&& path[0] < p.nodes@.len()
            &&& p.nodes@[path[0] as int].node_type == NodeType::Output
            &&& #[trigger] c.contains(path.last())
        }
}

/// A network can be evaluated only without its outputs depending on a cycle:
/// when an output node depends, along a path, on a node of a cycle, no
/// schedule resolves every output, so `resolution_order` and `feed` fail.
pub proof fn lemma_cycle_blocks_schedule(p: &Phenotype, c: Seq<usize>, path: Seq<usize>, order: Seq<usize>)
    requires
        is_cycle(p, c),
        is_path(p, path),
        path.len() > 0,
        path[0] < p.nodes@.len(),
        p.nodes@[path[0] as int].node_type == NodeType::Output,
        c.contains(path.last()),
    ensures
        !is_full_schedule(p, order),
{
    if is_full_schedule(p, order) {
        assert(p.nodes@[path[0] as int].node_type == NodeType::Output);
        assert(order.contains(path[0]));
        assert forall|i: int| 0 <= i < path.len() implies order.contains(#[trigger] path[i]) by {
            lemma_path_scheduled(p, path, order, i);
        }
        assert(order.contains(path[path.len() - 1]));
        let u = choose|u: int| 0 <= u < order.len() && order[u] == path.last();
        lemma_no_cycle_member_before(p, c, order, order.len() as int);
        assert(!c.contains(order[u]));
    }
}

proof fn lemma_path_scheduled(p: &Phenotype, path: Seq<usize>, order: Seq<usize>, i: int)
    requires
        is_schedule(p, order),
        is_path(p, path),
        0 <= i < path.len(),
        order.contains(path[0]),
    ensures
        order.contains(path[i]),
    decreases i,
{
    if i > 0 {
        lemma_path_scheduled(p, path, order, i - 1);
        assert(depends(p, path[i - 1] as int, path[i] as int));
        lemma_schedule_holds_dependency(p, order, path[i - 1], path[i]);
    }
}

proof fn lemma_sorted_unique(p: &Phenotype, l1: Seq<usize>, l2: Seq<usize>)
    requires
        forall|a: int, b: int| 0 <= a < b < l1.len() ==> #[trigger] listed_before(p, l1[a], l1[b]),
        forall|a: int, b: int| 0 <= a < b < l2.len() ==> #[trigger] listed_before(p, l2[a], l2[b]),
        forall|x: usize| l1.contains(x) <==> l2.contains(x),
    ensures
        l1 == l2,
    decreases l1.len(),
{
    if l1.len() == 0 {
        if l2.len() > 0 {
            assert(l2.contains(l2[0]));
        }
        assert(l1 =~= l2);
    } else {
        assert(l1.contains(l1[0]));
        assert(l2.len() > 0);
        assert(l2.contains(l2[0]));
        if l1[0] != l2[0] {
            let i = choose|i: int| 0 <= i < l1.len() && l1[i] == l2[0];
            let j = choose|j: int| 0 <= j < l2.len() && l2[j] == l1[0];
            assert(listed_before(p, l1[0], l1[i]));
            assert(listed_before(p, l2[0], l2[j]));
        }
        let r1 = l1.drop_first();
        let r2 = l2.drop_first();
        assert forall|a: int, b: int| 0 <= a < b < r1.len() implies #[trigger] listed_before(p, r1[a], r1[b]) by {
            assert(listed_before(p, l1[a + 1], l1[b + 1]));
        }
        assert forall|a: int, b: int| 0 <= a < b < r2.len() implies #[trigger] listed_before(p, r2[a], r2[b]) by {
            assert(listed_before(p, l2[a + 1], l2[b + 1]));
        }
        assert forall|x: usize| r1.contains(x) <==> r2.contains(x) by {
            if r1.contains(x) {
                let i = choose|i: int| 0 <= i < r1.len() && r1[i] == x;
                assert(listed_before(p, l1[0], l1[i + 1]));
                assert(l2.contains(x));
                let j = choose|j: int| 0 <= j < l2.len() && l2[j] == x;
                assert(j != 0);
                assert(r2[j - 1] == x);
            }
            if r2.contains(x) {
                let j = choose|j: int| 0 <= j < r2.len() && r2[j] == x;
                assert(listed_before(p, l2[0], l2[j + 1]));
                assert(l1.contains(x));
                let i = choose|i: int| 0 <= i < l1.len() && l1[i] == x;
                assert(i != 0);
                assert(r1[i - 1] == x);
            }
        }
        lemma_sorted_unique(p, r1, r2);
        assert(l1 =~= seq![l1[0]] + r1);
        assert(l2 =~= seq![l2[0]] + r2);
    }
}

/// There is one output listing only. So the result of `feed`, which its
/// contract gives over the output listing, is a function of the phenotype
/// and the inputs alone: two calls with equal inputs give equal results.
pub proof fn lemma_output_listing_unique(p: &Phenotype, l1: Seq<usize>, l2: Seq<usize>)
    requires
        is_output_listing(p, l1),
        is_output_listing(p, l2),
    ensures
        l1 == l2,
{
    assert forall|x: usize| l1.contains(x) <==> l2.contains(x) by {
        if l1.contains(x) {
            let i = choose|i: int| 0 <= i < l1.len() && l1[i] == x;
            assert(p.nodes@[l1[i] as int].node_type == NodeType::Output);
            assert(p.nodes@[x as int].node_type == NodeType::Output);
        }
        if l2.contains(x) {
            let i = choose|i: int| 0 <= i < l2.len() && l2[i] == x;
            assert(p.nodes@[l2[i] as int].node_type == NodeType::Output);
            assert(p.nodes@[x as int].node_type == NodeType::Output);
        }
    }
    lemma_sorted_unique(p, l1, l2);
}

/// Whether two phenotypes hold the same nodes with the same incoming links.
pub open spec fn same_graph(p1: &Phenotype, p2: &Phenotype) -> bool {
    &&& p1.nodes@.len() == p2.nodes@.len()
    &&& forall|k: int|
        0 <= k < p1.nodes@.len() ==> {
            &&& (#[trigger] p1.nodes@[k]).number == p2.nodes@[k].number
            &&& p1.nodes@[k].node_type == p2.nodes@[k].node_type
            &&& p1.nodes@[k].links@ == p2.nodes@[k].links@
        }
}

proof fn lemma_same_graph_sum<V: Signal>(p1: &Phenotype, p2: &Phenotype, eff: Seq<V>, k: int, e: nat, depth: nat)
    requires
        same_graph(p1, p2),
    ensures
        link_sum(p1, eff, k, e, depth) == link_sum(p2, eff, k, e, depth),
    decreases depth, e + 1,
{
    if 0 <= k < p1.nodes@.len() && e > 0 && e <= p1.nodes@[k].links@.len() {
        assert(p1.nodes@[k].links@ == p2.nodes@[k].links@);
        lemma_same_graph_sum(p1, p2, eff, k, (e - 1) as nat, depth);
        lemma_same_graph_value(p1, p2, eff, p1.nodes@[k].links@[e - 1].source_index as int, depth);
    } else if 0 <= k < p1.nodes@.len() {
        assert(p1.nodes@[k].links@ == p2.nodes@[k].links@);
    }
}

proof fn lemma_same_graph_value<V: Signal>(p1: &Phenotype, p2: &Phenotype, eff: Seq<V>, k: int, depth: nat)
    requires
        same_graph(p1, p2),
    ensures
        node_value(p1, eff, k, depth) == node_value(p2, eff, k, depth),
    decreases depth, 0nat,
{
    if 0 <= k < p1.nodes@.len() {
        assert(p1.nodes@[k].links@ == p2.nodes@[k].links@);
        if p1.nodes@[k].node_type != NodeType::Input && depth > 0 {
            lemma_same_graph_sum(p1, p2, eff, k, p1.nodes@[k].links@.len(), (depth - 1) as nat);
        }
    }
}

/// Two phenotypes with the same nodes and the same incoming links evaluate
/// alike: the same node values, the same output listing and the same
/// schedules, so `feed` gives both the same result. With
/// `lemma_disabled_link_ignored` this says that a disabled link, whatever its
/// weight, changes no output.
pub proof fn lemma_same_graph_same_outputs<V: Signal>(p1: &Phenotype, p2: &Phenotype, eff: Seq<V>)
    requires
        p1.wf(),
        same_graph(p1, p2),
    ensures
        forall|k: int, d: nat| #[trigger] node_value(p1, eff, k, d) == node_value(p2, eff, k, d),
        forall|l: Seq<usize>| #[trigger] is_output_listing(p1, l) == is_output_listing(p2, l),
        forall|o: Seq<usize>| #[trigger] is_full_schedule(p1, o) == is_full_schedule(p2, o),
{
    assert forall|k: int, d: nat| #[trigger] node_value(p1, eff, k, d) == node_value(p2, eff, k, d) by {
        lemma_same_graph_value(p1, p2, eff, k, d);
    }
    assert forall|o: Seq<usize>| #[trigger] is_full_schedule(p1, o) == is_full_schedule(p2, o) by {
        lemma_same_graph_schedule(p1, p2, o);
    }
    assert forall|l: Seq<usize>| #[trigger] is_output_listing(p1, l) == is_output_listing(p2, l) by {
        lemma_same_graph_listing(p1, p2, l);
    }
}

proof fn lemma_same_graph_symmetric(p1: &Phenotype, p2: &Phenotype)
    requires
        same_graph(p1, p2),
    ensures
        same_graph(p2, p1),
{
    assert forall|k: int| 0 <= k < p2.nodes@.len() implies {
        &&& (#[trigger] p2.nodes@[k]).number == p1.nodes@[k].number
        &&& p2.nodes@[k].node_type == p1.nodes@[k].node_type
        &&& p2.nodes@[k].links@ == p1.nodes@[k].links@
    } by {
        assert(p1.nodes@[k].number == p2.nodes@[k].number);
    }
}

proof fn lemma_listing_transfer(p1: &Phenotype, p2: &Phenotype, l: Seq<usize>)
    requires
        same_graph(p1, p2),
        is_output_listing(p1, l),
    ensures
        is_output_listing(p2, l),
{
    assert forall|t: int| 0 <= t < l.len() implies (#[trigger] l[t]) < p2.nodes@.len() && p2.nodes@[l[t] as int].node_type
        == NodeType::Output by {
        assert(p1.nodes@[l[t] as int].node_type == p2.nodes@[l[t] as int].node_type);
    }
    assert forall|k: int|
        0 <= k < p2.nodes@.len() && (#[trigger] p2.nodes@[k]).node_type == NodeType::Output implies l.contains(
            k as usize,
        ) by {
        assert(p1.nodes@[k].node_type == p2.nodes@[k].node_type);
    }
    assert forall|a: int, b: int| 0 <= a < b < l.len() implies #[trigger] listed_before(p2, l[a], l[b]) by {
        assert(listed_before(p1, l[a], l[b]));
        assert(p1.nodes@[l[a] as int].number == p2.nodes@[l[a] as int].number);
        assert(p1.nodes@[l[b] as int].number == p2.nodes@[l[b] as int].number);
    }
}

proof fn lemma_schedule_transfer(p1: &Phenotype, p2: &Phenotype, o: Seq<usize>)
    requires
        p1.wf(),
        same_graph(p1, p2),
        is_full_schedule(p1, o),
    ensures
        is_full_schedule(p2, o),
{
    assert forall|t: int| 0 <= t < o.len() implies (#[trigger] o[t]) < p2.nodes@.len() && p2.nodes@[o[t] as int].node_type
        != NodeType::Input by {
        assert(p1.nodes@[o[t] as int].node_type == p2.nodes@[o[t] as int].node_type);
    }
    assert forall|t: int| 0 <= t < o.len() implies #[trigger] sources_before(p2, o, t) by {
        let k = o[t] as int;
        assert(sources_before(p1, o, t));
        assert(p1.nodes@[k].links@ == p2.nodes@[k].links@);
        assert forall|e: int| 0 <= e < p2.nodes@[k].links@.len() implies {
            let s = (#[trigger] p2.nodes@[k].links@[e]).source_index;
            p2.nodes@[s as int].node_type == NodeType::Input || o.take(t).contains(s)
        } by {
            assert(p1.nodes@[k].links@[e] == p2.nodes@[k].links@[e]);
            let s = p1.nodes@[k].links@[e].source_index;
            assert(s < p1.nodes@.len());
            assert(p1.nodes@[s as int].node_type == p2.nodes@[s as int].node_type);
        }
    }
    assert forall|k: int|
        0 <= k < p2.nodes@.len() && (#[trigger] p2.nodes@[k]).node_type == NodeType::Output implies o.contains(
            k as usize,
        ) by {
        assert(p1.nodes@[k].node_type == p2.nodes@[k].node_type);
    }
}

proof fn lemma_same_graph_listing(p1: &Phenotype, p2: &Phenotype, l: Seq<usize>)
    requires
        same_graph(p1, p2),
    ensures
        is_output_listing(p1, l) == is_output_listing(p2, l),
{
    lemma_same_graph_symmetric(p1, p2);
    if is_output_listing(p1, l) {
        lemma_listing_transfer(p1, p2, l);
    }
    if is_output_listing(p2, l) {
        lemma_listing_transfer(p2, p1, l);
    }
}

proof fn lemma_same_graph_schedule(p1: &Phenotype, p2: &Phenotype, o: Seq<usize>)
    requires
        p1.wf(),
        same_graph(p1, p2),
    ensures
        is_full_schedule(p1, o) == is_full_schedule(p2, o),
{
    lemma_same_graph_symmetric(p1, p2);
    assert(p2.wf()) by {
        assert forall|k: int, e: int| 0 <= k < p2.nodes@.len() && 0 <= e < p2.nodes@[k].links@.len() implies {
            let l = #[trigger] p2.nodes@[k].links@[e];
            &&& l.source_index < p2.nodes@.len()
            &&& p2.nodes@[l.source_index as int].number == l.source_node
        } by {
            assert(p1.nodes@[k].links@[e] == p2.nodes@[k].links@[e]);
            let l = p1.nodes@[k].links@[e];
            assert(p1.nodes@[l.source_index as int].number == p2.nodes@[l.source_index as int].number);
        }
    }
    if is_full_schedule(p1, o) {
        lemma_schedule_transfer(p1, p2, o);
    }
    if is_full_schedule(p2, o) {
        lemma_schedule_transfer(p2, p1, o);
    }
}

/// The invariant of building the output listing: `r` lists, in order of
/// node number, the output nodes among the first `k`.
pub open spec fn listing_upto(p: &Phenotype, r: Seq<usize>, k: int) -> bool {
    &&& r.no_duplicates()
    &&& forall|t: int|
        0 <= t < r.len() ==> (#[trigger] r[t]) < k && p.nodes@[r[t] as int].node_type == NodeType::Output
    &&& forall|j: int|
        0 <= j < k && (#[trigger] p.nodes@[j]).node_type == NodeType::Output ==> r.contains(j as usize)
    &&& forall|a: int, b: int| 0 <= a < b < r.len() ==> #[trigger] listed_before(p, r[a], r[b])
}

proof fn lemma_insert_at(s: Seq<usize>, pos: int, x: usize)
    requires
        0 <= pos <= s.len(),
    ensures
        s.insert(pos, x).len() == s.len() + 1,
        forall|t: int| 0 <= t < pos ==> #[trigger] s.insert(pos, x)[t] == s[t],
        s.insert(pos, x)[pos] == x,
        forall|t: int| pos < t <= s.len() ==> #[trigger] s.insert(pos, x)[t] == s[t - 1],
{
}

proof fn lemma_listing_insert(p: &Phenotype, before: Seq<usize>, pos: int, k: usize)
    requires
        k < p.nodes@.len(),
        p.nodes@[k as int].node_type == NodeType::Output,
        listing_upto(p, before, k as int),
        0 <= pos <= before.len(),
        forall|t: int| 0 <= t < pos ==> p.nodes@[(#[trigger] before[t]) as int].number <= p.nodes@[k as int].number,
        pos < before.len() ==> p.nodes@[before[pos] as int].number > p.nodes@[k as int].number,
    ensures
        listing_upto(p, before.insert(pos, k), k + 1),
{
    let r = before.insert(pos, k);
    lemma_insert_at(before, pos, k);
    let key = p.nodes@[k as int].number;
    assert forall|t: int| 0 <= t < r.len() implies (#[trigger] r[t]) < k + 1 && p.nodes@[r[t] as int].node_type
        == NodeType::Output by {
        if t < pos {
            assert(r[t] == before[t]);
        } else if t > pos {
            assert(r[t] == before[t - 1]);
        }
    }
    lemma_listing_insert_covers(p, before, pos, k);
    lemma_listing_insert_sorted(p, before, pos, k);
    assert forall|a: int, b: int| 0 <= a < r.len() && 0 <= b < r.len() && a != b implies r[a] != r[b] by {
        if a != pos && b != pos {
            let a1 = if a < pos { a } else { a - 1 };
            let b1 = if b < pos { b } else { b - 1 };
            assert(r[a] == before[a1] && r[b] == before[b1]);
        } else if a == pos {
            let b1 = if b < pos { b } else { b - 1 };
            assert(r[b] == before[b1]);
        } else {
            let a1 = if a < pos { a } else { a - 1 };
            assert(r[a] == before[a1]);
        }
    }
}

proof fn lemma_listing_insert_covers(p: &Phenotype, before: Seq<usize>, pos: int, k: usize)
    requires
        k < p.nodes@.len(),
        listing_upto(p, before, k as int),
        0 <= pos <= before.len(),
    ensures
        forall|j: int|
            0 <= j < k + 1 && (#[trigger] p.nodes@[j]).node_type == NodeType::Output ==> before.insert(pos, k).contains(
                j as usize,
            ),
{
    let r = before.insert(pos, k);
    lemma_insert_at(before, pos, k);
    assert forall|j: int|
        0 <= j < k + 1 && (#[trigger] p.nodes@[j]).node_type == NodeType::Output implies r.contains(j as usize) by {
        if j == k {
            assert(r[pos] == k);
        } else {
            let t = choose|t: int| 0 <= t < before.len() && before[t] == j as usize;
            if t < pos {
                assert(r[t] == before[t]);
            } else {
                assert(r[t + 1] == before[t]);
            }
        }
    }
}

proof fn lemma_listing_insert_sorted(p: &Phenotype, before: Seq<usize>, pos: int, k: usize)
    requires
        k < p.nodes@.len(),
        listing_upto(p, before, k as int),
        0 <= pos <= before.len(),
        forall|t: int| 0 <= t < pos ==> p.nodes@[(#[trigger] before[t]) as int].number <= p.nodes@[k as int].number,
        pos < before.len() ==> p.nodes@[before[pos] as int].number > p.nodes@[k as int].number,
    ensures
        forall|a: int, b: int|
            0 <= a < b < before.len() + 1 ==> #[trigger] listed_before(p, before.insert(pos, k)[a], before.insert(pos, k)[b]),
{
    let r = before.insert(pos, k);
    lemma_insert_at(before, pos, k);
    let key = p.nodes@[k as int].number;
    assert forall|a: int, b: int| 0 <= a < b < r.len() implies #[trigger] listed_before(p, r[a], r[b]) by {
        if b < pos {
            assert(r[a] == before[a] && r[b] == before[b]);
            assert(listed_before(p, before[a], before[b]));
        } else if b == pos {
            assert(r[a] == before[a]);
            assert(before[a] < k);
        } else if a < pos {
            assert(r[a] == before[a] && r[b] == before[b - 1]);
            assert(p.nodes@[before[pos] as int].number > key);
            if b - 1 > pos {
                assert(listed_before(p, before[pos], before[b - 1]));
            }
        } else if a == pos {
            assert(r[b] == before[b - 1]);
            assert(p.nodes@[before[pos] as int].number > key);
            if b - 1 > pos {
                assert(listed_before(p, before[pos], before[b - 1]));
            }
        } else {
            assert(r[a] == before[a - 1] && r[b] == before[b - 1]);
            assert(listed_before(p, before[a - 1], before[b - 1]));
        }
    }
}

impl Phenotype {
    /// The positions of the output nodes in ascending order of node number.
    pub fn output_indices(&self) -> (r: Vec<usize>)
        ensures
            is_output_listing(self, r@),
    {
        let mut r: Vec<usize> = Vec::new();
        let mut k: usize = 0;
        while k < self.nodes.len()
            invariant
                k <= self.nodes@.len(),
                listing_upto(self, r@, k as int),
            decreases self.nodes@.len() - k,
        {
            if self.nodes[k].node_type == NodeType::Output {
                let key = self.nodes[k].number;
                let mut pos: usize = 0;
                while pos < r.len() && self.nodes[r[pos]].number <= key
                    invariant
                        pos <= r@.len(),
                        k < self.nodes@.len(),
                        key == self.nodes@[k as int].number,
                        listing_upto(self, r@, k as int),
                        forall|t: int| 0 <= t < pos ==> self.nodes@[(#[trigger] r@[t]) as int].number <= key,
                    decreases r@.len() - pos,
                {
                    pos = pos + 1;
                }
                proof {
                    lemma_listing_insert(self, r@, pos as int, k);
                }
                r.insert(pos, k);
            }
            k = k + 1;
        }
        r
    }
}

impl Phenotype {
    /// An order in which one evaluation pass resolves the non-input nodes:
    /// every output node, each node once, and each after the nodes it
    /// depends on. (It is found by a depth-first walk from each output node
    /// in ascending order of node number.)
    ///
    /// Fails when an output node depends, through its links, on a cycle.
    pub fn resolution_order(&self) -> (r: Result<Vec<usize>, PhenotypeError>)
        requires
            self.wf(),
        ensures
            r matches Ok(order) ==> is_full_schedule(self, order@),
            r is Err ==> r == Err::<Vec<usize>, _>(PhenotypeError::CyclicTopologyError) && output_reaches_cycle(
                self,
            ),
            r is Ok <==> !output_reaches_cycle(self),
    {
        let outputs = self.output_indices();
        let mut marks: Vec<Mark> = Vec::new();
        let mut k: usize = 0;
        while k < self.nodes.len()
            invariant
                k <= self.nodes@.len(),
                marks@.len() == k,
                forall|x: int| 0 <= x < k ==> #[trigger] marks@[x] == Mark::Unresolved,
            decreases self.nodes@.len() - k,
        {
            marks.push(Mark::Unresolved);
            k = k + 1;
        }
        let mut order: Vec<usize> = Vec::new();
        proof {
            assert(self.nodes.len() == self.nodes@.len());
        }
        let mut t: usize = 0;
        while t < outputs.len()
            invariant
                self.wf(),
                is_output_listing(self, outputs@),
                t <= outputs@.len(),
                marks_match(self, marks@, order@),
                forall|x: int| 0 <= x < marks@.len() ==> #[trigger] marks@[x] != Mark::InProgress,
                forall|u: int| 0 <= u < t ==> order@.contains(#[trigger] outputs@[u]),
            decreases outputs@.len() - t,
        {
            let o = outputs[t];
            if marks[o] == Mark::Unresolved {
                let ghost before = order@;
                let r = self.resolve(o, &mut marks, &mut order, Ghost(Seq::empty()));
                if r.is_err() {
                    return Err(PhenotypeError::CyclicTopologyError);
                }
                proof {
                    assert forall|u: int| 0 <= u < t implies order@.contains(#[trigger] outputs@[u]) by {
                        let j = choose|j: int| 0 <= j < before.len() && before[j] == outputs@[u];
                        assert(marks@[outputs@[u] as int] == Mark::Resolved);
                    }
                }
            }
            assert(marks@[o as int] == Mark::Resolved);
            t = t + 1;
        }
        proof {
            assert forall|k: int|
                0 <= k < self.nodes@.len() && (#[trigger] self.nodes@[k]).node_type == NodeType::Output implies order@.contains(
                    k as usize,
                ) by {
                let u = choose|u: int| 0 <= u < outputs@.len() && outputs@[u] == k as usize;
                assert(order@.contains(outputs@[u]));
            }
        }
        proof {
            if output_reaches_cycle(self) {
                let (c, path) = choose|c: Seq<usize>, path: Seq<usize>|
                    {
                        &&& is_cycle(self, c)
                        &&& #[trigger] is_path(self, path)
                        &&& path.len() > 0
                        &&& path[0] < self.nodes@.len()
                        &&& self.nodes@[path[0] as int].node_type == NodeType::Output
                        &&& #[trigger] c.contains(path.last())
                    };
                lemma_cycle_blocks_schedule(self, c, path, order@);
            }
        }
        Ok(order)
    }

    /// The number of input nodes, the bias among them.
    fn count_inputs(&self) -> (r: usize)
        ensures
            r == input_count(self.nodes@),
    {
        let mut count: usize = 0;
        let mut k: usize = 0;
        while k < self.nodes.len()
            invariant
                k <= self.nodes@.len(),
                count == input_count(self.nodes@.take(k as int)),
                count <= k,
            decreases self.nodes@.len() - k,
        {
            proof {
                assert(self.nodes@.take(k as int + 1).drop_last() =~= self.nodes@.take(k as int));
            }
            if self.nodes[k].node_type == NodeType::Input {
                count = count + 1;
            }
            k = k + 1;
        }
        proof {
            assert(self.nodes@.take(k as int) =~= self.nodes@);
        }
        count
    }

    /// Whether an input vector of length `len` feeds the network.
    pub fn accepts_inputs(&self, len: usize) -> (r: bool)
        ensures
            r == inputs_fit(self, len as int),
    {
        let count = self.count_inputs();
        if count == 0 || count - 1 != len {
            return false;
        }
        let mut k: usize = 0;
        while k < self.nodes.len()
            invariant
                k <= self.nodes@.len(),
                forall|j: int|
                    0 <= j < k && (#[trigger] self.nodes@[j]).node_type == NodeType::Input ==> self.nodes@[j].number
                        <= len,
            decreases self.nodes@.len() - k,
        {
            if self.nodes[k].node_type == NodeType::Input && self.nodes[k].number as usize > len {
                return false;
            }
            k = k + 1;
        }
        true
    }

    /// Evaluates the network on `inputs`, the values of the input nodes
    /// numbered `1..=inputs.len()`; the bias node, numbered `0`, carries
    /// `V::bias()`.
    ///
    /// Each non-input node is resolved once, in the order that
    /// `resolution_order` gives: its value is the sum, over its links, of the
    /// activation of the source's value times the link's weight. The result
    /// holds the activation of each output node's value, in the order of
    /// `output_indices`.
    ///
    /// Fails when the inputs do not fit the network, or when an output node
    /// depends on a cycle; the phenotype is left as it was.
    pub fn feed<V: Signal>(&mut self, inputs: Vec<V>) -> (r: Result<Vec<V>, PhenotypeError>)
        requires
            old(self).wf(),
        ensures
            *final(self) == *old(self),
            r == Err::<Vec<V>, _>(PhenotypeError::InputLengthMismatch) <==> !inputs_fit(old(self), inputs@.len() as int),
            r == Err::<Vec<V>, _>(PhenotypeError::CyclicTopologyError) <==> inputs_fit(old(self), inputs@.len() as int)
                && output_reaches_cycle(old(self)),
            r is Ok <==> inputs_fit(old(self), inputs@.len() as int) && !output_reaches_cycle(old(self)),
            r matches Ok(outs) ==> exists|listing: Seq<usize>|
                {
                    &&& is_output_listing(old(self), listing)
                    &&& #[trigger] listing.len() == outs@.len()
                    &&& forall|u: int|
                        0 <= u < outs@.len() ==> outs@[u] == (#[trigger] node_value(
                            old(self),
                            effective_inputs(inputs@),
                            listing[u] as int,
                            old(self).nodes@.len(),
                        )).spec_activation()
                },
    {
        if !self.accepts_inputs(inputs.len()) {
            return Err(PhenotypeError::InputLengthMismatch);
        }
        let order = match self.resolution_order() {
            Ok(order) => order,
            Err(e) => {
                return Err(e);
            },
        };
        let ghost eff = effective_inputs(inputs@);
        let mut effective: Vec<V> = Vec::new();
        effective.push(V::bias());
        let mut i: usize = 0;
        while i < inputs.len()
            invariant
                i <= inputs@.len(),
                effective@ =~= eff.take(i + 1int),
                eff == effective_inputs(inputs@),
            decreases inputs@.len() - i,
        {
            effective.push(inputs[i]);
            i = i + 1;
        }
        proof {
            assert(eff.take(inputs@.len() + 1int) =~= eff);
        }
        let n = self.nodes.len();
        let mut values: Vec<V> = Vec::new();
        let mut k: usize = 0;
        while k < n
            invariant
                n == self.nodes@.len(),
                k <= n,
                values@.len() == k,
                effective@ == eff,
                eff.len() == inputs@.len() + 1,
                inputs_fit(self, inputs@.len() as int),
                forall|x: int|
                    0 <= x < k && (#[trigger] self.nodes@[x]).node_type == NodeType::Input ==> values@[x]
                        == eff[self.nodes@[x].number as int],
            decreases n - k,
        {
            if self.nodes[k].node_type == NodeType::Input {
                values.push(effective[self.nodes[k].number as usize]);
            } else {
                values.push(V::zero());
            }
            k = k + 1;
        }
        let mut t: usize = 0;
        while t < order.len()
            invariant
                self.wf(),
                n == self.nodes@.len(),
                values@.len() == n,
                is_full_schedule(self, order@),
                t <= order@.len(),
                forall|x: int|
                    0 <= x < n && (#[trigger] self.nodes@[x]).node_type == NodeType::Input ==> values@[x]
                        == eff[self.nodes@[x].number as int],
                forall|u: int, d: nat|
                    0 <= u < t && d >= u + 1 ==> #[trigger] node_value(self, eff, order@[u] as int, d)
                        == values@[order@[u] as int],
            decreases order@.len() - t,
        {
            let k = order[t];
            assert(sources_before(self, order@, t as int));
            let mut sum = V::zero();
            let mut e: usize = 0;
            while e < self.nodes[k].links.len()
                invariant
                    self.wf(),
                    k < n,
                    k == order@[t as int],
                    t < order@.len(),
                    n == self.nodes@.len(),
                    values@.len() == n,
                    is_full_schedule(self, order@),
                    sources_before(self, order@, t as int),
                    e <= self.nodes@[k as int].links@.len(),
                    forall|x: int|
                        0 <= x < n && (#[trigger] self.nodes@[x]).node_type == NodeType::Input ==> values@[x]
                            == eff[self.nodes@[x].number as int],
                    forall|u: int, d: nat|
                        0 <= u < t && d >= u + 1 ==> #[trigger] node_value(self, eff, order@[u] as int, d)
                            == values@[order@[u] as int],
                    forall|dd: nat| dd >= t ==> sum == #[trigger] link_sum(self, eff, k as int, e as nat, dd),
                decreases self.nodes@[k as int].links@.len() - e,
            {
                let link = self.nodes[k].links[e];
                let v = values[link.source_index];
                proof {
                    assert(link == self.nodes@[k as int].links@[e as int]);
                    let s = link.source_index;
                    assert forall|dd: nat| dd >= t implies node_value(self, eff, s as int, dd) == v by {
                        if self.nodes@[s as int].node_type != NodeType::Input {
                            let prefix = order@.take(t as int);
                            assert(prefix.contains(s));
                            let u = choose|u: int| 0 <= u < prefix.len() && prefix[u] == s;
                            assert(order@[u] == s);
                            assert(node_value(self, eff, order@[u] as int, dd) == values@[order@[u] as int]);
                        }
                    }
                }
                let ghost sum0 = sum;
                sum = sum.plus(v.activation().weighted(link.weight_bits));
                let e1 = e + 1;
                proof {
                    assert forall|dd: nat| dd >= t implies sum == #[trigger] link_sum(self, eff, k as int, e1 as nat, dd) by {
                        assert(node_value(self, eff, link.source_index as int, dd) == v);
                        assert(sum0 == link_sum(self, eff, k as int, e as nat, dd));
                        assert(self.nodes@[k as int].links@[e1 - 1] == link);
                    }
                }
                e = e1;
            }
            let ghost before = values@;
            values.set(k, sum);
            proof {
                assert forall|x: int|
                    0 <= x < n && (#[trigger] self.nodes@[x]).node_type == NodeType::Input implies values@[x]
                        == eff[self.nodes@[x].number as int] by {
                    assert(x != k);
                }
                assert forall|u: int, d: nat| 0 <= u < t + 1 && d >= u + 1 implies #[trigger] node_value(
                    self,
                    eff,
                    order@[u] as int,
                    d,
                ) == values@[order@[u] as int] by {
                    if u < t {
                        assert(order@[u] != order@[t as int]);
                        assert(node_value(self, eff, order@[u] as int, d) == before[order@[u] as int]);
                    } else {
                        assert(link_sum(self, eff, k as int, self.nodes@[k as int].links@.len(), (d - 1) as nat) == sum);
                    }
                }
            }
            t = t + 1;
        }
        proof {
            lemma_distinct_len(order@, n as nat);
        }
        let outputs = self.output_indices();
        let mut outs: Vec<V> = Vec::new();
        let mut u: usize = 0;
        while u < outputs.len()
            invariant
                is_output_listing(self, outputs@),
                is_full_schedule(self, order@),
                order@.len() <= n,
                n == self.nodes@.len(),
                values@.len() == n,
                u <= outputs@.len(),
                outs@.len() == u,
                forall|w: int, d: nat|
                    0 <= w < order@.len() && d >= w + 1 ==> #[trigger] node_value(self, eff, order@[w] as int, d)
                        == values@[order@[w] as int],
                forall|j: int|
                    0 <= j < u ==> outs@[j] == (#[trigger] node_value(self, eff, outputs@[j] as int, n as nat)).spec_activation(),
            decreases outputs@.len() - u,
        {
            let o = outputs[u];
            proof {
                assert(self.nodes@[o as int].node_type == NodeType::Output);
                assert(order@.contains(o));
                let w = choose|w: int| 0 <= w < order@.len() && order@[w] == o;
                assert(node_value(self, eff, order@[w] as int, n as nat) == values@[order@[w] as int]);
            }
            outs.push(values[o].activation());
            u = u + 1;
        }
        proof {
            assert(is_output_listing(self, outputs@) && outputs@.len() == outs@.len());
        }
        Ok(outs)
    }
}

} // verus!
