use vstd::prelude::*;

use crate::genotype::{Genotype, Link, Node, NodeType};

verus! {

/// An enabled link as the node it leads to sees it: where it comes from and
/// its weight (the bit pattern of an IEEE-754 binary64 number).
#[derive(Clone, Copy, PartialEq, Eq, Debug, Structural)]
pub struct PhenoLinks {
    pub source_node: u32,
    /// The position of the source node in the phenotype's node list.
    pub source_index: usize,
    pub weight_bits: u64,
}

/// A node of the phenotype with its enabled incoming links.
#[derive(Clone, Debug)]
pub struct PhenoNodes {
    pub number: u32,
    pub node_type: NodeType,
    pub links: Vec<PhenoLinks>,
}

/// The executable form of a genotype.
#[derive(Clone, Debug)]
pub struct Phenotype {
    pub nodes: Vec<PhenoNodes>,
}

/// Why a phenotype could not be built or evaluated.
#[derive(Clone, Copy, PartialEq, Eq, Debug, Structural)]
pub enum PhenotypeError {
    /// A link names a node that the genotype does not hold.
    UnknownNodeReference,
    /// An output node depends, through its links, on a cycle.
    CyclicTopologyError,
    /// The input vector does not match the network's inputs.
    InputLengthMismatch,
}

/// Whether `r` is the first position of a node numbered `id`.
pub open spec fn is_first_index(nodes: Seq<Node>, id: u32, r: int) -> bool {
    &&& 0 <= r < nodes.len()
    &&& nodes[r].number == id
    &&& forall|j: int| 0 <= j < r ==> (#[trigger] nodes[j]).number != id
}

/// Whether some node is numbered `id`.
pub open spec fn has_node(nodes: Seq<Node>, id: u32) -> bool {
    exists|r: int| 0 <= r < nodes.len() && (#[trigger] nodes[r]).number == id
}

/// The first position of a node numbered `id`.
pub open spec fn index_of(nodes: Seq<Node>, id: u32) -> int {
    choose|r: int| is_first_index(nodes, id, r)
}

/// Whether both ends of a link are nodes of the genotype.
pub open spec fn link_known(nodes: Seq<Node>, l: Link) -> bool {
    has_node(nodes, l.input_node) && has_node(nodes, l.output_node)
}

/// What the node a link leads to keeps of it.
pub open spec fn pheno_link(nodes: Seq<Node>, l: Link) -> PhenoLinks {
    PhenoLinks {
        source_node: l.input_node,
        source_index: index_of(nodes, l.input_node) as usize,
        weight_bits: l.weight_bits,
    }
}

/// The incoming links of the node at position `k`: the enabled links that
/// lead to it, in the order of the genotype.
pub open spec fn incoming(nodes: Seq<Node>, links: Seq<Link>, k: int) -> Seq<PhenoLinks>
    decreases links.len(),
{
    if links.len() == 0 {
        Seq::empty()
    } else {
        let before = incoming(nodes, links.drop_last(), k);
        let l = links.last();
        if !l.disabled && index_of(nodes, l.output_node) == k {
            before.push(pheno_link(nodes, l))
        } else {
            before
        }
    }
}

proof fn lemma_first_index_unique(nodes: Seq<Node>, id: u32, r: int)
    requires
        is_first_index(nodes, id, r),
    ensures
        index_of(nodes, id) == r,
{
    let c = index_of(nodes, id);
    assert(is_first_index(nodes, id, c));
    if c < r {
        assert(nodes[c].number != id);
    } else if r < c {
        assert(nodes[r].number != id);
    }
}

/// The first position of a node numbered `id`, if any.
fn find_node(nodes: &Vec<Node>, id: u32) -> (r: Option<usize>)
    ensures
        r matches Some(i) ==> is_first_index(nodes@, id, i as int) && index_of(nodes@, id) == i,
        r is None <==> !has_node(nodes@, id),
{
    let mut i: usize = 0;
    while i < nodes.len()
        invariant
            i <= nodes@.len(),
            forall|j: int| 0 <= j < i ==> (#[trigger] nodes@[j]).number != id,
        decreases nodes@.len() - i,
    {
        if nodes[i].number == id {
            proof {
                lemma_first_index_unique(nodes@, id, i as int);
            }
            return Some(i);
        }
        i = i + 1;
    }
    None
}

/// A disabled link never reaches the phenotype: taking it out of the
/// genotype, whatever its weight, leaves the incoming links of every node as
/// they were.
pub proof fn lemma_disabled_link_ignored(nodes: Seq<Node>, links: Seq<Link>, t: int, k: int)
    requires
        0 <= t < links.len(),
        links[t].disabled,
    ensures
        incoming(nodes, links.remove(t), k) == incoming(nodes, links, k),
    decreases links.len(),
{
    if t == links.len() - 1 {
        assert(links.remove(t) =~= links.drop_last());
    } else {
        lemma_disabled_link_ignored(nodes, links.drop_last(), t, k);
        assert(links.remove(t).drop_last() =~= links.drop_last().remove(t));
        assert(links.remove(t).last() == links.last());
    }
}

impl Phenotype {
    /// Every link points at a node of the phenotype, which carries the
    /// number that the link names.
    pub open spec fn wf(&self) -> bool {
        forall|k: int, e: int|
            0 <= k < self.nodes@.len() && 0 <= e < self.nodes@[k].links@.len() ==> {
                let l = #[trigger] self.nodes@[k].links@[e];
                &&& l.source_index < self.nodes@.len()
                &&& self.nodes@[l.source_index as int].number == l.source_node
            }
    }

    /// Whether this phenotype is the one that `g` describes.
    pub open spec fn built_from(&self, g: Genotype) -> bool {
        &&& self.nodes@.len() == g.nodes@.len()
        &&& forall|k: int|
            0 <= k < g.nodes@.len() ==> {
                &&& (#[trigger] self.nodes@[k]).number == g.nodes@[k].number
                &&& self.nodes@[k].node_type == g.nodes@[k].node_type
                &&& self.nodes@[k].links@ == incoming(g.nodes@, g.links@, k)
            }
    }

    /// Builds the phenotype of a genotype: one node for each node of the
    /// genotype, in the same order, each with the enabled links that lead to
    /// it. Disabled links are left out.
    ///
    /// Fails when a link, enabled or not, names a node that the genotype does
    /// not hold.
    pub fn from_genotype(genotype: Genotype) -> (r: Result<Phenotype, PhenotypeError>)
        ensures
            r is Err <==> exists|t: int|
                0 <= t < genotype.links@.len() && !link_known(genotype.nodes@, #[trigger] genotype.links@[t]),
            r is Err ==> r == Err::<Phenotype, _>(PhenotypeError::UnknownNodeReference),
            r matches Ok(p) ==> p.wf() && p.built_from(genotype),
    {
        let mut nodes: Vec<PhenoNodes> = Vec::new();
        let mut i: usize = 0;
        while i < genotype.nodes.len()
            invariant
                i <= genotype.nodes@.len(),
                nodes@.len() == i,
                forall|k: int|
                    0 <= k < i ==> {
                        &&& (#[trigger] nodes@[k]).number == genotype.nodes@[k].number
                        &&& nodes@[k].node_type == genotype.nodes@[k].node_type
                        &&& nodes@[k].links@ == Seq::<PhenoLinks>::empty()
                    },
            decreases genotype.nodes@.len() - i,
        {
            let node = genotype.nodes[i];
            nodes.push(PhenoNodes { number: node.number, node_type: node.node_type, links: Vec::new() });
            i = i + 1;
        }
        let mut t: usize = 0;
        while t < genotype.links.len()
            invariant
                t <= genotype.links@.len(),
                nodes@.len() == genotype.nodes@.len(),
                forall|j: int| 0 <= j < t ==> link_known(genotype.nodes@, #[trigger] genotype.links@[j]),
                forall|k: int|
                    0 <= k < nodes@.len() ==> {
                        &&& (#[trigger] nodes@[k]).number == genotype.nodes@[k].number
                        &&& nodes@[k].node_type == genotype.nodes@[k].node_type
                        &&& nodes@[k].links@ == incoming(genotype.nodes@, genotype.links@.take(t as int), k)
                    },
                forall|k: int, e: int|
                    0 <= k < nodes@.len() && 0 <= e < nodes@[k].links@.len() ==> {
                        let l = #[trigger] nodes@[k].links@[e];
                        &&& l.source_index < nodes@.len()
                        &&& genotype.nodes@[l.source_index as int].number == l.source_node
                    },
            decreases genotype.links@.len() - t,
        {
            let l = genotype.links[t];
            let src = find_node(&genotype.nodes, l.input_node);
            let dst = find_node(&genotype.nodes, l.output_node);
            proof {
                assert(genotype.links@.take(t as int + 1).drop_last() =~= genotype.links@.take(t as int));
            }
            match (src, dst) {
                (Some(s), Some(d)) => {
                    if !l.disabled {
                        let ghost before = nodes@;
                        nodes[d].links.push(PhenoLinks { source_node: l.input_node, source_index: s, weight_bits: l.weight_bits });
                        proof {
                            assert forall|k: int| 0 <= k < nodes@.len() && k != d implies (#[trigger] nodes@[k]) == before[k] by {}
                        }
                    }
                },
                _ => {
                    return Err(PhenotypeError::UnknownNodeReference);
                },
            }
            t = t + 1;
        }
        proof {
            assert(genotype.links@.take(t as int) =~= genotype.links@);
        }
        Ok(Phenotype { nodes })
    }
}

} // verus!
