use vstd::prelude::*;

verus! {

/// The bit pattern of the IEEE-754 binary64 number `1.0`, the weight of every
/// link of a new genotype.
pub const UNIT_WEIGHT_BITS: u64 = 0x3FF0_0000_0000_0000;

/// A weighted connection from one node to another.
///
/// The weight is held as the bit pattern of an IEEE-754 binary64 number, so
/// that it is carried through unchanged, to the last bit.
#[derive(Clone, Copy, PartialEq, Eq, Debug, Structural)]
pub struct Link {
    pub input_node: u32,
    pub output_node: u32,
    pub disabled: bool,
    pub weight_bits: u64,
    pub innovation_number: u32,
}

/// A node of the network, identified by its number.
#[derive(Clone, Copy, PartialEq, Eq, Debug, Structural)]
pub struct Node {
    pub number: u32,
    pub node_type: NodeType,
}

#[derive(Clone, Copy, PartialEq, Eq, Debug, Structural)]
pub enum NodeType {
    Input,
    Hidden,
    Output,
}

/// The description of a network: its nodes and its links.
#[derive(Clone, Debug)]
pub struct Genotype {
    pub nodes: Vec<Node>,
    pub links: Vec<Link>,
}

/// Why a genotype could not be written or read.
#[derive(Clone, Copy, PartialEq, Eq, Debug, Structural)]
pub enum GenotypeError {
    FileNotFound,
    FileSystemError,
    SerializingError,
    DeserializingError,
}

impl GenotypeError {
    /// The message shown for every such error.
    pub fn message(&self) -> (r: String)
        ensures
            r@ == "There has been an error writing or reading the genotype"@,
    {
        String::from_str("There has been an error writing or reading the genotype")
    }
}

/// The enabled link of unit weight from node `i` to node `j` that a new genotype holds.
pub open spec fn initial_link(i: int, j: int) -> Link {
    Link {
        input_node: i as u32,
        output_node: j as u32,
        disabled: false,
        weight_bits: UNIT_WEIGHT_BITS,
        innovation_number: 0,
    }
}

/// The nodes of a new genotype: inputs `0..=n` (node 0 is the bias), then
/// outputs `n + 1..=n + m`.
pub open spec fn initial_nodes(n: int, m: int) -> Seq<Node> {
    Seq::new(
        (n + 1 + m) as nat,
        |k: int|
            Node { number: k as u32, node_type: if k <= n { NodeType::Input } else { NodeType::Output } },
    )
}

/// How many of `nodes` are of type `t`.
pub open spec fn count_of_type(nodes: Seq<Node>, t: NodeType) -> nat
    decreases nodes.len(),
{
    if nodes.len() == 0 {
        0
    } else {
        count_of_type(nodes.drop_last(), t) + if nodes.last().node_type == t {
            1nat
        } else {
            0nat
        }
    }
}

proof fn lemma_initial_counts(n: int, m: int, j: int)
    requires
        0 <= n,
        0 <= m,
        0 <= j <= n + 1 + m,
    ensures
        count_of_type(initial_nodes(n, m).take(j), NodeType::Input) == if j <= n + 1 { j } else { n + 1 },
        count_of_type(initial_nodes(n, m).take(j), NodeType::Output) == if j <= n + 1 { 0 } else { j - n - 1 },
        count_of_type(initial_nodes(n, m).take(j), NodeType::Hidden) == 0,
    decreases j,
{
    if j > 0 {
        lemma_initial_counts(n, m, j - 1);
        assert(initial_nodes(n, m).take(j).drop_last() =~= initial_nodes(n, m).take(j - 1));
    }
}

proof fn lemma_slot(a: int, b: int, i: int, m: int)
    requires
        0 <= a < i,
        0 <= b < m,
    ensures
        0 <= a * m + b < i * m,
        a * m <= a * m + b,
{
    assert(a * m + b < (a + 1) * m) by (nonlinear_arith)
        requires
            0 <= b < m,
    ;
    assert((a + 1) * m <= i * m) by (nonlinear_arith)
        requires
            a + 1 <= i,
            0 <= b < m,
    ;
    assert(0 <= a * m) by (nonlinear_arith)
        requires
            0 <= a,
            0 <= b < m,
    ;
}

impl Genotype {
    /// A network with `num_of_input` inputs, one bias input and
    /// `num_of_output` outputs, every input (the bias too) linked to every
    /// output with weight `1.0`.
    ///
    /// The link from input `i` to output `num_of_input + 1 + j` stands at
    /// position `i * num_of_output + j`.
    pub fn new(num_of_input: u32, num_of_output: u32) -> (g: Genotype)
        requires
            num_of_input + num_of_output < u32::MAX,
        ensures
            g.nodes@ == initial_nodes(num_of_input as int, num_of_output as int),
            count_of_type(g.nodes@, NodeType::Input) == num_of_input + 1,
            count_of_type(g.nodes@, NodeType::Output) == num_of_output,
            count_of_type(g.nodes@, NodeType::Hidden) == 0,
            g.links@.len() == (num_of_input + 1) * num_of_output,
            forall|i: int, j: int|
                0 <= i <= num_of_input && 0 <= j < num_of_output ==> #[trigger] g.links@[i
                    * num_of_output + j] == initial_link(i, num_of_input + 1 + j),
            forall|k: int|
                0 <= k < g.links@.len() ==> !(#[trigger] g.links@[k]).disabled && g.links@[k].weight_bits
                    == UNIT_WEIGHT_BITS,
    {
        let n = num_of_input;
        let m = num_of_output;
        let mut nodes: Vec<Node> = Vec::new();
        let mut i: u32 = 0;
        while i < n + 1
            invariant
                i <= n + 1,
                n + m < u32::MAX,
                nodes@ =~= initial_nodes(n as int, m as int).take(i as int),
            decreases n + 1 - i,
        {
            nodes.push(Node { number: i, node_type: NodeType::Input });
            i = i + 1;
        }
        let mut k: u32 = n + 1;
        while k < n + m + 1
            invariant
                n + 1 <= k <= n + m + 1,
                n + m < u32::MAX,
                nodes@ =~= initial_nodes(n as int, m as int).take(k as int),
            decreases n + m + 1 - k,
        {
            nodes.push(Node { number: k, node_type: NodeType::Output });
            k = k + 1;
        }
        let mut links: Vec<Link> = Vec::new();
        let mut i: u32 = 0;
        while i < n + 1
            invariant
                i <= n + 1,
                n + m < u32::MAX,
                links@.len() == i * m,
                forall|a: int, b: int|
                    0 <= a < i && 0 <= b < m ==> #[trigger] links@[a * m + b] == initial_link(a, n + 1 + b),
                forall|k: int|
                    0 <= k < links@.len() ==> !(#[trigger] links@[k]).disabled && links@[k].weight_bits
                        == UNIT_WEIGHT_BITS,
            decreases n + 1 - i,
        {
            let mut j: u32 = 0;
            while j < m
                invariant
                    i < n + 1,
                    j <= m,
                    n + m < u32::MAX,
                    links@.len() == i * m + j,
                    forall|a: int, b: int|
                        (0 <= a < i && 0 <= b < m) || (a == i && 0 <= b < j) ==> #[trigger] links@[a * m
                            + b] == initial_link(a, n + 1 + b),
                    forall|k: int|
                        0 <= k < links@.len() ==> !(#[trigger] links@[k]).disabled && links@[k].weight_bits
                            == UNIT_WEIGHT_BITS,
                decreases m - j,
            {
                let ghost before = links@;
                links.push(
                    Link {
                        disabled: false,
                        innovation_number: 0,
                        weight_bits: UNIT_WEIGHT_BITS,
                        input_node: i,
                        output_node: n + 1 + j,
                    },
                );
                proof {
                    assert forall|a: int, b: int|
                        (0 <= a < i && 0 <= b < m) || (a == i && 0 <= b < j + 1) implies #[trigger] links@[a
                        * m + b] == initial_link(a, n + 1 + b) by {
                        if a < i {
                            lemma_slot(a, b, i as int, m as int);
                            assert(links@[a * m + b] == before[a * m + b]);
                        } else if b < j {
                            assert(links@[a * m + b] == before[a * m + b]);
                        }
                    }
                }
                j = j + 1;
            }
            proof {
                assert((i + 1) * m == i * m + m) by (nonlinear_arith);
            }
            i = i + 1;
        }
        proof {
            lemma_initial_counts(n as int, m as int, n + 1 + m);
            assert(initial_nodes(n as int, m as int).take(n + 1 + m) =~= initial_nodes(n as int, m as int));
        }
        Genotype { nodes, links }
    }
}

} // verus!
