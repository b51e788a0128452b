use neat_engine::evaluation::Signal;
use neat_engine::genotype::{Genotype, GenotypeError, Link, Node, NodeType, UNIT_WEIGHT_BITS};
use neat_engine::phenotype::{Phenotype, PhenotypeError};

#[derive(Clone, Copy, Debug, PartialEq)]
struct Real(f64);

impl Signal for Real {
    fn spec_bias() -> Self {
        Real::bias()
    }
    fn spec_zero() -> Self {
        Real::zero()
    }
    fn spec_activation(self) -> Self {
        self.activation()
    }
    fn spec_weighted(self, weight_bits: u64) -> Self {
        self.weighted(weight_bits)
    }
    fn spec_plus(self, other: Self) -> Self {
        self.plus(other)
    }
    fn bias() -> Self {
        Real(1.0)
    }
    fn zero() -> Self {
        Real(0.0)
    }
    fn activation(self) -> Self {
        Real(sigmoid(self.0))
    }
    fn weighted(self, weight_bits: u64) -> Self {
        Real(self.0 * f64::from_bits(weight_bits))
    }
    fn plus(self, other: Self) -> Self {
        Real(self.0 + other.0)
    }
}

fn sigmoid(x: f64) -> f64 {
    1.0 / (1.0 + (-x).exp())
}

fn reals(values: &[f64]) -> Vec<Real> {
    values.iter().map(|v| Real(*v)).collect()
}

fn link(from: u32, to: u32, weight: f64, disabled: bool) -> Link {
    Link { input_node: from, output_node: to, disabled, weight_bits: weight.to_bits(), innovation_number: 0 }
}

fn node(number: u32, node_type: NodeType) -> Node {
    Node { number, node_type }
}

#[test]
fn new_genotype_has_bias_inputs_outputs_and_full_links() {
    let g = Genotype::new(3, 2);
    let inputs = g.nodes.iter().filter(|n| n.node_type == NodeType::Input).count();
    let outputs = g.nodes.iter().filter(|n| n.node_type == NodeType::Output).count();
    let hidden = g.nodes.iter().filter(|n| n.node_type == NodeType::Hidden).count();
    assert_eq!((inputs, outputs, hidden), (4, 2, 0));
    let numbers: Vec<u32> = g.nodes.iter().map(|n| n.number).collect();
    assert_eq!(numbers, vec![0, 1, 2, 3, 4, 5]);
    assert_eq!(g.links.len(), 8);
    for l in g.links.iter() {
        assert!(!l.disabled);
        assert_eq!(f64::from_bits(l.weight_bits), 1.0);
        assert_eq!(l.innovation_number, 0);
    }
    assert_eq!(g.links[3], link(1, 5, 1.0, false));
    assert_eq!(g.links[6], link(3, 4, 1.0, false));
}

#[test]
fn new_genotype_without_outputs_has_no_links() {
    let g = Genotype::new(2, 0);
    assert_eq!(g.nodes.len(), 3);
    assert!(g.links.is_empty());
    let g = Genotype::new(0, 0);
    assert_eq!(g.nodes, vec![node(0, NodeType::Input)]);
}

#[test]
fn unit_weight_is_one() {
    assert_eq!(f64::from_bits(UNIT_WEIGHT_BITS), 1.0);
}

#[test]
fn phenotype_gathers_enabled_incoming_links() {
    let p = Phenotype::from_genotype(Genotype::new(3, 2)).unwrap();
    assert_eq!(p.nodes.len(), 6);
    for k in 0..4 {
        assert!(p.nodes[k].links.is_empty());
    }
    for k in 4..6 {
        let sources: Vec<u32> = p.nodes[k].links.iter().map(|l| l.source_node).collect();
        assert_eq!(sources, vec![0, 1, 2, 3]);
        let indices: Vec<usize> = p.nodes[k].links.iter().map(|l| l.source_index).collect();
        assert_eq!(indices, vec![0, 1, 2, 3]);
    }
}

#[test]
fn disabled_link_is_left_out() {
    let g = Genotype {
        nodes: vec![node(0, NodeType::Input), node(1, NodeType::Input), node(2, NodeType::Output)],
        links: vec![link(0, 2, 0.5, false), link(1, 2, 1000.0, true)],
    };
    let mut p = Phenotype::from_genotype(g).unwrap();
    assert_eq!(p.nodes[2].links.len(), 1);
    assert_eq!(p.nodes[2].links[0].source_node, 0);
    let with_disabled = p.feed(reals(&[5.0])).unwrap();
    let g2 = Genotype {
        nodes: vec![node(0, NodeType::Input), node(1, NodeType::Input), node(2, NodeType::Output)],
        links: vec![link(0, 2, 0.5, false)],
    };
    let mut p2 = Phenotype::from_genotype(g2).unwrap();
    let without = p2.feed(reals(&[5.0])).unwrap();
    assert_eq!(with_disabled, without);
    assert_eq!(with_disabled[0].0, sigmoid(sigmoid(1.0) * 0.5));
}

#[test]
fn unknown_node_is_reported() {
    let g = Genotype {
        nodes: vec![node(0, NodeType::Input), node(1, NodeType::Output)],
        links: vec![link(0, 7, 1.0, false)],
    };
    assert_eq!(Phenotype::from_genotype(g).unwrap_err(), PhenotypeError::UnknownNodeReference);
    let g = Genotype {
        nodes: vec![node(0, NodeType::Input), node(1, NodeType::Output)],
        links: vec![link(9, 1, 1.0, true)],
    };
    assert_eq!(Phenotype::from_genotype(g).unwrap_err(), PhenotypeError::UnknownNodeReference);
}

#[test]
fn three_inputs_two_outputs_all_ones() {
    let mut p = Phenotype::from_genotype(Genotype::new(3, 2)).unwrap();
    let outs = p.feed(reals(&[1.0, 1.0, 1.0])).unwrap();
    let expected = sigmoid(sigmoid(1.0) * 1.0 * 4.0);
    assert_eq!(outs.len(), 2);
    for o in outs.iter() {
        assert!((o.0 - expected).abs() < 1e-12);
    }
}

#[test]
fn feeding_twice_gives_identical_results() {
    let mut p = Phenotype::from_genotype(Genotype::new(3, 2)).unwrap();
    let first = p.feed(reals(&[0.25, -1.5, 3.0])).unwrap();
    let second = p.feed(reals(&[0.25, -1.5, 3.0])).unwrap();
    assert_eq!(first.len(), second.len());
    for (a, b) in first.iter().zip(second.iter()) {
        assert_eq!(a.0.to_bits(), b.0.to_bits());
    }
}

#[test]
fn bias_drives_outputs_on_zero_inputs() {
    let mut p = Phenotype::from_genotype(Genotype::new(3, 1)).unwrap();
    let outs = p.feed(reals(&[0.0, 0.0, 0.0])).unwrap();
    assert_eq!(outs.len(), 1);
    assert!(outs[0].0 != 0.0);
    let expected = sigmoid(sigmoid(1.0) + 3.0 * sigmoid(0.0));
    assert!((outs[0].0 - expected).abs() < 1e-12);
}

#[test]
fn shared_hidden_node_is_resolved_once() {
    let g = Genotype {
        nodes: vec![
            node(0, NodeType::Input),
            node(1, NodeType::Input),
            node(2, NodeType::Output),
            node(3, NodeType::Output),
            node(4, NodeType::Hidden),
        ],
        links: vec![link(1, 4, 2.0, false), link(4, 2, 1.0, false), link(4, 3, -1.0, false)],
    };
    let mut p = Phenotype::from_genotype(g).unwrap();
    let order = p.resolution_order().unwrap();
    assert_eq!(order, vec![4, 2, 3]);
    let outs = p.feed(reals(&[0.5])).unwrap();
    let hidden = sigmoid(sigmoid(0.5) * 2.0);
    assert!((outs[0].0 - sigmoid(hidden)).abs() < 1e-12);
    assert!((outs[1].0 - sigmoid(-hidden)).abs() < 1e-12);
}

#[test]
fn cycle_is_reported() {
    let g = Genotype {
        nodes: vec![
            node(0, NodeType::Input),
            node(1, NodeType::Output),
            node(2, NodeType::Hidden),
            node(3, NodeType::Hidden),
        ],
        links: vec![link(0, 2, 1.0, false), link(3, 2, 1.0, false), link(2, 3, 1.0, false), link(3, 1, 1.0, false)],
    };
    let mut p = Phenotype::from_genotype(g).unwrap();
    assert_eq!(p.resolution_order().unwrap_err(), PhenotypeError::CyclicTopologyError);
    assert_eq!(p.feed(reals(&[])).unwrap_err(), PhenotypeError::CyclicTopologyError);
}

#[test]
fn self_loop_is_reported() {
    let g = Genotype {
        nodes: vec![node(0, NodeType::Input), node(1, NodeType::Output)],
        links: vec![link(0, 1, 1.0, false), link(1, 1, 1.0, false)],
    };
    let mut p = Phenotype::from_genotype(g).unwrap();
    assert_eq!(p.feed(reals(&[])).unwrap_err(), PhenotypeError::CyclicTopologyError);
}

#[test]
fn disabled_cycle_is_harmless() {
    let g = Genotype {
        nodes: vec![node(0, NodeType::Input), node(1, NodeType::Output)],
        links: vec![link(0, 1, 1.0, false), link(1, 1, 1.0, true)],
    };
    let mut p = Phenotype::from_genotype(g).unwrap();
    let outs = p.feed(reals(&[])).unwrap();
    assert!((outs[0].0 - sigmoid(sigmoid(1.0))).abs() < 1e-12);
}

#[test]
fn wrong_input_length_is_reported() {
    let mut p = Phenotype::from_genotype(Genotype::new(3, 2)).unwrap();
    assert_eq!(p.feed(reals(&[1.0, 1.0])).unwrap_err(), PhenotypeError::InputLengthMismatch);
    assert_eq!(p.feed(reals(&[1.0, 1.0, 1.0, 1.0])).unwrap_err(), PhenotypeError::InputLengthMismatch);
    assert!(p.accepts_inputs(3));
    assert!(!p.accepts_inputs(2));
}

#[test]
fn outputs_come_in_ascending_number() {
    let g = Genotype {
        nodes: vec![node(9, NodeType::Output), node(0, NodeType::Input), node(4, NodeType::Output)],
        links: vec![link(0, 9, 2.0, false), link(0, 4, -3.0, false)],
    };
    let mut p = Phenotype::from_genotype(g).unwrap();
    assert_eq!(p.output_indices(), vec![2, 0]);
    let outs = p.feed(reals(&[])).unwrap();
    assert!((outs[0].0 - sigmoid(sigmoid(1.0) * -3.0)).abs() < 1e-12);
    assert!((outs[1].0 - sigmoid(sigmoid(1.0) * 2.0)).abs() < 1e-12);
}

#[test]
fn genotype_error_has_a_message() {
    assert_eq!(
        GenotypeError::FileNotFound.message(),
        "There has been an error writing or reading the genotype"
    );
}

#[test]
fn lone_bias_link_ignores_true_inputs() {
    let g = Genotype {
        nodes: vec![node(0, NodeType::Input), node(1, NodeType::Input), node(2, NodeType::Input), node(3, NodeType::Output)],
        links: vec![link(0, 3, -2.5, false)],
    };
    let mut p = Phenotype::from_genotype(g).unwrap();
    let a = p.feed(reals(&[7.0, -3.0])).unwrap();
    let b = p.feed(reals(&[0.0, 100.0])).unwrap();
    assert_eq!(a[0].0.to_bits(), b[0].0.to_bits());
    assert_eq!(a[0].0, sigmoid(sigmoid(1.0) * -2.5));
}

#[test]
fn earlier_calls_do_not_leak() {
    let fresh = Phenotype::from_genotype(Genotype::new(2, 2)).unwrap();
    let mut used = fresh.clone();
    used.feed(reals(&[9.0, -9.0])).unwrap();
    used.feed(reals(&[0.5, 0.25])).unwrap();
    let mut fresh = fresh;
    let a = fresh.feed(reals(&[1.0, 2.0])).unwrap();
    let b = used.feed(reals(&[1.0, 2.0])).unwrap();
    assert_eq!(a, b);
}
