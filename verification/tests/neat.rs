//! Tests for the NEAT core: construction counts, compilation order,
//! evaluation values, persistence round trips and speciation.
use neaters::NeuralNetwork;
use neaters::Solver;
use neaters::config::Config;
use neaters::phenotype::Phenotype;
use neaters::phenotype::sigmoid;
use neaters::NeatError;

/// The reference activation, computed with the hardware float unit: the
/// library's software-float result must match it exactly.
fn sigmoid_ref(x: f32) -> f32 {
    x / (1.0 + x.abs())
}

#[test]
fn create_neural_network() {
    let nn = NeuralNetwork::with_size(1, 1);
    assert_eq!(nn.nodes.len(), 3);
    assert_eq!(nn.edges.len(), 2);
    let nn = NeuralNetwork::with_size(4, 3);
    assert_eq!(nn.nodes.len(), 8);
    assert_eq!(nn.edges.len(), 15);
}

#[test]
fn create_solver() {
    let _ = Solver::with_size(1, 1, 1);
}

#[test]
fn create_phenotype() {
    let nn = NeuralNetwork::with_size(3, 2);
    let pt = Phenotype::from_nn(&nn).unwrap();
    // Inputs first (bias and three inputs), then the two outputs: the
    // traversal yields the identity order for a fresh genome.
    assert_eq!(pt.topo_order, vec![0, 1, 2, 3, 4, 5]);
}

#[test]
fn compute_with_phenotype() {
    let nn = NeuralNetwork::with_size(1, 1);
    let mut pt = Phenotype::from_nn(&nn).unwrap();
    let res = pt.compute(vec![0.5f32.to_bits()]).unwrap();
    // Per the evaluation algorithm: every node value, the bias and the
    // input included, passes through the activation exactly once before it
    // propagates along weight-one edges.
    let bias_v = sigmoid_ref(1.0);
    let in_v = sigmoid_ref(0.5);
    let out_v = sigmoid_ref(bias_v + in_v);
    assert_eq!(
        pt.node_value_array,
        vec![bias_v.to_bits(), in_v.to_bits(), out_v.to_bits()]
    );
    assert_eq!(res, vec![out_v.to_bits()]);
}

#[test]
fn compute() {
    let mut nn = NeuralNetwork::with_size(1, 1);
    let res = nn.compute(vec![0.5f32.to_bits()]).unwrap();
    let expected = sigmoid_ref(sigmoid_ref(1.0) + sigmoid_ref(0.5));
    assert_eq!(res, vec![expected.to_bits()]);
    let mut nn2 = NeuralNetwork::with_size(2, 3);
    let inputs = vec![0.5f32.to_bits(), 1.5f32.to_bits()];
    let res2 = nn2.compute(inputs.clone()).unwrap();
    let e2 = sigmoid_ref(sigmoid_ref(1.0) + sigmoid_ref(0.5) + sigmoid_ref(1.5));
    assert_eq!(res2, vec![e2.to_bits(), e2.to_bits(), e2.to_bits()]);
    // Reusing the cached phenotype with identical inputs yields identical
    // outputs.
    let res3 = nn2.compute(inputs).unwrap();
    assert_eq!(res3, res2);
}

#[test]
fn compute_rejects_wrong_arity() {
    let mut nn = NeuralNetwork::with_size(2, 1);
    assert!(matches!(
        nn.compute(vec![0.5f32.to_bits()]),
        Err(NeatError::InputArityMismatch)
    ));
    assert!(matches!(
        nn.compute(vec![0, 0, 0]),
        Err(NeatError::InputArityMismatch)
    ));
}

#[test]
fn compile_rejects_dangling_edge() {
    let mut nn = NeuralNetwork::with_size(1, 1);
    nn.edges[1].to = 99;
    assert!(matches!(Phenotype::from_nn(&nn), Err(NeatError::InvalidGenome)));
}

#[test]
fn compile_is_deterministic() {
    let nn = NeuralNetwork::with_size(3, 2);
    let p1 = Phenotype::from_nn(&nn).unwrap();
    let p2 = Phenotype::from_nn(&nn).unwrap();
    assert_eq!(p1.edges, p2.edges);
    assert_eq!(p1.outputs, p2.outputs);
    assert_eq!(p1.topo_order, p2.topo_order);
}

#[test]
fn sigmoid_matches_reference() {
    for x in [0.0f32, 0.5, 1.0, -2.25, 3.75, 100.0, -0.125] {
        assert_eq!(sigmoid(x.to_bits()), sigmoid_ref(x).to_bits());
    }
}

#[test]
fn genome_roundtrip() {
    let mut nn = NeuralNetwork::with_size(3, 2);
    nn.fitness = 1.25f32.to_bits();
    let bytes = nn.as_byte_representation();
    let nn2 = NeuralNetwork::create_from_bytes(&bytes).unwrap();
    assert_eq!(nn2.nodes, nn.nodes);
    assert_eq!(nn2.edges, nn.edges);
    assert_eq!(nn2.id, nn.id);
    assert_eq!(nn2.size, nn.size);
    assert_eq!(nn2.fitness, nn.fitness);
    assert_eq!(nn2.as_byte_representation(), bytes);
    // The cache must not affect the encoding: a computed genome still
    // round-trips to the same structure.
    let mut nn3 = NeuralNetwork::create_from_bytes(&bytes).unwrap();
    nn3.compute(vec![0, 0, 0]).unwrap();
    assert_eq!(nn3.as_byte_representation(), bytes);
    // Two structurally different genomes encode differently.
    let other = NeuralNetwork::with_size(4, 3);
    assert_ne!(other.as_byte_representation(), bytes);
}

#[test]
fn genome_decode_rejects_malformed_bytes() {
    let nn = NeuralNetwork::with_size(1, 1);
    let mut bytes = nn.as_byte_representation();
    // Trailing garbage is rejected: the load is atomic.
    bytes.push(0);
    assert!(matches!(
        NeuralNetwork::create_from_bytes(&bytes),
        Err(NeatError::DecodeError)
    ));
    // A truncated representation is rejected.
    let bytes2 = nn.as_byte_representation()[..9].to_vec();
    assert!(matches!(
        NeuralNetwork::create_from_bytes(&bytes2),
        Err(NeatError::DecodeError)
    ));
    // Garbage is rejected.
    assert!(matches!(
        NeuralNetwork::create_from_bytes(&vec![7u8; 40]),
        Err(NeatError::DecodeError)
    ));
}

#[test]
fn solver_roundtrip() {
    let mut sv = Solver::with_size(3, 2, 2);
    sv.networks[1].fitness = 2.5f32.to_bits();
    sv.new_generation();
    let bytes = sv.as_byte_representation();
    let sv2 = Solver::create_from_bytes(&bytes).unwrap();
    assert_eq!(sv2.network_size, sv.network_size);
    assert_eq!(sv2.generation_size, sv.generation_size);
    assert_eq!(sv2.generation, sv.generation);
    assert_eq!(sv2.distance_threshold, sv.distance_threshold);
    assert_eq!(sv2.networks.len(), sv.networks.len());
    for (a, b) in sv2.networks.iter().zip(sv.networks.iter()) {
        assert_eq!(a.nodes, b.nodes);
        assert_eq!(a.edges, b.edges);
        assert_eq!(a.id, b.id);
        assert_eq!(a.fitness, b.fitness);
    }
    assert_eq!(sv2.species.len(), sv.species.len());
    for (a, b) in sv2.species.iter().zip(sv.species.iter()) {
        assert_eq!(a.members, b.members);
        assert_eq!(a.representative.edges, b.representative.edges);
    }
    assert_eq!(sv2.as_byte_representation(), bytes);
    // Two different solvers encode differently.
    let other = Solver::with_size(4, 3, 3);
    assert_ne!(other.as_byte_representation(), bytes);
}

#[test]
fn average_fitness_and_best_network() {
    let mut sv = Solver::with_size(1, 1, 3);
    sv.networks[0].fitness = 1.0f32.to_bits();
    sv.networks[1].fitness = 3.0f32.to_bits();
    sv.networks[2].fitness = 2.0f32.to_bits();
    assert_eq!(sv.average_fitness(), 2.0f32.to_bits());
    assert_eq!(sv.best_network().id, 1);
    // Ties are resolved by keeping the first encountered.
    sv.networks[2].fitness = 3.0f32.to_bits();
    assert_eq!(sv.best_network().id, 1);
}

#[test]
fn neural_nets_gives_mutable_access() {
    let mut sv = Solver::with_size(1, 1, 2);
    for nn in sv.neural_nets().iter_mut() {
        let out = nn.compute(vec![0.1f32.to_bits()]).unwrap();
        nn.fitness = out[0];
    }
    let expected = sigmoid_ref(sigmoid_ref(1.0) + sigmoid_ref(0.1)).to_bits();
    assert_eq!(sv.networks[0].fitness, expected);
    assert_eq!(sv.networks[1].fitness, expected);
}

#[test]
fn identical_structure_has_distance_zero() {
    let a = NeuralNetwork::with_size(2, 2);
    let b = NeuralNetwork::with_size_and_id(2, 2, 7);
    let d = Solver::distance(&Config::default(), &a, &b);
    assert_eq!(d, 0.0f32.to_bits());
}

#[test]
fn new_generation_regroups_population() {
    let mut sv = Solver::with_size(1, 1, 3);
    sv.new_generation();
    // Every fresh genome is identical in structure to the initial
    // representative, so all of them join the first species and no species
    // is left empty.
    assert_eq!(sv.species.len(), 1);
    assert_eq!(sv.species[0].members, vec![0, 1, 2]);
    assert_eq!(sv.generation, 1);
    // Every population id is in exactly one species after another pass.
    sv.new_generation();
    let mut seen = vec![0usize; 3];
    for sp in sv.species.iter() {
        assert!(!sp.members.is_empty());
        for id in sp.members.iter() {
            seen[*id] += 1;
        }
    }
    assert_eq!(seen, vec![1, 1, 1]);
    assert_eq!(sv.generation, 2);
}

#[test]
fn distance_counts_excess_disjoint_and_weights() {
    // Two two-edge genomes: the second genome's last edge gets a new
    // innovation number, making it excess against the first genome's range.
    let a = NeuralNetwork::with_size(1, 1);
    let mut b = NeuralNetwork::with_size_and_id(1, 1, 1);
    b.edges[1].innovation = 5;
    b.edges[1].weight = 2.0f32.to_bits();
    // Both of the first genome's edges match innovation zero, with equal
    // weights; the second genome has one excess edge; nothing is disjoint;
    // the larger edge count is two. The distance is 1 * 1/2 + 1 * 0/2 + 1 * 0.
    let d = Solver::distance(&Config::default(), &a, &b);
    assert_eq!(d, 0.5f32.to_bits());
    // Changing a weight moves the mean absolute difference term: both of
    // the first genome's edges align with the first innovation-zero edge of
    // the third genome, so both pairs differ by 0.25.
    let mut c = NeuralNetwork::with_size_and_id(1, 1, 2);
    c.edges[0].weight = 1.25f32.to_bits();
    let d2 = Solver::distance(&Config::default(), &a, &c);
    assert_eq!(d2, 0.25f32.to_bits());
}

#[test]
fn species_membership_and_phenotype_reuse() {
    let nn = NeuralNetwork::with_size_and_id(1, 1, 4);
    let mut sp = neaters::species::Species::new_with_network(nn);
    assert_eq!(sp.members, vec![4]);
    assert!(!sp.is_unused());
    sp.clear();
    assert!(sp.is_unused());
    assert_eq!(sp.representative.id, 4);
    // A phenotype is reusable: reset clears only the value buffer, and a
    // second pass over the same compiled structure gives the same outputs.
    let mut pt = Phenotype::from_nn(&sp.representative).unwrap();
    let r1 = pt.compute(vec![0.25f32.to_bits()]).unwrap();
    pt.reset();
    assert!(pt.node_value_array.is_empty());
    let r2 = pt.compute(vec![0.25f32.to_bits()]).unwrap();
    assert_eq!(r1, r2);
}
