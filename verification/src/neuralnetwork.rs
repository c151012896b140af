//! The genome data model: nodes, edges and the network that owns them.
use vstd::prelude::*;

use crate::NeatError;
use crate::phenotype::{Phenotype, compiles_to, edges_resolvable, id_map_of, lemma_id_map_of_dense,
    spec_genome_outputs};

verus! {

/// The bit pattern of the binary32 value one, the weight of every default
/// edge and the value of the always-on bias node.
pub const ONE_BITS: u32 = 0x3F80_0000;

/// The bit pattern of binary32 positive zero, the initial fitness score.
pub const ZERO_BITS: u32 = 0x0000_0000;

/// The role of a node: one of Input, Hidden, Output.
#[derive(Debug, Clone, Copy, PartialEq, Eq, Structural)]
pub enum NodeType {
    /// A node whose value is set at the start of the computation. The number
    /// of input nodes is fixed when a network is created.
    Input,
    /// A node in the middle of the network, connected to other hidden nodes
    /// as well as output nodes.
    Hidden,
    /// A node from which a final result of the computation is read. The
    /// number of output nodes is fixed when a network is created.
    Output,
}

/// A node of the network: a stable integer id plus its role.
#[derive(Debug, Clone, Copy, PartialEq, Eq, Structural)]
pub struct Node {
    /// The id of the node. Ids are dense: the node at position `k` of a
    /// well-formed genome has id `k`.
    pub id: usize,
    /// The role of the node.
    pub node_type: NodeType,
}

impl Node {
    /// Constructor for an input node with the given id.
    pub fn input_with_id(id: usize) -> (r: Self)
        ensures
            r == (Node { id, node_type: NodeType::Input }),
    {
        Node { id, node_type: NodeType::Input }
    }

    /// Constructor for an output node with the given id.
    pub fn output_with_id(id: usize) -> (r: Self)
        ensures
            r == (Node { id, node_type: NodeType::Output }),
    {
        Node { id, node_type: NodeType::Output }
    }
}

/// A directed, weighted connection between two nodes, identified across
/// genomes by its innovation number.
#[derive(Debug, Clone, Copy, PartialEq, Eq, Structural)]
pub struct Edge {
    /// Id of the source node.
    pub from: usize,
    /// Id of the destination node.
    pub to: usize,
    /// The weight of the edge, as a binary32 bit pattern.
    pub weight: u32,
    /// Whether the edge takes part in phenotype compilation. Disabled edges
    /// are kept in the genome so they can be re-enabled later.
    pub enabled: bool,
    /// The structural-lineage marker: edges with equal innovation numbers
    /// are homologous across genomes.
    pub innovation: usize,
}

impl Edge {
    /// Constructor for a default edge: weight one, enabled, innovation zero.
    pub(crate) fn initial_from_to(from: usize, to: usize) -> (r: Self)
        ensures
            r == (Edge { from, to, weight: ONE_BITS, enabled: true, innovation: 0 }),
    {
        Edge { from, to, weight: ONE_BITS, enabled: true, innovation: 0 }
    }
}

/// The node sequence a freshly constructed genome carries: `inp + 1` input
/// nodes (the extra one is the bias node), then `out` output nodes, with
/// dense ids.
pub open spec fn initial_nodes(inp: nat, out: nat) -> Seq<Node> {
    Seq::new(
        inp + 1 + out,
        |k: int|
            Node {
                id: k as usize,
                node_type: if k <= inp {
                    NodeType::Input
                } else {
                    NodeType::Output
                },
            },
    )
}

/// The edge sequence a freshly constructed genome carries: one default edge
/// from every input node (bias included) to every output node, grouped by
/// source node.
pub open spec fn initial_edges(inp: nat, out: nat) -> Seq<Edge> {
    Seq::new(
        (inp + 1) * out,
        |k: int|
            Edge {
                from: (k / (out as int)) as usize,
                to: (inp + 1 + (k % (out as int))) as usize,
                weight: ONE_BITS,
                enabled: true,
                innovation: 0,
            },
    )
}

/// What a genome is, mathematically: its node and edge sequences, id, size
/// pair and fitness bit pattern. The phenotype cache is a derived value and
/// not part of it.
pub struct GenomeView {
    /// The node sequence.
    pub nodes: Seq<Node>,
    /// The edge sequence.
    pub edges: Seq<Edge>,
    /// The id within a population.
    pub id: usize,
    /// `(input count, output count)`.
    pub size: (usize, usize),
    /// The fitness score bit pattern.
    pub fitness: u32,
}

/// The genome: an evolvable node/edge graph with an id, its `(input, output)`
/// size pair, a fitness score, and a lazily compiled phenotype cache.
#[derive(Debug)]
pub struct NeuralNetwork {
    /// All nodes, inputs first, then outputs, then hidden nodes.
    pub nodes: Vec<Node>,
    /// All edges, enabled or not.
    pub edges: Vec<Edge>,
    /// Identifies the network within a solver, so fitness can be assigned to
    /// the exact network.
    pub id: usize,
    /// `(input count, output count)`; the bias node is not counted.
    pub size: (usize, usize),
    /// The fitness score written back by the caller, as a binary32 bit
    /// pattern.
    pub fitness: u32,
    /// The cached phenotype, rebuilt on demand; never a source of truth.
    pub pt: Option<Phenotype>,
}

impl View for NeuralNetwork {
    type V = GenomeView;

    open spec fn view(&self) -> GenomeView {
        GenomeView {
            nodes: self.nodes@,
            edges: self.edges@,
            id: self.id,
            size: self.size,
            fitness: self.fitness,
        }
    }
}

/// The structural well-formedness of a genome: dense node ids, inputs
/// first, then outputs, then hidden nodes, and every edge endpoint names an
/// existing node.
pub open spec fn genome_wf(g: GenomeView) -> bool {
    let inp = g.size.0 as int;
    let out = g.size.1 as int;
    &&& g.nodes.len() >= inp + 1 + out
    &&& forall|k: int| 0 <= k < g.nodes.len() ==> (#[trigger] g.nodes[k]).id == k
    &&& forall|k: int|
        0 <= k < g.nodes.len() ==> (#[trigger] g.nodes[k]).node_type == (if k <= inp {
            NodeType::Input
        } else if k <= inp + out {
            NodeType::Output
        } else {
            NodeType::Hidden
        })
    &&& forall|k: int|
        0 <= k < g.edges.len() ==> (#[trigger] g.edges[k]).from < g.nodes.len() && g.edges[k].to
            < g.nodes.len()
}

impl NeuralNetwork {
    /// The structural well-formedness of the genome.
    pub open spec fn wf_structure(self) -> bool {
        genome_wf(self@)
    }

    /// Constructor for a network with the given numbers of input and output
    /// nodes and the given id.
    ///
    /// One extra input node is always added: the bias node, whose value is
    /// the constant one during computation, so that the network can produce
    /// a signal even when every supplied input is zero. Every input node
    /// (bias included) starts with a default edge of weight one to every
    /// output node.
    pub fn with_size_and_id(input_nodes: usize, output_nodes: usize, id: usize) -> (r: Self)
        requires
            input_nodes + 1 + output_nodes <= usize::MAX,
            (input_nodes + 1) * output_nodes <= usize::MAX,
        ensures
            r.nodes@ == initial_nodes(input_nodes as nat, output_nodes as nat),
            r.edges@ == initial_edges(input_nodes as nat, output_nodes as nat),
            r.id == id,
            r.size == (input_nodes, output_nodes),
            r.fitness == ZERO_BITS,
            r.pt is None,
            r.wf_structure(),
    {
        let mut nodes: Vec<Node> = Vec::new();
        let mut edges: Vec<Edge> = Vec::new();
        let mut i: usize = 0;
        while i <= input_nodes
            invariant
                0 <= i <= input_nodes + 1,
                input_nodes + 1 + output_nodes <= usize::MAX,
                (input_nodes + 1) * output_nodes <= usize::MAX,
                nodes@ == initial_nodes(input_nodes as nat, output_nodes as nat).take(i as int),
                edges@ == initial_edges(input_nodes as nat, output_nodes as nat).take(
                    i * output_nodes,
                ),
            decreases input_nodes + 1 - i,
        {
            proof {
                assert(i * output_nodes <= input_nodes * output_nodes && (i + 1) * output_nodes <= (
                input_nodes + 1) * output_nodes && (i + 1) * output_nodes == i * output_nodes
                    + output_nodes) by (nonlinear_arith)
                    requires
                        0 <= i <= input_nodes,
                        0 <= output_nodes,
                ;
            }
            nodes.push(Node::input_with_id(i));
            let mut j: usize = input_nodes + 1;
            while j <= input_nodes + output_nodes
                invariant
                    input_nodes + 1 <= j <= input_nodes + 1 + output_nodes,
                    i <= input_nodes,
                    input_nodes + 1 + output_nodes <= usize::MAX,
                    (input_nodes + 1) * output_nodes <= usize::MAX,
                    i * output_nodes + output_nodes <= (input_nodes + 1) * output_nodes,
                    edges@ == initial_edges(input_nodes as nat, output_nodes as nat).take(
                        i * output_nodes + (j - input_nodes - 1),
                    ),
                decreases input_nodes + output_nodes + 1 - j,
            {
                let ghost k: int = i * output_nodes + (j - input_nodes - 1);
                edges.push(Edge::initial_from_to(i, j));
                proof {
                    lemma_initial_edge_at(
                        input_nodes as nat,
                        output_nodes as nat,
                        i as nat,
                        (j - input_nodes - 1) as nat,
                    );
                    assert(edges@ == initial_edges(input_nodes as nat, output_nodes as nat).take(
                        k + 1,
                    ));
                }
                j = j + 1;
            }
            i = i + 1;
            proof {
                assert(nodes@ == initial_nodes(input_nodes as nat, output_nodes as nat).take(
                    i as int,
                ));
            }
        }
        proof {
            assert(initial_nodes(input_nodes as nat, output_nodes as nat).take(
                input_nodes + 1 + output_nodes,
            ) =~= initial_nodes(input_nodes as nat, output_nodes as nat));
        }
        let mut k: usize = input_nodes + 1;
        while k <= input_nodes + output_nodes
            invariant
                input_nodes + 1 <= k <= input_nodes + 1 + output_nodes,
                input_nodes + 1 + output_nodes <= usize::MAX,
                nodes@ == initial_nodes(input_nodes as nat, output_nodes as nat).take(k as int),
            decreases input_nodes + output_nodes + 1 - k,
        {
            nodes.push(Node::output_with_id(k));
            k = k + 1;
        }
        proof {
            assert(nodes@ =~= initial_nodes(input_nodes as nat, output_nodes as nat));
            assert(edges@ =~= initial_edges(input_nodes as nat, output_nodes as nat));
            let inp = input_nodes as int;
            let out = output_nodes as int;
            assert forall|k: int| 0 <= k < edges@.len() implies (#[trigger] edges@[k]).from
                < nodes@.len() && edges@[k].to < nodes@.len() by {
                vstd::arithmetic::mul::lemma_mul_is_commutative(inp + 1, out);
                vstd::arithmetic::div_mod::lemma_multiply_divide_lt(k, out, inp + 1);
                vstd::arithmetic::div_mod::lemma_mod_division_less_than_divisor(k, out);
                vstd::arithmetic::div_mod::lemma_div_pos_is_pos(k, out);
            }
        }
        NeuralNetwork {
            nodes,
            edges,
            id,
            size: (input_nodes, output_nodes),
            fitness: ZERO_BITS,
            pt: None,
        }
    }

    /// Constructor for a network with the given numbers of input and output
    /// nodes and the constant id zero.
    pub fn with_size(input_nodes: usize, output_nodes: usize) -> (r: Self)
        requires
            input_nodes + 1 + output_nodes <= usize::MAX,
            (input_nodes + 1) * output_nodes <= usize::MAX,
        ensures
            r.nodes@ == initial_nodes(input_nodes as nat, output_nodes as nat),
            r.edges@ == initial_edges(input_nodes as nat, output_nodes as nat),
            r.id == 0,
            r.size == (input_nodes, output_nodes),
            r.fitness == ZERO_BITS,
            r.pt is None,
            r.wf_structure(),
    {
        NeuralNetwork::with_size_and_id(input_nodes, output_nodes, 0)
    }
}

/// The entry of `initial_edges` at offset `b` within the block of source
/// node `a` is the default edge from `a` to output `inp + 1 + b`.
proof fn lemma_initial_edge_at(inp: nat, out: nat, a: nat, b: nat)
    requires
        a <= inp,
        b < out,
    ensures
        0 <= a * out + b < (inp + 1) * out,
        initial_edges(inp, out)[(a * out + b) as int] == (Edge {
            from: a as usize,
            to: (inp + 1 + b) as usize,
            weight: ONE_BITS,
            enabled: true,
            innovation: 0,
        }),
{
    let k: int = (a * out + b) as int;
    assert(0 <= k && k + (out - b) <= (inp + 1) * out && k / (out as int) == a && k % (out as int)
        == b) by (nonlinear_arith)
        requires
            a <= inp,
            0 <= b < out,
            k == a * out + b,
    ;
}

impl NeuralNetwork {
    /// Full well-formedness: the structure is well formed and the cached
    /// phenotype, when present, is exactly what compiling the genome
    /// produces.
    pub open spec fn wf(self) -> bool {
        &&& self.wf_structure()
        &&& match self.pt {
            Some(p) => compiles_to(self, p) && p.wf() && p.edges@.len() == self.nodes@.len(),
            None => true,
        }
    }

    /// Function for computing the outputs of the network for the given
    /// inputs, one binary32 bit pattern per input node.
    ///
    /// Compiles the phenotype on first use and caches it, so repeated
    /// computation does not recompile. An input vector whose length is not
    /// the network's input count is rejected.
    pub fn compute(&mut self, input: Vec<u32>) -> (r: Result<Vec<u32>, NeatError>)
        requires
            old(self).wf(),
        ensures
            final(self).nodes == old(self).nodes,
            final(self).edges == old(self).edges,
            final(self).id == old(self).id,
            final(self).size == old(self).size,
            final(self).fitness == old(self).fitness,
            final(self).wf(),
            match r {
                Ok(out) => {
                    &&& input@.len() == old(self).size.0
                    &&& out@ == spec_genome_outputs(*old(self), input@)
                    &&& final(self).pt is Some
                },
                Err(e) => {
                    &&& e == NeatError::InputArityMismatch
                    &&& input@.len() != old(self).size.0
                },
            },
    {
        if input.len() != self.size.0 {
            return Err(NeatError::InputArityMismatch);
        }
        proof {
            lemma_id_map_of_dense(self.nodes@);
            assert(genome_wf(old(self)@));
            assert forall|k: int|
                0 <= k < self.edges@.len() implies id_map_of(self.nodes@).contains_key(
                (#[trigger] self.edges@[k]).from,
            ) && id_map_of(self.nodes@).contains_key(self.edges@[k].to) by {
                assert(old(self)@.edges[k] == self.edges@[k]);
            }
            assert(edges_resolvable(id_map_of(self.nodes@), self.edges@));
        }
        let mut p: Phenotype = match self.pt.take() {
            Some(p) => p,
            None => match Phenotype::from_nn(self) {
                Ok(p) => p,
                Err(_) => vstd::pervasive::unreached(),
            },
        };
        p.reset();
        let out = match p.compute(input) {
            Ok(out) => out,
            Err(_) => vstd::pervasive::unreached(),
        };
        self.pt = Some(p);
        Ok(out)
    }

    /// A deep copy of the genome's structure, id, size and fitness. The
    /// phenotype cache is not copied: it is a derived value the copy can
    /// rebuild.
    pub fn clone_genome(&self) -> (r: Self)
        ensures
            r.nodes@ == self.nodes@,
            r.edges@ == self.edges@,
            r.id == self.id,
            r.size == self.size,
            r.fitness == self.fitness,
            r.pt is None,
    {
        let mut nodes: Vec<Node> = Vec::new();
        let mut i: usize = 0;
        while i < self.nodes.len()
            invariant
                i <= self.nodes@.len(),
                nodes@ =~= self.nodes@.take(i as int),
            decreases self.nodes@.len() - i,
        {
            nodes.push(self.nodes[i]);
            i = i + 1;
        }
        let mut edges: Vec<Edge> = Vec::new();
        let mut k: usize = 0;
        while k < self.edges.len()
            invariant
                k <= self.edges@.len(),
                edges@ =~= self.edges@.take(k as int),
            decreases self.edges@.len() - k,
        {
            edges.push(self.edges[k]);
            k = k + 1;
        }
        proof {
            assert(nodes@ =~= self.nodes@);
            assert(edges@ =~= self.edges@);
        }
        NeuralNetwork {
            nodes,
            edges,
            id: self.id,
            size: self.size,
            fitness: self.fitness,
            pt: None,
        }
    }
}

} // verus!
