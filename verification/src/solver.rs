//! The population controller: owns the genomes of one generation and the
//! species registry, exposes fitness aggregation, and drives the
//! generation-advance step (re-speciation and pruning).
use vstd::prelude::*;

use crate::config::Config;
use crate::float_bits::{POS_ZERO, abs_bits, add_bits, count_to_bits, div_bits, f32_add, f32_div,
    f32_is_finite, f32_is_neg, f32_le, f32_lt, f32_magnitude, f32_mul, f32_of_count, f32_sub,
    le_bits, lt_bits, mul_bits, sub_bits};
use crate::neuralnetwork::{Edge, GenomeView, NeuralNetwork, ONE_BITS, ZERO_BITS, genome_wf,
    initial_edges, initial_nodes};
use crate::species::{Species, SpeciesView};

verus! {

/// The largest edge count a genome of a population may have, so that counts
/// over two genomes never overflow.
pub const EDGE_BOUND: usize = usize::MAX / 2;

/// The views of the networks of a population, in order.
pub open spec fn genome_views(ns: Seq<NeuralNetwork>) -> Seq<GenomeView> {
    Seq::new(ns.len(), |i: int| ns[i]@)
}

/// The views of the species of a registry, in order.
pub open spec fn species_views(ss: Seq<Species>) -> Seq<SpeciesView> {
    Seq::new(ss.len(), |i: int| ss[i]@)
}

/// The view of a freshly constructed genome of the given shape and id.
pub open spec fn initial_genome_view(inp: nat, out: nat, id: usize) -> GenomeView {
    GenomeView {
        nodes: initial_nodes(inp, out),
        edges: initial_edges(inp, out),
        id,
        size: ((inp as usize), (out as usize)),
        fitness: ZERO_BITS,
    }
}

/// The largest innovation number of an edge sequence; minus one when there
/// are no edges, so that every edge of the other genome counts as excess.
pub open spec fn spec_max_innov(edges: Seq<Edge>) -> int
    decreases edges.len(),
{
    if edges.len() == 0 {
        -1
    } else {
        let m = spec_max_innov(edges.drop_last());
        if edges.last().innovation > m {
            edges.last().innovation as int
        } else {
            m
        }
    }
}

/// Whether some edge of the sequence carries the given innovation number.
pub open spec fn has_innov(edges: Seq<Edge>, v: usize) -> bool {
    exists|k: int| 0 <= k < edges.len() && (#[trigger] edges[k]).innovation == v
}

/// How many edges carry an innovation number above the other genome's
/// maximum: the excess edges.
pub open spec fn count_excess(edges: Seq<Edge>, other_max: int) -> nat
    decreases edges.len(),
{
    if edges.len() == 0 {
        0
    } else {
        count_excess(edges.drop_last(), other_max) + if edges.last().innovation > other_max {
            1nat
        } else {
            0nat
        }
    }
}

/// How many edges lie within the other genome's innovation range but match
/// no edge of it: the disjoint edges.
pub open spec fn count_disjoint(edges: Seq<Edge>, other: Seq<Edge>, other_max: int) -> nat
    decreases edges.len(),
{
    if edges.len() == 0 {
        0
    } else {
        count_disjoint(edges.drop_last(), other, other_max) + if edges.last().innovation
            <= other_max && !has_innov(other, edges.last().innovation) {
            1nat
        } else {
            0nat
        }
    }
}

/// How many edges have a same-innovation partner in the other genome: the
/// matching edges, counted on this genome's side.
pub open spec fn count_matching(edges: Seq<Edge>, other: Seq<Edge>) -> nat
    decreases edges.len(),
{
    if edges.len() == 0 {
        0
    } else {
        count_matching(edges.drop_last(), other) + if has_innov(other, edges.last().innovation) {
            1nat
        } else {
            0nat
        }
    }
}

/// The weight of the first edge carrying the given innovation number;
/// positive zero when there is none.
pub open spec fn first_match_weight(edges: Seq<Edge>, v: usize) -> u32
    decreases edges.len(),
{
    if edges.len() == 0 {
        POS_ZERO
    } else if edges[0].innovation == v {
        edges[0].weight
    } else {
        first_match_weight(edges.drop_first(), v)
    }
}

/// The binary32 sum, in genome order, of the absolute weight differences of
/// the matching edge pairs: each edge with a same-innovation partner
/// contributes the magnitude of the difference of its weight from the
/// partner's.
pub open spec fn weight_diff_sum(edges: Seq<Edge>, other: Seq<Edge>) -> u32
    decreases edges.len(),
{
    if edges.len() == 0 {
        POS_ZERO
    } else {
        let acc = weight_diff_sum(edges.drop_last(), other);
        let e = edges.last();
        if has_innov(other, e.innovation) {
            f32_add(acc, f32_magnitude(f32_sub(e.weight, first_match_weight(other, e.innovation))))
        } else {
            acc
        }
    }
}

/// Whether every edge weight of the sequence is a finite binary32 value.
pub open spec fn finite_weights(edges: Seq<Edge>) -> bool {
    forall|k: int| 0 <= k < edges.len() ==> f32_is_finite((#[trigger] edges[k]).weight)
}

/// Whether edges that share an innovation number also share their weight;
/// genomes with unique innovation numbers satisfy this trivially.
pub open spec fn innov_weight_consistent(edges: Seq<Edge>) -> bool {
    forall|k: int, l: int|
        0 <= k < edges.len() && 0 <= l < edges.len() && (#[trigger] edges[k]).innovation == (
        #[trigger] edges[l]).innovation ==> edges[k].weight == edges[l].weight
}

/// Whether every distance weight is finite and non-negative, as the
/// documented defaults are.
pub open spec fn config_nonneg(c: Config) -> bool {
    &&& f32_is_finite(c.c1) && !f32_is_neg(c.c1)
    &&& f32_is_finite(c.c2) && !f32_is_neg(c.c2)
    &&& f32_is_finite(c.c3) && !f32_is_neg(c.c3)
}

/// The first edge carrying an innovation number that occurs at all has the
/// weight of one of its carriers.
proof fn lemma_first_match_weight_of(edges: Seq<Edge>, v: usize)
    requires
        has_innov(edges, v),
    ensures
        exists|k: int|
            0 <= k < edges.len() && (#[trigger] edges[k]).innovation == v && edges[k].weight
                == first_match_weight(edges, v),
    decreases edges.len(),
{
    if edges[0].innovation == v {
        assert(edges[0].weight == first_match_weight(edges, v));
    } else {
        let w = choose|k: int| 0 <= k < edges.len() && (#[trigger] edges[k]).innovation == v;
        assert(edges.drop_first()[w - 1] == edges[w]);
        lemma_first_match_weight_of(edges.drop_first(), v);
        let k2 = choose|k: int|
            0 <= k < edges.drop_first().len() && (#[trigger] edges.drop_first()[k]).innovation == v
                && edges.drop_first()[k].weight == first_match_weight(edges.drop_first(), v);
        assert(edges[k2 + 1] == edges.drop_first()[k2]);
    }
}

/// The compatibility distance between two genomes, with the edges aligned by
/// innovation number: `c1 * excess / n + c2 * disjoint / n + c3 * mean
/// absolute weight difference of matching pairs`, where `n` is the larger
/// edge count, at least one.
pub open spec fn spec_distance(c: Config, a: GenomeView, b: GenomeView) -> u32 {
    let ma = spec_max_innov(a.edges);
    let mb = spec_max_innov(b.edges);
    let e_cnt = count_excess(a.edges, mb) + count_excess(b.edges, ma);
    let d_cnt = count_disjoint(a.edges, b.edges, mb) + count_disjoint(b.edges, a.edges, ma);
    let m_cnt = count_matching(a.edges, b.edges);
    let big = if a.edges.len() >= b.edges.len() {
        a.edges.len()
    } else {
        b.edges.len()
    };
    let norm = if big == 0 {
        1nat
    } else {
        big
    };
    let wbar = if m_cnt == 0 {
        POS_ZERO
    } else {
        f32_div(weight_diff_sum(a.edges, b.edges), f32_of_count(m_cnt as usize))
    };
    f32_add(
        f32_add(
            f32_mul(c.c1, f32_div(f32_of_count(e_cnt as usize), f32_of_count(norm as usize))),
            f32_mul(c.c2, f32_div(f32_of_count(d_cnt as usize), f32_of_count(norm as usize))),
        ),
        f32_mul(c.c3, wbar),
    )
}

/// Every edge of a sequence carries an innovation number at most the
/// sequence's maximum.
pub proof fn lemma_max_innov_bound(edges: Seq<Edge>)
    ensures
        forall|k: int|
            0 <= k < edges.len() ==> (#[trigger] edges[k]).innovation <= spec_max_innov(edges),
    decreases edges.len(),
{
    if edges.len() > 0 {
        lemma_max_innov_bound(edges.drop_last());
        assert forall|k: int|
            0 <= k < edges.len() implies (#[trigger] edges[k]).innovation <= spec_max_innov(
            edges,
        ) by {
            if k < edges.len() - 1 {
                assert(edges.drop_last()[k] == edges[k]);
            }
        }
    }
}

/// The main struct used to train networks for a problem: the population of
/// one generation, the species registry, and the parameters of regrouping.
#[derive(Debug)]
pub struct Solver {
    /// The population: one genome per id, ids dense.
    pub networks: Vec<NeuralNetwork>,
    /// `(input count, output count)` of every network of the population.
    pub network_size: (usize, usize),
    /// How many networks one generation holds.
    pub generation_size: usize,
    /// How many generation advances have been performed.
    pub generation: usize,
    /// The species registry, in insertion order.
    pub species: Vec<Species>,
    /// The compatibility threshold for joining a species, as a binary32 bit
    /// pattern.
    pub distance_threshold: u32,
    /// The weights of the compatibility-distance formula.
    pub config: Config,
}

/// What a solver is, mathematically.
pub struct SolverView {
    /// The population views.
    pub networks: Seq<GenomeView>,
    /// `(input count, output count)`.
    pub network_size: (usize, usize),
    /// The population count.
    pub generation_size: usize,
    /// The generation counter.
    pub generation: usize,
    /// The species views.
    pub species: Seq<SpeciesView>,
    /// The compatibility threshold bit pattern.
    pub distance_threshold: u32,
    /// The distance weights.
    pub config: Config,
}

impl View for Solver {
    type V = SolverView;

    open spec fn view(&self) -> SolverView {
        SolverView {
            networks: genome_views(self.networks@),
            network_size: self.network_size,
            generation_size: self.generation_size,
            generation: self.generation,
            species: species_views(self.species@),
            distance_threshold: self.distance_threshold,
            config: self.config,
        }
    }
}

/// Well-formedness of a population, stated on its view: at least one
/// network, dense ids, the declared shape everywhere, every genome and
/// representative structurally well formed, and edge counts small enough
/// that counts over two genomes cannot overflow.
pub open spec fn solver_view_wf(v: SolverView) -> bool {
    &&& v.networks.len() == v.generation_size
    &&& v.networks.len() >= 1
    &&& forall|i: int|
        0 <= i < v.networks.len() ==> {
            &&& genome_wf(#[trigger] v.networks[i])
            &&& v.networks[i].id == i
            &&& v.networks[i].size == v.network_size
            &&& v.networks[i].edges.len() <= EDGE_BOUND
        }
    &&& forall|s: int|
        0 <= s < v.species.len() ==> {
            &&& genome_wf((#[trigger] v.species[s]).representative)
            &&& v.species[s].representative.edges.len() <= EDGE_BOUND
        }
}

impl Solver {
    /// Well-formedness of a population: at least one network, dense ids, the
    /// declared shape everywhere, every genome and representative well
    /// formed, and edge counts small enough that counts over two genomes
    /// cannot overflow.
    pub open spec fn wf(self) -> bool {
        &&& self.networks@.len() == self.generation_size
        &&& self.networks@.len() >= 1
        &&& forall|i: int|
            0 <= i < self.networks@.len() ==> {
                &&& (#[trigger] self.networks@[i]).wf()
                &&& self.networks@[i].id == i
                &&& self.networks@[i].size == self.network_size
                &&& self.networks@[i].edges@.len() <= EDGE_BOUND
            }
        &&& forall|s: int|
            0 <= s < self.species@.len() ==> {
                &&& (#[trigger] self.species@[s]).representative.wf_structure()
                &&& self.species@[s].representative.edges@.len() <= EDGE_BOUND
            }
    }

    /// Constructor for a population of `generation_size` networks of the
    /// given shape, with ids `0 ..`, and one initial species seeded from a
    /// fresh reference genome of the same shape.
    pub fn with_size(input_nodes: usize, output_nodes: usize, generation_size: usize) -> (r: Self)
        requires
            input_nodes + 1 + output_nodes <= usize::MAX,
            (input_nodes + 1) * output_nodes <= EDGE_BOUND,
            generation_size >= 1,
        ensures
            r.networks@.len() == generation_size,
            forall|i: int|
                0 <= i < generation_size ==> (#[trigger] r.networks@[i])@ == initial_genome_view(
                    input_nodes as nat,
                    output_nodes as nat,
                    i as usize,
                ),
            r.network_size == (input_nodes, output_nodes),
            r.generation_size == generation_size,
            r.generation == 0,
            r.species@.len() == 1,
            r.species@[0]@.representative == initial_genome_view(
                input_nodes as nat,
                output_nodes as nat,
                0,
            ),
            r.species@[0]@.members =~= seq![0usize],
            r.distance_threshold == ONE_BITS,
            r.config == (Config { c1: ONE_BITS, c2: ONE_BITS, c3: ONE_BITS }),
            r.wf(),
    {
        let mut networks: Vec<NeuralNetwork> = Vec::new();
        let mut i: usize = 0;
        while i < generation_size
            invariant
                i <= generation_size,
                input_nodes + 1 + output_nodes <= usize::MAX,
                (input_nodes + 1) * output_nodes <= EDGE_BOUND,
                networks@.len() == i,
                forall|j: int|
                    0 <= j < i ==> {
                        &&& (#[trigger] networks@[j])@ == initial_genome_view(
                            input_nodes as nat,
                            output_nodes as nat,
                            j as usize,
                        )
                        &&& networks@[j].wf()
                        &&& networks@[j].id == j
                        &&& networks@[j].size == (input_nodes, output_nodes)
                        &&& networks@[j].edges@.len() <= EDGE_BOUND
                    },
            decreases generation_size - i,
        {
            let nn = NeuralNetwork::with_size_and_id(input_nodes, output_nodes, i);
            networks.push(nn);
            i = i + 1;
        }
        let mut species: Vec<Species> = Vec::new();
        let reference = NeuralNetwork::with_size(input_nodes, output_nodes);
        species.push(Species::new_with_network(reference));
        let distance_threshold = ONE_BITS;
        Solver {
            networks,
            network_size: (input_nodes, output_nodes),
            generation_size,
            generation: 0,
            species,
            distance_threshold,
            config: Config::default(),
        }
    }

    /// The binary32 left-fold sum of the population's fitness scores,
    /// starting from positive zero.
    pub open spec fn fitness_sum(ns: Seq<GenomeView>) -> u32
        decreases ns.len(),
    {
        if ns.len() == 0 {
            ZERO_BITS
        } else {
            f32_add(Solver::fitness_sum(ns.drop_last()), ns.last().fitness)
        }
    }

    /// The average fitness of the generation: the fitness sum divided by the
    /// population count. Meaningful once the caller has written fitness back
    /// onto every network.
    pub fn average_fitness(&mut self) -> (r: u32)
        ensures
            *final(self) == *old(self),
            r == f32_div(
                Solver::fitness_sum(genome_views(old(self).networks@)),
                f32_of_count(old(self).generation_size),
            ),
    {
        let mut sum: u32 = ZERO_BITS;
        let mut i: usize = 0;
        let ghost views = genome_views(self.networks@);
        while i < self.networks.len()
            invariant
                i <= self.networks@.len(),
                *self == *old(self),
                views == genome_views(self.networks@),
                sum == Solver::fitness_sum(views.take(i as int)),
            decreases self.networks@.len() - i,
        {
            let f = self.networks[i].fitness;
            sum = add_bits(sum, f);
            i = i + 1;
            proof {
                assert(views.take(i as int).drop_last() =~= views.take(i - 1));
                assert(views.take(i as int).last() == views[i - 1]);
            }
        }
        proof {
            assert(views.take(views.len() as int) =~= views);
        }
        div_bits(sum, count_to_bits(self.generation_size))
    }

    /// The index of the champion of a population: the first genome of
    /// maximal fitness under a left fold, where a later genome replaces the
    /// champion only on a strictly greater fitness.
    pub open spec fn champion_index(ns: Seq<GenomeView>) -> int
        decreases ns.len(),
    {
        if ns.len() <= 1 {
            0
        } else {
            let c = Solver::champion_index(ns.drop_last());
            if f32_lt(ns[c].fitness, ns.last().fitness) {
                ns.len() - 1
            } else {
                c
            }
        }
    }

    /// The champion index is always a valid population index.
    pub proof fn lemma_champion_index_in_range(ns: Seq<GenomeView>)
        requires
            ns.len() >= 1,
        ensures
            0 <= Solver::champion_index(ns) < ns.len(),
        decreases ns.len(),
    {
        if ns.len() > 1 {
            Solver::lemma_champion_index_in_range(ns.drop_last());
        }
    }

    /// Returns a copy of the best network of the generation: the first
    /// genome of maximal fitness. Its phenotype cache is not copied.
    pub fn best_network(&mut self) -> (r: NeuralNetwork)
        requires
            old(self).networks@.len() >= 1,
        ensures
            *final(self) == *old(self),
            r@ == genome_views(old(self).networks@)[Solver::champion_index(
                genome_views(old(self).networks@),
            )],
            r.pt is None,
    {
        let ghost views = genome_views(self.networks@);
        let mut best: usize = 0;
        let mut i: usize = 1;
        proof {
            assert(views.take(1).drop_last() =~= views.take(0));
        }
        while i < self.networks.len()
            invariant
                1 <= i <= self.networks@.len(),
                *self == *old(self),
                views == genome_views(self.networks@),
                best < i,
                best == Solver::champion_index(views.take(i as int)),
            decreases self.networks@.len() - i,
        {
            let b = self.networks[best].fitness;
            let x = self.networks[i].fitness;
            proof {
                assert(views.take(i + 1).drop_last() =~= views.take(i as int));
                assert(views.take(i + 1).last() == views[i as int]);
                assert(views.take(i as int)[best as int] == views[best as int]);
            }
            if lt_bits(b, x) {
                best = i;
            }
            i = i + 1;
        }
        proof {
            assert(views.take(views.len() as int) =~= views);
        }
        self.networks[best].clone_genome()
    }

    /// The networks of the generation, mutably: the caller runs each
    /// network and writes its fitness back.
    pub fn neural_nets(&mut self) -> (r: &mut Vec<NeuralNetwork>)
        ensures
            *r == old(self).networks,
            final(self).networks == *final(r),
            final(self).network_size == old(self).network_size,
            final(self).generation_size == old(self).generation_size,
            final(self).generation == old(self).generation,
            final(self).species == old(self).species,
            final(self).distance_threshold == old(self).distance_threshold,
            final(self).config == old(self).config,
    {
        &mut self.networks
    }
}

impl Solver {
    /// The largest innovation number among the edges, or nothing when there
    /// are no edges.
    fn max_innov(edges: &Vec<Edge>) -> (r: Option<usize>)
        ensures
            match r {
                Some(v) => edges@.len() > 0 && v as int == spec_max_innov(edges@),
                None => edges@.len() == 0,
            },
    {
        if edges.len() == 0 {
            return None;
        }
        let mut cur: usize = edges[0].innovation;
        let mut k: usize = 1;
        proof {
            assert(edges@.take(1).drop_last() =~= edges@.take(0));
            assert(edges@.take(1).last() == edges@[0]);
            assert(spec_max_innov(edges@.take(0)) == -1);
        }
        while k < edges.len()
            invariant
                1 <= k <= edges@.len(),
                cur as int == spec_max_innov(edges@.take(k as int)),
            decreases edges@.len() - k,
        {
            proof {
                assert(edges@.take(k + 1).drop_last() =~= edges@.take(k as int));
                assert(edges@.take(k + 1).last() == edges@[k as int]);
            }
            if edges[k].innovation > cur {
                cur = edges[k].innovation;
            }
            k = k + 1;
        }
        proof {
            assert(edges@.take(edges@.len() as int) =~= edges@);
        }
        Some(cur)
    }

    /// Whether some edge of the sequence carries the given innovation
    /// number.
    fn has_edge_with_innov(edges: &Vec<Edge>, v: usize) -> (r: bool)
        ensures
            r == has_innov(edges@, v),
    {
        let mut k: usize = 0;
        while k < edges.len()
            invariant
                k <= edges@.len(),
                forall|j: int| 0 <= j < k ==> (#[trigger] edges@[j]).innovation != v,
            decreases edges@.len() - k,
        {
            if edges[k].innovation == v {
                return true;
            }
            k = k + 1;
        }
        false
    }

    /// The weight of the first edge carrying the given innovation number;
    /// positive zero when there is none.
    fn first_weight(edges: &Vec<Edge>, v: usize) -> (r: u32)
        ensures
            r == first_match_weight(edges@, v),
    {
        let mut k: usize = 0;
        proof {
            assert(edges@.skip(0) =~= edges@);
        }
        while k < edges.len()
            invariant
                k <= edges@.len(),
                first_match_weight(edges@, v) == first_match_weight(edges@.skip(k as int), v),
            decreases edges@.len() - k,
        {
            proof {
                assert(edges@.skip(k as int)[0] == edges@[k as int]);
                assert(edges@.skip(k as int).drop_first() =~= edges@.skip(k + 1));
            }
            if edges[k].innovation == v {
                return edges[k].weight;
            }
            k = k + 1;
        }
        proof {
            assert(edges@.skip(edges@.len() as int) =~= Seq::<Edge>::empty());
        }
        POS_ZERO
    }

    /// One side of the distance alignment: how many of this genome's edges
    /// are excess and disjoint against the other genome, how many match, and
    /// the running binary32 sum of absolute weight differences over the
    /// matching pairs.
    #[verifier::loop_isolation(false)]
    fn align_side(edges: &Vec<Edge>, other: &Vec<Edge>) -> (r: (usize, usize, usize, u32))
        ensures
            ({
                let other_max = spec_max_innov(other@);
                &&& r.0 == count_excess(edges@, other_max)
                &&& r.1 == count_disjoint(edges@, other@, other_max)
                &&& r.2 == count_matching(edges@, other@)
                &&& r.3 == weight_diff_sum(edges@, other@)
                &&& r.0 <= edges@.len()
                &&& r.1 <= edges@.len()
                &&& r.2 <= edges@.len()
                &&& (edges@ == other@ && finite_weights(edges@) && innov_weight_consistent(edges@))
                    ==> (r.0 == 0 && r.1 == 0 && r.2 == edges@.len() && r.3 == POS_ZERO)
            }),
    {
        let other_max = Solver::max_innov(other);
        let ghost om = spec_max_innov(other@);
        let mut excess: usize = 0;
        let mut disjoint: usize = 0;
        let mut matching: usize = 0;
        let mut wsum: u32 = POS_ZERO;
        let mut k: usize = 0;
        proof {
            lemma_max_innov_bound(other@);
        }
        while k < edges.len()
            invariant
                k <= edges@.len(),
                excess == count_excess(edges@.take(k as int), om),
                disjoint == count_disjoint(edges@.take(k as int), other@, om),
                matching == count_matching(edges@.take(k as int), other@),
                wsum == weight_diff_sum(edges@.take(k as int), other@),
                excess <= k,
                disjoint <= k,
                matching <= k,
                (edges@ == other@ && finite_weights(edges@) && innov_weight_consistent(edges@))
                    ==> (excess == 0 && disjoint == 0 && matching == k && wsum == POS_ZERO),
            decreases edges@.len() - k,
        {
            proof {
                assert(edges@.take(k + 1).drop_last() =~= edges@.take(k as int));
                assert(edges@.take(k + 1).last() == edges@[k as int]);
            }
            let e = edges[k];
            let ghost identical = edges@ == other@ && finite_weights(edges@)
                && innov_weight_consistent(edges@);
            proof {
                if identical {
                    assert(edges@[k as int].innovation == e.innovation);
                    assert(has_innov(other@, e.innovation));
                    assert(e.innovation <= om);
                    lemma_first_match_weight_of(other@, e.innovation);
                }
            }
            let is_excess = match other_max {
                None => true,
                Some(m) => e.innovation > m,
            };
            if is_excess {
                proof {
                    if has_innov(other@, e.innovation) {
                        let w = choose|j: int|
                            0 <= j < other@.len() && (#[trigger] other@[j]).innovation
                                == e.innovation;
                        assert(other@[w].innovation <= om);
                    }
                }
                excess = excess + 1;
            } else {
                if Solver::has_edge_with_innov(other, e.innovation) {
                    matching = matching + 1;
                    let w2 = Solver::first_weight(other, e.innovation);
                    proof {
                        if identical {
                            let kw = choose|kk: int|
                                0 <= kk < other@.len() && (#[trigger] other@[kk]).innovation
                                    == e.innovation && other@[kk].weight == first_match_weight(
                                    other@,
                                    e.innovation,
                                );
                            assert(other@[kw].weight == e.weight);
                            assert(w2 == e.weight);
                        }
                    }
                    let d = sub_bits(e.weight, w2);
                    let a = abs_bits(d);
                    proof {
                        if identical {
                            assert(d == POS_ZERO);
                            assert(0u32 & 0x7FFF_FFFF == 0u32) by (bit_vector);
                            assert(a == POS_ZERO);
                        }
                    }
                    wsum = add_bits(wsum, a);
                } else {
                    disjoint = disjoint + 1;
                }
            }
            k = k + 1;
        }
        proof {
            assert(edges@.take(edges@.len() as int) =~= edges@);
        }
        (excess, disjoint, matching, wsum)
    }

    /// Compute the compatibility distance between two networks, with the
    /// given formula weights: excess and disjoint counts normalized by the
    /// larger edge count, and the mean absolute weight difference over the
    /// matching pairs.
    pub fn distance(config: &Config, representative: &NeuralNetwork, network: &NeuralNetwork) -> (r:
        u32)
        requires
            representative.edges@.len() <= EDGE_BOUND,
            network.edges@.len() <= EDGE_BOUND,
        ensures
            r == spec_distance(*config, representative@, network@),
            (representative.edges@ == network.edges@ && finite_weights(network.edges@)
                && innov_weight_consistent(network.edges@) && config_nonneg(*config)) ==> r
                == POS_ZERO,
    {
        let a = representative;
        let b = network;
        let ghost identical = a.edges@ == b.edges@ && finite_weights(b.edges@)
            && innov_weight_consistent(b.edges@);
        let (ea, da, mc, wsum) = Solver::align_side(&a.edges, &b.edges);
        let (eb, db, _mb, _wb) = Solver::align_side(&b.edges, &a.edges);
        let e_total = ea + eb;
        let d_total = da + db;
        let big = if a.edges.len() >= b.edges.len() {
            a.edges.len()
        } else {
            b.edges.len()
        };
        let norm = if big == 0 {
            1
        } else {
            big
        };
        let wbar = if mc == 0 {
            POS_ZERO
        } else {
            div_bits(wsum, count_to_bits(mc))
        };
        let en = div_bits(count_to_bits(e_total), count_to_bits(norm));
        let dn = div_bits(count_to_bits(d_total), count_to_bits(norm));
        let t1 = mul_bits(config.c1, en);
        let t2 = mul_bits(config.c2, dn);
        let t3 = mul_bits(config.c3, wbar);
        let r = add_bits(add_bits(t1, t2), t3);
        proof {
            if identical && config_nonneg(*config) {
                assert(r == POS_ZERO);
            }
        }
        r
    }
}

/// The representatives of a species sequence, in order.
pub open spec fn reps_of(ss: Seq<SpeciesView>) -> Seq<GenomeView> {
    Seq::new(ss.len(), |i: int| ss[i].representative)
}

/// The member id sequences of a species sequence, in order.
pub open spec fn members_of(ss: Seq<SpeciesView>) -> Seq<Seq<usize>> {
    Seq::new(ss.len(), |i: int| ss[i].members)
}

/// A registry of the given size in which every species has lost its
/// members.
pub open spec fn empty_members(n: nat) -> Seq<Seq<usize>> {
    Seq::new(n, |i: int| Seq::<usize>::empty())
}

/// The first species, scanning from position `i` in registry order, whose
/// representative lies within the threshold of the network.
pub open spec fn first_fit_from(
    reps: Seq<GenomeView>,
    c: Config,
    thr: u32,
    nn: GenomeView,
    i: int,
) -> Option<int>
    decreases reps.len() - i,
    when 0 <= i
{
    if i >= reps.len() {
        None
    } else if f32_le(spec_distance(c, reps[i], nn), thr) {
        Some(i)
    } else {
        first_fit_from(reps, c, thr, nn, i + 1)
    }
}

/// One assignment step of regrouping: the network joins the first species
/// within the threshold, or founds a new species with itself as
/// representative and sole member.
pub open spec fn group_step(
    reps: Seq<GenomeView>,
    membs: Seq<Seq<usize>>,
    c: Config,
    thr: u32,
    nn: GenomeView,
) -> (Seq<GenomeView>, Seq<Seq<usize>>) {
    match first_fit_from(reps, c, thr, nn, 0) {
        Some(ffs) => (reps, membs.update(ffs, membs[ffs].push(nn.id))),
        None => (reps.push(nn), membs.push(seq![nn.id])),
    }
}

/// The whole regrouping: every network of the population, in population
/// order, assigned by `group_step`.
pub open spec fn spec_group(
    reps: Seq<GenomeView>,
    membs: Seq<Seq<usize>>,
    c: Config,
    thr: u32,
    nets: Seq<GenomeView>,
) -> (Seq<GenomeView>, Seq<Seq<usize>>)
    decreases nets.len(),
{
    if nets.len() == 0 {
        (reps, membs)
    } else {
        let p = spec_group(reps, membs, c, thr, nets.drop_last());
        group_step(p.0, p.1, c, thr, nets.last())
    }
}

/// The registry with its memberless species removed, representatives and
/// memberships paired.
pub open spec fn drop_empty(reps: Seq<GenomeView>, membs: Seq<Seq<usize>>) -> (
    Seq<GenomeView>,
    Seq<Seq<usize>>,
)
    decreases reps.len(),
{
    if reps.len() == 0 || membs.len() != reps.len() {
        (Seq::empty(), Seq::empty())
    } else {
        let p = drop_empty(reps.drop_last(), membs.drop_last());
        if membs.last().len() > 0 {
            (p.0.push(reps.last()), p.1.push(membs.last()))
        } else {
            p
        }
    }
}

/// How often an id occurs in one membership list.
pub open spec fn count_in(s: Seq<usize>, id: usize) -> nat
    decreases s.len(),
{
    if s.len() == 0 {
        0
    } else {
        count_in(s.drop_last(), id) + if s.last() == id {
            1nat
        } else {
            0nat
        }
    }
}

/// How often an id occurs across all membership lists of a registry.
pub open spec fn member_count(membs: Seq<Seq<usize>>, id: usize) -> nat
    decreases membs.len(),
{
    if membs.len() == 0 {
        0
    } else {
        member_count(membs.drop_last(), id) + count_in(membs.last(), id)
    }
}

/// How many genomes of a population carry the given id.
pub open spec fn count_ids(nets: Seq<GenomeView>, id: usize) -> nat
    decreases nets.len(),
{
    if nets.len() == 0 {
        0
    } else {
        count_ids(nets.drop_last(), id) + if nets.last().id == id {
            1nat
        } else {
            0nat
        }
    }
}

/// A cleared registry holds no member at all.
proof fn lemma_member_count_empty(n: nat, id: usize)
    ensures
        member_count(empty_members(n), id) == 0,
    decreases n,
{
    if n > 0 {
        assert(empty_members(n).drop_last() =~= empty_members((n - 1) as nat));
        lemma_member_count_empty((n - 1) as nat, id);
    }
}

/// Appending one id to one membership list raises the count of that id by
/// one and changes no other count.
proof fn lemma_member_count_update(membs: Seq<Seq<usize>>, s: int, x: usize, id: usize)
    requires
        0 <= s < membs.len(),
    ensures
        member_count(membs.update(s, membs[s].push(x)), id) == member_count(membs, id) + (if x
            == id {
            1nat
        } else {
            0nat
        }),
    decreases membs.len(),
{
    let upd = membs.update(s, membs[s].push(x));
    if s == membs.len() - 1 {
        assert(upd.drop_last() =~= membs.drop_last());
        assert(upd.last() == membs[s].push(x));
        assert(membs[s].push(x).drop_last() =~= membs[s]);
    } else {
        assert(upd.drop_last() =~= membs.drop_last().update(s, membs.drop_last()[s].push(x)));
        lemma_member_count_update(membs.drop_last(), s, x, id);
        assert(upd.last() == membs.last());
    }
}

/// Appending a whole membership list adds its counts.
proof fn lemma_member_count_push(membs: Seq<Seq<usize>>, row: Seq<usize>, id: usize)
    ensures
        member_count(membs.push(row), id) == member_count(membs, id) + count_in(row, id),
{
    assert(membs.push(row).drop_last() =~= membs);
    assert(membs.push(row).last() == row);
}

/// Regrouping keeps one membership list per representative.
proof fn lemma_group_lens(
    reps: Seq<GenomeView>,
    membs: Seq<Seq<usize>>,
    c: Config,
    thr: u32,
    nets: Seq<GenomeView>,
)
    requires
        reps.len() == membs.len(),
    ensures
        spec_group(reps, membs, c, thr, nets).0.len() == spec_group(reps, membs, c, thr, nets).1.len(),
        spec_group(reps, membs, c, thr, nets).0.len() >= reps.len(),
    decreases nets.len(),
{
    if nets.len() > 0 {
        lemma_group_lens(reps, membs, c, thr, nets.drop_last());
        let p = spec_group(reps, membs, c, thr, nets.drop_last());
        match first_fit_from(p.0, c, thr, nets.last(), 0) {
            Some(ffs) => {
                lemma_first_fit_in_range(p.0, c, thr, nets.last(), 0);
            },
            None => {},
        }
    }
}

/// A found first fit is a valid registry position.
proof fn lemma_first_fit_in_range(
    reps: Seq<GenomeView>,
    c: Config,
    thr: u32,
    nn: GenomeView,
    i: int,
)
    requires
        0 <= i,
        first_fit_from(reps, c, thr, nn, i) is Some,
    ensures
        i <= first_fit_from(reps, c, thr, nn, i).unwrap() < reps.len(),
    decreases reps.len() - i,
{
    if i < reps.len() && !f32_le(spec_distance(c, reps[i], nn), thr) {
        lemma_first_fit_in_range(reps, c, thr, nn, i + 1);
    }
}

/// Regrouping adds each processed genome's id exactly where it was assigned:
/// the count of an id grows by the number of processed genomes carrying it.
proof fn lemma_group_member_count(
    reps: Seq<GenomeView>,
    membs: Seq<Seq<usize>>,
    c: Config,
    thr: u32,
    nets: Seq<GenomeView>,
    id: usize,
)
    requires
        reps.len() == membs.len(),
    ensures
        member_count(spec_group(reps, membs, c, thr, nets).1, id) == member_count(membs, id)
            + count_ids(nets, id),
    decreases nets.len(),
{
    if nets.len() > 0 {
        lemma_group_member_count(reps, membs, c, thr, nets.drop_last(), id);
        lemma_group_lens(reps, membs, c, thr, nets.drop_last());
        let p = spec_group(reps, membs, c, thr, nets.drop_last());
        let nn = nets.last();
        match first_fit_from(p.0, c, thr, nn, 0) {
            Some(ffs) => {
                lemma_first_fit_in_range(p.0, c, thr, nn, 0);
                lemma_member_count_update(p.1, ffs, nn.id, id);
            },
            None => {
                lemma_member_count_push(p.1, seq![nn.id], id);
                assert(seq![nn.id].drop_last() =~= Seq::<usize>::empty());
                assert(count_in(Seq::<usize>::empty(), id) == 0);
                assert(count_in(seq![nn.id], id) == if nn.id == id {
                    1nat
                } else {
                    0nat
                });
            },
        }
        assert(spec_group(reps, membs, c, thr, nets) == group_step(p.0, p.1, c, thr, nn));
        assert(count_ids(nets, id) == count_ids(nets.drop_last(), id) + if nn.id == id {
            1nat
        } else {
            0nat
        });
    }
}

/// In a population with dense ids, an id below the population count occurs
/// exactly once, any other id not at all.
proof fn lemma_count_ids_dense(nets: Seq<GenomeView>, id: usize)
    requires
        forall|j: int| 0 <= j < nets.len() ==> (#[trigger] nets[j]).id == j,
    ensures
        count_ids(nets, id) == if (id as int) < nets.len() {
            1nat
        } else {
            0nat
        },
    decreases nets.len(),
{
    if nets.len() > 0 {
        assert forall|j: int| 0 <= j < nets.drop_last().len() implies (#[trigger] nets.drop_last()[j]).id
            == j by {
            assert(nets.drop_last()[j] == nets[j]);
        }
        lemma_count_ids_dense(nets.drop_last(), id);
        assert(nets.last().id == nets.len() - 1);
    }
}

/// Removing the memberless species removes no member: counts are preserved,
/// and every surviving species has a member.
proof fn lemma_drop_empty_facts(reps: Seq<GenomeView>, membs: Seq<Seq<usize>>, id: usize)
    requires
        reps.len() == membs.len(),
    ensures
        member_count(drop_empty(reps, membs).1, id) == member_count(membs, id),
        drop_empty(reps, membs).0.len() == drop_empty(reps, membs).1.len(),
        forall|s: int|
            0 <= s < drop_empty(reps, membs).1.len() ==> (#[trigger] drop_empty(
                reps,
                membs,
            ).1[s]).len() > 0,
    decreases reps.len(),
{
    if reps.len() > 0 {
        lemma_drop_empty_facts(reps.drop_last(), membs.drop_last(), id);
        let p = drop_empty(reps.drop_last(), membs.drop_last());
        if membs.last().len() > 0 {
            lemma_member_count_push(p.1, membs.last(), id);
            assert(member_count(membs, id) == member_count(membs.drop_last(), id) + count_in(
                membs.last(),
                id,
            ));
        }
    }
}

impl Solver {
    /// Empty every species' membership; representatives are retained.
    fn clear_species(&mut self)
        ensures
            final(self).networks == old(self).networks,
            final(self).network_size == old(self).network_size,
            final(self).generation_size == old(self).generation_size,
            final(self).generation == old(self).generation,
            final(self).distance_threshold == old(self).distance_threshold,
            final(self).config == old(self).config,
            final(self).species@.len() == old(self).species@.len(),
            forall|s: int|
                0 <= s < final(self).species@.len() ==> (#[trigger] final(self).species@[s]).representative
                    == old(self).species@[s].representative,
            members_of(species_views(final(self).species@)) =~~= empty_members(
                old(self).species@.len() as nat,
            ),
    {
        let mut i: usize = 0;
        while i < self.species.len()
            invariant
                i <= self.species@.len(),
                self.networks == old(self).networks,
                self.network_size == old(self).network_size,
                self.generation_size == old(self).generation_size,
                self.generation == old(self).generation,
                self.distance_threshold == old(self).distance_threshold,
                self.config == old(self).config,
                self.species@.len() == old(self).species@.len(),
                forall|s: int|
                    0 <= s < self.species@.len() ==> (#[trigger] self.species@[s]).representative
                        == old(self).species@[s].representative,
                forall|s: int|
                    0 <= s < i ==> (#[trigger] self.species@[s]).members@.len() == 0,
                forall|s: int|
                    i <= s < self.species@.len() ==> (#[trigger] self.species@[s]) == old(
                        self,
                    ).species@[s],
            decreases self.species@.len() - i,
        {
            self.species[i].clear();
            i = i + 1;
        }
    }

    /// The first species, in registry order, whose representative lies
    /// within the threshold of the network.
    fn find_species(
        species: &Vec<Species>,
        config: &Config,
        threshold: u32,
        network: &NeuralNetwork,
    ) -> (r: Option<usize>)
        requires
            network.edges@.len() <= EDGE_BOUND,
            forall|s: int|
                0 <= s < species@.len() ==> (#[trigger] species@[s]).representative.edges@.len()
                    <= EDGE_BOUND,
        ensures
            ({
                let ff = first_fit_from(
                    reps_of(species_views(species@)),
                    *config,
                    threshold,
                    network@,
                    0,
                );
                match r {
                    Some(sp) => ff == Some(sp as int),
                    None => ff is None,
                }
            }),
    {
        let ghost reps = reps_of(species_views(species@));
        let mut s: usize = 0;
        while s < species.len()
            invariant
                s <= species@.len(),
                reps == reps_of(species_views(species@)),
                first_fit_from(reps, *config, threshold, network@, 0) == first_fit_from(
                    reps,
                    *config,
                    threshold,
                    network@,
                    s as int,
                ),
                network.edges@.len() <= EDGE_BOUND,
                forall|t: int|
                    0 <= t < species@.len() ==> (#[trigger] species@[t]).representative.edges@.len()
                        <= EDGE_BOUND,
            decreases species@.len() - s,
        {
            let dist = Solver::distance(config, &species[s].representative, network);
            proof {
                assert(reps[s as int] == species@[s as int].representative@);
            }
            if le_bits(dist, threshold) {
                return Some(s);
            }
            s = s + 1;
        }
        None
    }

    /// Group the networks into species: every network, in population order,
    /// joins the first species whose representative lies within the
    /// threshold, or founds a new species at the end of the registry.
    fn group_networks(&mut self)
        requires
            old(self).wf(),
        ensures
            final(self).networks == old(self).networks,
            final(self).network_size == old(self).network_size,
            final(self).generation_size == old(self).generation_size,
            final(self).generation == old(self).generation,
            final(self).distance_threshold == old(self).distance_threshold,
            final(self).config == old(self).config,
            ({
                let p = spec_group(
                    reps_of(species_views(old(self).species@)),
                    members_of(species_views(old(self).species@)),
                    old(self).config,
                    old(self).distance_threshold,
                    genome_views(old(self).networks@),
                );
                &&& reps_of(species_views(final(self).species@)) =~~= p.0
                &&& members_of(species_views(final(self).species@)) =~~= p.1
            }),
            forall|s: int|
                0 <= s < final(self).species@.len() ==> {
                    &&& (#[trigger] final(self).species@[s]).representative.wf_structure()
                    &&& final(self).species@[s].representative.edges@.len() <= EDGE_BOUND
                },
            final(self).wf(),
    {
        let ghost c = self.config;
        let ghost thr = self.distance_threshold;
        let ghost views = genome_views(self.networks@);
        let ghost reps0 = reps_of(species_views(self.species@));
        let ghost membs0 = members_of(species_views(self.species@));
        let mut g: usize = 0;
        while g < self.networks.len()
            invariant
                g <= self.networks@.len(),
                self.networks == old(self).networks,
                self.network_size == old(self).network_size,
                self.generation_size == old(self).generation_size,
                self.generation == old(self).generation,
                self.distance_threshold == old(self).distance_threshold,
                self.config == old(self).config,
                old(self).wf(),
                c == self.config,
                thr == self.distance_threshold,
                views == genome_views(self.networks@),
                reps_of(species_views(self.species@)) =~~= spec_group(
                    reps0,
                    membs0,
                    c,
                    thr,
                    views.take(g as int),
                ).0,
                members_of(species_views(self.species@)) =~~= spec_group(
                    reps0,
                    membs0,
                    c,
                    thr,
                    views.take(g as int),
                ).1,
                forall|s: int|
                    0 <= s < self.species@.len() ==> {
                        &&& (#[trigger] self.species@[s]).representative.wf_structure()
                        &&& self.species@[s].representative.edges@.len() <= EDGE_BOUND
                    },
            decreases self.networks@.len() - g,
        {
            let ghost pre_reps = reps_of(species_views(self.species@));
            let ghost pre_membs = members_of(species_views(self.species@));
            proof {
                assert(views.take(g + 1).drop_last() =~= views.take(g as int));
                assert(views.take(g + 1).last() == views[g as int]);
                assert(views[g as int] == self.networks@[g as int]@);
            }
            let found = Solver::find_species(
                &self.species,
                &self.config,
                self.distance_threshold,
                &self.networks[g],
            );
            match found {
                Some(sp) => {
                    proof {
                        lemma_first_fit_in_range(pre_reps, c, thr, views[g as int], 0);
                    }
                    let id = self.networks[g].id;
                    self.species[sp].members.push(id);
                    proof {
                        assert(reps_of(species_views(self.species@)) =~~= pre_reps);
                        assert(members_of(species_views(self.species@)) =~~= pre_membs.update(
                            sp as int,
                            pre_membs[sp as int].push(id),
                        ));
                    }
                },
                None => {
                    let rep = self.networks[g].clone_genome();
                    self.species.push(Species::new_with_network(rep));
                    proof {
                        assert(reps_of(species_views(self.species@)) =~~= pre_reps.push(
                            views[g as int],
                        ));
                        assert(members_of(species_views(self.species@)) =~~= pre_membs.push(
                            seq![views[g as int].id],
                        ));
                    }
                },
            }
            g = g + 1;
        }
        proof {
            assert(views.take(views.len() as int) =~= views);
        }
    }

    /// Remove every species whose membership ended up empty, keeping the
    /// registry's insertion order.
    fn remove_unused_species(&mut self)
        ensures
            final(self).networks == old(self).networks,
            final(self).network_size == old(self).network_size,
            final(self).generation_size == old(self).generation_size,
            final(self).generation == old(self).generation,
            final(self).distance_threshold == old(self).distance_threshold,
            final(self).config == old(self).config,
            ({
                let p = drop_empty(
                    reps_of(species_views(old(self).species@)),
                    members_of(species_views(old(self).species@)),
                );
                &&& reps_of(species_views(final(self).species@)) =~~= p.0
                &&& members_of(species_views(final(self).species@)) =~~= p.1
            }),
            forall|s: int|
                0 <= s < final(self).species@.len() ==> (#[trigger] final(self).species@[s]).members@.len()
                    > 0,
            forall|s: int|
                0 <= s < final(self).species@.len() ==> exists|t: int|
                    0 <= t < old(self).species@.len() && #[trigger] final(self).species@[s] == old(
                        self,
                    ).species@[t],
    {
        let ghost orig = self.species@;
        let ghost mut j: int = 0;
        let mut i: usize = 0;
        proof {
            assert(species_views(orig.take(0)) =~= Seq::<SpeciesView>::empty());
            assert(reps_of(Seq::<SpeciesView>::empty()) =~= Seq::<GenomeView>::empty());
            assert(members_of(Seq::<SpeciesView>::empty()) =~= Seq::<Seq<usize>>::empty());
            assert(self.species@.skip(0) =~= orig.skip(0));
        }
        while i < self.species.len()
            invariant
                0 <= i <= self.species@.len(),
                0 <= j <= orig.len(),
                i as int <= j,
                self.networks == old(self).networks,
                self.network_size == old(self).network_size,
                self.generation_size == old(self).generation_size,
                self.generation == old(self).generation,
                self.distance_threshold == old(self).distance_threshold,
                self.config == old(self).config,
                orig == old(self).species@,
                self.species@.len() == i + (orig.len() - j),
                reps_of(species_views(self.species@.take(i as int))) =~~= drop_empty(
                    reps_of(species_views(orig.take(j))),
                    members_of(species_views(orig.take(j))),
                ).0,
                members_of(species_views(self.species@.take(i as int))) =~~= drop_empty(
                    reps_of(species_views(orig.take(j))),
                    members_of(species_views(orig.take(j))),
                ).1,
                self.species@.skip(i as int) =~= orig.skip(j),
                forall|t: int| 0 <= t < i ==> (#[trigger] self.species@[t]).members@.len() > 0,
                forall|t: int|
                    0 <= t < i ==> exists|u: int|
                        0 <= u < orig.len() && #[trigger] self.species@[t] == orig[u],
            decreases self.species@.len() - i,
        {
            let ghost pre = self.species@;
            proof {
                assert(pre[i as int] == pre.skip(i as int)[0]);
                assert(pre[i as int] == orig[j]);
                assert(species_views(orig.take(j + 1)).drop_last() =~= species_views(
                    orig.take(j),
                ));
                assert(reps_of(species_views(orig.take(j + 1))).drop_last() =~= reps_of(
                    species_views(orig.take(j)),
                ));
                assert(members_of(species_views(orig.take(j + 1))).drop_last() =~= members_of(
                    species_views(orig.take(j)),
                ));
                assert(reps_of(species_views(orig.take(j + 1))).last() == orig[j].representative@);
                assert(members_of(species_views(orig.take(j + 1))).last() == orig[j].members@);
            }
            if self.species[i].is_unused() {
                self.species.remove(i);
                proof {
                    j = j + 1;
                    pre.remove_ensures(i as int);
                    assert(self.species@.take(i as int) =~= pre.take(i as int));
                    assert forall|t: int| 0 <= t < self.species@.skip(i as int).len() implies self.species@.skip(
                        i as int,
                    )[t] == orig.skip(j)[t] by {
                        assert(self.species@[i + t] == pre[i + t + 1]);
                        assert(pre[i + t + 1] == pre.skip(i as int)[t + 1]);
                        assert(pre.skip(i as int)[t + 1] == orig.skip(j - 1)[t + 1]);
                        assert(orig.skip(j - 1)[t + 1] == orig[j + t]);
                    }
                    assert(self.species@.skip(i as int) =~= orig.skip(j));
                }
            } else {
                i = i + 1;
                proof {
                    j = j + 1;
                    assert(self.species@.take(i as int) =~= pre.take(i - 1).push(orig[j - 1]));
                    assert(reps_of(species_views(self.species@.take(i as int))).drop_last()
                        =~= reps_of(species_views(pre.take(i - 1))));
                    assert(members_of(species_views(self.species@.take(i as int))).drop_last()
                        =~= members_of(species_views(pre.take(i - 1))));
                    assert(reps_of(species_views(self.species@.take(i as int))) =~~= reps_of(
                        species_views(pre.take(i - 1)),
                    ).push(orig[j - 1].representative@));
                    assert(members_of(species_views(self.species@.take(i as int))) =~~= members_of(
                        species_views(pre.take(i - 1)),
                    ).push(orig[j - 1].members@));
                    assert forall|t: int| 0 <= t < self.species@.skip(i as int).len() implies self.species@.skip(
                        i as int,
                    )[t] == orig.skip(j)[t] by {
                        assert(self.species@[i + t] == pre.skip(i - 1)[t + 1]);
                        assert(pre.skip(i - 1)[t + 1] == orig.skip(j - 1)[t + 1]);
                        assert(orig.skip(j - 1)[t + 1] == orig[j + t]);
                    }
                    assert(self.species@.skip(i as int) =~= orig.skip(j));
                }
            }
        }
        proof {
            assert(j == orig.len());
            assert(orig.take(j) =~= orig);
            assert(self.species@.take(i as int) =~= self.species@);
        }
    }

    /// Advance one generation: every species' membership is rebuilt from the
    /// current population (clear, regroup, prune the memberless), and the
    /// generation counter is incremented. Every population id ends up in
    /// exactly one species, and every surviving species has a member.
    pub fn new_generation(&mut self)
        requires
            old(self).wf(),
            old(self).generation < usize::MAX,
        ensures
            final(self).networks == old(self).networks,
            final(self).network_size == old(self).network_size,
            final(self).generation_size == old(self).generation_size,
            final(self).distance_threshold == old(self).distance_threshold,
            final(self).config == old(self).config,
            final(self).generation == old(self).generation + 1,
            final(self).wf(),
            ({
                let p = spec_group(
                    reps_of(species_views(old(self).species@)),
                    empty_members(old(self).species@.len() as nat),
                    old(self).config,
                    old(self).distance_threshold,
                    genome_views(old(self).networks@),
                );
                let q = drop_empty(p.0, p.1);
                &&& reps_of(species_views(final(self).species@)) =~~= q.0
                &&& members_of(species_views(final(self).species@)) =~~= q.1
            }),
            forall|s: int|
                0 <= s < final(self).species@.len() ==> (#[trigger] final(self).species@[s]).members@.len()
                    > 0,
            forall|i: int|
                0 <= i < old(self).networks@.len() ==> member_count(
                    members_of(species_views(final(self).species@)),
                    (#[trigger] old(self).networks@[i]).id,
                ) == 1,
    {
        let ghost c = self.config;
        let ghost thr = self.distance_threshold;
        let ghost views = genome_views(self.networks@);
        let ghost reps0 = reps_of(species_views(self.species@));
        let ghost n_species = self.species@.len() as nat;
        self.clear_species();
        let ghost cleared_reps = reps_of(species_views(self.species@));
        proof {
            assert(cleared_reps =~= reps0);
        }
        self.group_networks();
        let ghost p = spec_group(reps0, empty_members(n_species), c, thr, views);
        proof {
            assert(members_of(species_views(self.species@)) =~~= p.1);
            assert(reps_of(species_views(self.species@)) =~~= p.0);
            lemma_group_lens(reps0, empty_members(n_species), c, thr, views);
        }
        self.remove_unused_species();
        proof {
            let q = drop_empty(p.0, p.1);
            assert forall|i: int| 0 <= i < old(self).networks@.len() implies member_count(
                members_of(species_views(self.species@)),
                (#[trigger] old(self).networks@[i]).id,
            ) == 1 by {
                let id = old(self).networks@[i].id;
                lemma_drop_empty_facts(p.0, p.1, id);
                lemma_group_member_count(reps0, empty_members(n_species), c, thr, views, id);
                lemma_member_count_empty(n_species, id);
                assert forall|jj: int| 0 <= jj < views.len() implies (#[trigger] views[jj]).id
                    == jj by {
                    assert(views[jj] == old(self).networks@[jj]@);
                }
                lemma_count_ids_dense(views, id);
                assert(member_count(members_of(species_views(self.species@)), id) == member_count(
                    q.1,
                    id,
                ));
            }
        }
        self.generation = self.generation + 1;
    }
}

} // verus!
