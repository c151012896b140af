//! The compiled, directly executable form of a genome: an adjacency list
//! indexed by node position, a reusable node-value buffer, a topological
//! evaluation order and the positions of the output nodes.
use vstd::prelude::*;

use crate::NeatError;
use crate::float_bits::{POS_ZERO, abs_bits, add_bits, div_bits, f32_add, f32_div, f32_magnitude,
    f32_mul, mul_bits};
use crate::neuralnetwork::{Edge, NeuralNetwork, Node, NodeType, ONE_BITS, initial_edges,
    initial_nodes};

verus! {

/// The node-id-to-position table used while compiling a genome, kept in the
/// fast hash map the compiler was designed around.
pub type NodeIndexMap = std::collections::HashMap<usize, usize, rustc_hash::FxBuildHasher>;

#[verifier::external_type_specification]
#[verifier::external_body]
pub struct ExFxBuildHasher(rustc_hash::FxBuildHasher);

/// The empty id-to-position table.
pub open spec fn empty_index_map() -> Map<usize, usize> {
    Map::empty()
}

/// Relies on `std::collections::HashMap::default` with `rustc_hash`'s
/// `FxBuildHasher`: a freshly built map is empty.
#[verifier::external_body]
fn index_map_new() -> (r: NodeIndexMap)
    ensures
        r@ == empty_index_map(),
{
    std::collections::HashMap::default()
}

/// Relies on `std::collections::HashMap::insert` with `rustc_hash`'s
/// `FxBuildHasher` (a deterministic, lawful hasher): inserting binds the key
/// to the value and keeps every other binding.
#[verifier::external_body]
fn index_map_insert(m: &mut NodeIndexMap, k: usize, v: usize)
    ensures
        final(m)@ == old(m)@.insert(k, v),
{
    m.insert(k, v);
}

/// Relies on `std::collections::HashMap::get` with `rustc_hash`'s
/// `FxBuildHasher` (a deterministic, lawful hasher): the lookup returns the
/// value bound to the key, or nothing when the key is unbound.
#[verifier::external_body]
fn index_map_get(m: &NodeIndexMap, k: usize) -> (r: Option<usize>)
    ensures
        match r {
            Some(v) => m@.contains_key(k) && m@[k] == v,
            None => !m@.contains_key(k),
        },
{
    m.get(&k).copied()
}

/// The mapping from node id to node position that compilation builds: the
/// node at position `p` binds its id to `p`, later nodes overriding earlier
/// ones.
pub open spec fn id_map_of(nodes: Seq<Node>) -> Map<usize, usize>
    decreases nodes.len(),
{
    if nodes.len() == 0 {
        Map::empty()
    } else {
        id_map_of(nodes.drop_last()).insert(nodes.last().id, (nodes.len() - 1) as usize)
    }
}

/// Every node's id is bound in the id map, and every bound position is a
/// valid node position.
pub proof fn lemma_id_map_of_facts(nodes: Seq<Node>)
    ensures
        forall|j: int|
            0 <= j < nodes.len() ==> id_map_of(nodes).contains_key(#[trigger] nodes[j].id),
        forall|k: usize|
            id_map_of(nodes).contains_key(k) ==> #[trigger] id_map_of(nodes)[k] < nodes.len(),
    decreases nodes.len(),
{
    if nodes.len() > 0 {
        lemma_id_map_of_facts(nodes.drop_last());
        assert forall|j: int|
            0 <= j < nodes.len() implies id_map_of(nodes).contains_key(
            #[trigger] nodes[j].id,
        ) by {
            if j < nodes.len() - 1 {
                assert(nodes.drop_last()[j] == nodes[j]);
            }
        }
        let rec = id_map_of(nodes.drop_last());
        assert forall|k: usize| id_map_of(nodes).contains_key(k) implies #[trigger] id_map_of(
            nodes,
        )[k] < nodes.len() by {
            if k != nodes.last().id {
                assert(rec.contains_key(k) && id_map_of(nodes)[k] == rec[k]);
            }
        }
    }
}

/// In a genome with dense ids (the node at position `k` has id `k`), the id
/// map is the identity on `0 .. nodes.len()`.
pub proof fn lemma_id_map_of_dense(nodes: Seq<Node>)
    requires
        forall|k: int| 0 <= k < nodes.len() ==> (#[trigger] nodes[k]).id == k,
    ensures
        forall|k: usize| id_map_of(nodes).contains_key(k) <==> k < nodes.len(),
        forall|k: usize| k < nodes.len() ==> #[trigger] id_map_of(nodes)[k] == k,
    decreases nodes.len(),
{
    if nodes.len() > 0 {
        assert forall|k: int| 0 <= k < nodes.drop_last().len() implies (#[trigger] nodes.drop_last()[k]).id
            == k by {
            assert(nodes.drop_last()[k] == nodes[k]);
        }
        lemma_id_map_of_dense(nodes.drop_last());
        assert(nodes.last().id == nodes.len() - 1);
        let rec = id_map_of(nodes.drop_last());
        assert forall|k: usize| id_map_of(nodes).contains_key(k) implies k < nodes.len() by {
            if k != nodes.last().id {
                assert(rec.contains_key(k));
            }
        }
        assert forall|k: usize| k < nodes.len() implies #[trigger] id_map_of(nodes)[k] == k by {
            if k < nodes.len() - 1 {
                assert(rec.contains_key(k) && rec[k] == k);
            }
        }
    }
}

/// Whether every edge endpoint is bound in the id map; an unbound endpoint
/// is the fatal data-integrity violation compilation reports.
pub open spec fn edges_resolvable(m: Map<usize, usize>, edges: Seq<Edge>) -> bool {
    forall|k: int|
        0 <= k < edges.len() ==> m.contains_key((#[trigger] edges[k]).from) && m.contains_key(
            edges[k].to,
        )
}

/// The adjacency list compilation produces: `n` initially empty rows, and,
/// for every enabled edge in genome order, the pair `(destination position,
/// weight)` appended to the row of its source position. Disabled edges are
/// skipped entirely.
pub open spec fn spec_adjacency(m: Map<usize, usize>, edges: Seq<Edge>, n: nat) -> Seq<
    Seq<(usize, u32)>,
>
    decreases edges.len(),
{
    if edges.len() == 0 {
        Seq::new(n, |i: int| Seq::<(usize, u32)>::empty())
    } else {
        let prev = spec_adjacency(m, edges.drop_last(), n);
        let e = edges.last();
        if e.enabled && m.contains_key(e.from) && m.contains_key(e.to) && m[e.from] < n && m[e.to]
            < n {
            let from = m[e.from] as int;
            prev.update(from, prev[from].push((m[e.to], e.weight)))
        } else {
            prev
        }
    }
}

/// The adjacency list always has one row per node.
pub proof fn lemma_spec_adjacency_len(m: Map<usize, usize>, edges: Seq<Edge>, n: nat)
    ensures
        spec_adjacency(m, edges, n).len() == n,
    decreases edges.len(),
{
    if edges.len() > 0 {
        lemma_spec_adjacency_len(m, edges.drop_last(), n);
    }
}

/// When every bound position is below `n`, every destination stored in the
/// adjacency list is below `n`.
pub proof fn lemma_spec_adjacency_bounds(m: Map<usize, usize>, edges: Seq<Edge>, n: nat)
    requires
        forall|k: usize| m.contains_key(k) ==> #[trigger] m[k] < n,
        edges_resolvable(m, edges),
    ensures
        adj_wf(spec_adjacency(m, edges, n)),
    decreases edges.len(),
{
    lemma_spec_adjacency_len(m, edges, n);
    if edges.len() > 0 {
        assert(edges_resolvable(m, edges.drop_last())) by {
            assert(forall|k: int|
                0 <= k < edges.len() - 1 ==> edges.drop_last()[k] == edges[k]);
        }
        lemma_spec_adjacency_bounds(m, edges.drop_last(), n);
        lemma_spec_adjacency_len(m, edges.drop_last(), n);
        let prev = spec_adjacency(m, edges.drop_last(), n);
        let cur = spec_adjacency(m, edges, n);
        let e = edges.last();
        assert(m.contains_key(e.from) && m.contains_key(e.to));
        assert forall|i: int, j: int|
            0 <= i < cur.len() && 0 <= j < cur[i].len() implies (#[trigger] cur[i][j]).0
            < cur.len() by {
            if e.enabled && m[e.from] < n && m[e.to] < n {
                let from = m[e.from] as int;
                if i == from {
                    if j < prev[from].len() {
                        assert(cur[i][j] == prev[i][j]);
                    } else {
                        assert(cur[i][j] == (m[e.to], e.weight));
                    }
                } else {
                    assert(cur[i][j] == prev[i][j]);
                }
            } else {
                assert(cur[i][j] == prev[i][j]);
            }
        }
    }
}

/// The positions of the output nodes, read off the node sequence in order;
/// the scan stops at the first hidden node, because inputs come first, then
/// outputs, then hidden nodes.
pub open spec fn spec_outputs(m: Map<usize, usize>, nodes: Seq<Node>) -> Seq<usize>
    decreases nodes.len(),
{
    if nodes.len() == 0 {
        Seq::empty()
    } else {
        match nodes[0].node_type {
            NodeType::Hidden => Seq::empty(),
            NodeType::Output => seq![m[nodes[0].id]] + spec_outputs(m, nodes.drop_first()),
            NodeType::Input => spec_outputs(m, nodes.drop_first()),
        }
    }
}

/// When every bound position is below `n`, and every node's id is bound,
/// every collected output position is below `n`.
pub proof fn lemma_spec_outputs_bounds(m: Map<usize, usize>, nodes: Seq<Node>, n: nat)
    requires
        forall|k: usize| m.contains_key(k) ==> #[trigger] m[k] < n,
        forall|j: int| 0 <= j < nodes.len() ==> m.contains_key((#[trigger] nodes[j]).id),
    ensures
        forall|i: int|
            0 <= i < spec_outputs(m, nodes).len() ==> #[trigger] spec_outputs(m, nodes)[i] < n,
    decreases nodes.len(),
{
    if nodes.len() > 0 {
        assert forall|j: int|
            0 <= j < nodes.drop_first().len() implies m.contains_key(
            (#[trigger] nodes.drop_first()[j]).id,
        ) by {
            assert(nodes.drop_first()[j] == nodes[j + 1]);
        }
        lemma_spec_outputs_bounds(m, nodes.drop_first(), n);
        let rest = spec_outputs(m, nodes.drop_first());
        assert forall|i: int|
            0 <= i < spec_outputs(m, nodes).len() implies #[trigger] spec_outputs(m, nodes)[i]
            < n by {
            if nodes[0].node_type is Output {
                assert(m.contains_key(nodes[0].id));
                if i > 0 {
                    assert(spec_outputs(m, nodes)[i] == rest[i - 1]);
                }
            } else if nodes[0].node_type is Input {
                assert(spec_outputs(m, nodes)[i] == rest[i]);
            }
        }
    }
}

/// Every destination stored in an adjacency list is a valid row index.
pub open spec fn adj_wf(adj: Seq<Seq<(usize, u32)>>) -> bool {
    forall|i: int, j: int|
        0 <= i < adj.len() && 0 <= j < adj[i].len() ==> (#[trigger] adj[i][j]).0 < adj.len()
}

/// Every element of the sequence is below the bound.
pub open spec fn elems_below(s: Seq<usize>, n: nat) -> bool {
    forall|i: int| 0 <= i < s.len() ==> #[trigger] s[i] < n
}

/// How many entries of the sequence are false: the number of nodes a
/// traversal has not visited yet.
pub open spec fn count_false(s: Seq<bool>) -> nat
    decreases s.len(),
{
    if s.len() == 0 {
        0
    } else {
        count_false(s.drop_last()) + if s.last() {
            0nat
        } else {
            1nat
        }
    }
}

/// Marking an unvisited position visited lowers the unvisited count by one.
proof fn lemma_count_false_update(s: Seq<bool>, i: int)
    requires
        0 <= i < s.len(),
        !s[i],
    ensures
        count_false(s.update(i, true)) + 1 == count_false(s),
    decreases s.len(),
{
    if i == s.len() - 1 {
        assert(s.update(i, true).drop_last() =~= s.drop_last());
    } else {
        assert(s.update(i, true).drop_last() =~= s.drop_last().update(i, true));
        lemma_count_false_update(s.drop_last(), i);
    }
}

/// The stack after pushing the not-yet-visited destinations of a row, in row
/// order.
pub open spec fn push_unvisited(stack: Seq<usize>, row: Seq<(usize, u32)>, visited: Seq<bool>) -> Seq<
    usize,
>
    decreases row.len(),
{
    if row.len() == 0 {
        stack
    } else {
        let prev = push_unvisited(stack, row.drop_last(), visited);
        let t = row.last().0;
        if t < visited.len() && !visited[t as int] {
            prev.push(t)
        } else {
            prev
        }
    }
}

/// Pushing destinations below the bound keeps every stack element below the
/// bound.
proof fn lemma_push_unvisited_below(
    stack: Seq<usize>,
    row: Seq<(usize, u32)>,
    visited: Seq<bool>,
    n: nat,
)
    requires
        elems_below(stack, n),
        forall|j: int| 0 <= j < row.len() ==> (#[trigger] row[j]).0 < n,
    ensures
        elems_below(push_unvisited(stack, row, visited), n),
    decreases row.len(),
{
    if row.len() > 0 {
        assert(forall|j: int|
            0 <= j < row.drop_last().len() ==> (#[trigger] row.drop_last()[j]).0 < n);
        lemma_push_unvisited_below(stack, row.drop_last(), visited, n);
    }
}

/// Whether a traversal state is consistent: one visited flag and one order
/// slot per node, the write cursor in range, every stack element a valid
/// node, and every adjacency destination a valid node.
pub open spec fn topo_state_wf(
    adj: Seq<Seq<(usize, u32)>>,
    stack: Seq<usize>,
    visited: Seq<bool>,
    order: Seq<usize>,
    idx: int,
) -> bool {
    &&& adj_wf(adj)
    &&& visited.len() == adj.len()
    &&& order.len() == adj.len()
    &&& 0 <= idx < adj.len()
    &&& elems_below(stack, adj.len())
}

/// One run of the ordering traversal, from the given state to the finished
/// order: while the stack is non-empty, peek its top; a visited node is
/// popped and written at the cursor (which moves toward the front and stays
/// there), an unvisited node is marked visited and its not-yet-visited
/// destinations are pushed.
pub open spec fn topo_run(
    adj: Seq<Seq<(usize, u32)>>,
    stack: Seq<usize>,
    visited: Seq<bool>,
    order: Seq<usize>,
    idx: int,
) -> Seq<usize>
    decreases count_false(visited), stack.len(),
    when topo_state_wf(adj, stack, visited, order, idx) || stack.len() == 0
    via topo_run_decreases
{
    if stack.len() == 0 {
        order
    } else {
        let elem = stack.last();
        if visited[elem as int] {
            topo_run(
                adj,
                stack.drop_last(),
                visited,
                order.update(idx, elem),
                if idx > 0 {
                    idx - 1
                } else {
                    0
                },
            )
        } else {
            topo_run(
                adj,
                push_unvisited(stack, adj[elem as int], visited.update(elem as int, true)),
                visited.update(elem as int, true),
                order,
                idx,
            )
        }
    }
}

#[via_fn]
proof fn topo_run_decreases(
    adj: Seq<Seq<(usize, u32)>>,
    stack: Seq<usize>,
    visited: Seq<bool>,
    order: Seq<usize>,
    idx: int,
) {
    if stack.len() > 0 {
        let elem = stack.last();
        if !visited[elem as int] {
            lemma_count_false_update(visited, elem as int);
        }
    }
}

/// The traversal never invalidates its state, keeps one order slot per node,
/// and writes only valid node positions.
pub proof fn lemma_topo_run_wf(
    adj: Seq<Seq<(usize, u32)>>,
    stack: Seq<usize>,
    visited: Seq<bool>,
    order: Seq<usize>,
    idx: int,
)
    requires
        topo_state_wf(adj, stack, visited, order, idx),
        elems_below(order, adj.len()),
    ensures
        topo_run(adj, stack, visited, order, idx).len() == adj.len(),
        elems_below(topo_run(adj, stack, visited, order, idx), adj.len()),
    decreases count_false(visited), stack.len(),
{
    if stack.len() > 0 {
        let elem = stack.last();
        if visited[elem as int] {
            let order2 = order.update(idx, elem);
            let idx2: int = if idx > 0 {
                idx - 1
            } else {
                0
            };
            lemma_topo_run_wf(adj, stack.drop_last(), visited, order2, idx2);
        } else {
            lemma_count_false_update(visited, elem as int);
            lemma_push_unvisited_below(
                stack,
                adj[elem as int],
                visited.update(elem as int, true),
                adj.len(),
            );
            lemma_topo_run_wf(
                adj,
                push_unvisited(stack, adj[elem as int], visited.update(elem as int, true)),
                visited.update(elem as int, true),
                order,
                idx,
            );
        }
    }
}

/// The seed stack of the traversal: the bias position and every input
/// position, in order.
pub open spec fn seed_stack(input_nodes: nat) -> Seq<usize> {
    Seq::new(input_nodes + 1, |i: int| i as usize)
}

/// The topological evaluation order of an adjacency list, as the traversal
/// computes it: seeded with every input position, no node visited, every
/// order slot holding position zero, and the write cursor on the last slot.
pub open spec fn spec_topo_order(adj: Seq<Seq<(usize, u32)>>, input_nodes: nat) -> Seq<usize> {
    topo_run(
        adj,
        seed_stack(input_nodes),
        Seq::new(adj.len(), |i: int| false),
        Seq::new(adj.len(), |i: int| 0usize),
        adj.len() - 1,
    )
}

/// Graph representation of a genome, used to compute its outputs.
#[derive(Debug, Clone)]
pub struct Phenotype {
    /// For each node position, the list of `(destination position, weight
    /// bit pattern)` pairs of its enabled outgoing edges.
    pub edges: Vec<Vec<(usize, u32)>>,
    /// The value of each node during a computation, as binary32 bit
    /// patterns; empty between computations.
    pub node_value_array: Vec<u32>,
    /// The order in which nodes are processed, so that a node is processed
    /// only after the nodes feeding into it.
    pub topo_order: Vec<usize>,
    /// The positions of the output nodes, in declaration order.
    pub outputs: Vec<usize>,
}

/// The view of an adjacency list held in vectors.
pub open spec fn view_adj(edges: Seq<Vec<(usize, u32)>>) -> Seq<Seq<(usize, u32)>> {
    Seq::new(edges.len(), |i: int| edges[i]@)
}

impl Phenotype {
    /// Function to create the topological order, so that no node is
    /// processed before the nodes feeding into it (within what the iterative
    /// depth-first traversal guarantees). Every input position is a seed.
    #[verifier::loop_isolation(false)]
    fn create_topo_order(edges: &Vec<Vec<(usize, u32)>>, input_nodes: usize) -> (r: Vec<usize>)
        requires
            input_nodes < edges@.len(),
            adj_wf(view_adj(edges@)),
        ensures
            r@ == spec_topo_order(view_adj(edges@), input_nodes as nat),
            r@.len() == edges@.len(),
            elems_below(r@, edges@.len() as nat),
    {
        let ghost adj = view_adj(edges@);
        let n = edges.len();
        let mut stack: Vec<usize> = Vec::new();
        let mut i: usize = 0;
        while i <= input_nodes
            invariant
                i <= input_nodes + 1,
                stack@ == seed_stack(input_nodes as nat).take(i as int),
            decreases input_nodes + 1 - i,
        {
            stack.push(i);
            i = i + 1;
        }
        proof {
            assert(stack@ =~= seed_stack(input_nodes as nat));
        }
        let mut visited: Vec<bool> = Vec::new();
        let mut order: Vec<usize> = Vec::new();
        let mut k: usize = 0;
        while k < n
            invariant
                k <= n,
                visited@ =~= Seq::new(k as nat, |i: int| false),
                order@ =~= Seq::new(k as nat, |i: int| 0usize),
            decreases n - k,
        {
            visited.push(false);
            order.push(0);
            k = k + 1;
        }
        let ghost init_stack = stack@;
        let ghost init_visited = visited@;
        let ghost init_order = order@;
        let mut idx: usize = n - 1;
        proof {
            assert(topo_state_wf(adj, stack@, visited@, order@, idx as int));
        }
        while stack.len() > 0
            invariant
                topo_state_wf(adj, stack@, visited@, order@, idx as int),
                topo_run(adj, stack@, visited@, order@, idx as int) == topo_run(
                    adj,
                    init_stack,
                    init_visited,
                    init_order,
                    n - 1,
                ),
            decreases count_false(visited@), stack@.len(),
        {
            let elem = stack[stack.len() - 1];
            if visited[elem] {
                let ghost pre_stack = stack@;
                let ghost pre_order = order@;
                let ghost pre_idx = idx as int;
                stack.pop();
                order[idx] = elem;
                if idx > 0 {
                    idx = idx - 1;
                }
                proof {
                    assert(stack@ =~= pre_stack.drop_last());
                    assert(topo_run(adj, pre_stack, visited@, pre_order, pre_idx) == topo_run(
                        adj,
                        stack@,
                        visited@,
                        order@,
                        idx as int,
                    ));
                }
            } else {
                let ghost pre_stack = stack@;
                let ghost pre_visited = visited@;
                visited[elem] = true;
                let mut j: usize = 0;
                while j < edges[elem].len()
                    invariant
                        elem < n,
                        j <= edges@[elem as int]@.len(),
                        visited@ == pre_visited.update(elem as int, true),
                        stack@ == push_unvisited(
                            pre_stack,
                            adj[elem as int].take(j as int),
                            visited@,
                        ),
                        elems_below(stack@, n as nat),
                    decreases edges@[elem as int]@.len() - j,
                {
                    let t = edges[elem][j].0;
                    proof {
                        assert(adj[elem as int].take(j + 1).drop_last() =~= adj[elem as int].take(
                            j as int,
                        ));
                        assert(adj[elem as int].take(j + 1).last() == adj[elem as int][j as int]);
                    }
                    if !visited[t] {
                        stack.push(t);
                    }
                    j = j + 1;
                }
                proof {
                    let ghost row = adj[elem as int];
                    assert(row.take(edges@[elem as int]@.len() as int) =~= row);
                    lemma_count_false_update(pre_visited, elem as int);
                    lemma_push_unvisited_below(pre_stack, row, visited@, n as nat);
                    assert(topo_run(adj, pre_stack, pre_visited, order@, idx as int) == topo_run(
                        adj,
                        stack@,
                        visited@,
                        order@,
                        idx as int,
                    ));
                }
            }
        }
        proof {
            assert(topo_run(adj, stack@, visited@, order@, idx as int) == order@);
            lemma_topo_run_wf(adj, init_stack, init_visited, init_order, n - 1);
        }
        order
    }
}


/// The bit-level result of the activation function `x / (1 + |x|)`, the
/// saturating sigmoid approximation, on a binary32 bit pattern.
pub open spec fn sigmoid_spec(x: u32) -> u32 {
    f32_div(x, f32_add(ONE_BITS, f32_magnitude(x)))
}

/// Sigmoid activation function, approximated by `x / (1 + |x|)` in binary32
/// arithmetic on bit patterns.
pub fn sigmoid(x: u32) -> (r: u32)
    ensures
        r == sigmoid_spec(x),
{
    div_bits(x, add_bits(ONE_BITS, abs_bits(x)))
}

/// The node values after one node's activated value has been propagated
/// along the destinations of a row, in row order: each destination gains
/// `weight * value`.
pub open spec fn propagate(row: Seq<(usize, u32)>, vals: Seq<u32>, nv: u32) -> Seq<u32>
    decreases row.len(),
{
    if row.len() == 0 {
        vals
    } else {
        let prev = propagate(row.drop_last(), vals, nv);
        let (t, w) = row.last();
        if t < prev.len() {
            prev.update(t as int, f32_add(prev[t as int], f32_mul(w, nv)))
        } else {
            prev
        }
    }
}

/// Propagation never changes how many values there are.
pub proof fn lemma_propagate_len(row: Seq<(usize, u32)>, vals: Seq<u32>, nv: u32)
    ensures
        propagate(row, vals, nv).len() == vals.len(),
    decreases row.len(),
{
    if row.len() > 0 {
        lemma_propagate_len(row.drop_last(), vals, nv);
    }
}

/// The node values after one node of the evaluation order has been
/// processed: its own value is replaced by its activation, which is then
/// propagated along its outgoing row.
pub open spec fn eval_step(adj: Seq<Seq<(usize, u32)>>, vals: Seq<u32>, node: usize) -> Seq<u32> {
    if node < adj.len() && node < vals.len() {
        let sv = sigmoid_spec(vals[node as int]);
        propagate(adj[node as int], vals.update(node as int, sv), sv)
    } else {
        vals
    }
}

/// The node values after every node of the evaluation order has been
/// processed, in order.
pub open spec fn eval_order(adj: Seq<Seq<(usize, u32)>>, order: Seq<usize>, vals: Seq<u32>) -> Seq<
    u32,
>
    decreases order.len(),
{
    if order.len() == 0 {
        vals
    } else {
        eval_step(adj, eval_order(adj, order.drop_last(), vals), order.last())
    }
}

/// Evaluation never changes how many values there are.
pub proof fn lemma_eval_order_len(adj: Seq<Seq<(usize, u32)>>, order: Seq<usize>, vals: Seq<u32>)
    ensures
        eval_order(adj, order, vals).len() == vals.len(),
    decreases order.len(),
{
    if order.len() > 0 {
        lemma_eval_order_len(adj, order.drop_last(), vals);
        let prev = eval_order(adj, order.drop_last(), vals);
        let node = order.last();
        if node < adj.len() && node < prev.len() {
            lemma_propagate_len(
                adj[node as int],
                prev.update(node as int, sigmoid_spec(prev[node as int])),
                sigmoid_spec(prev[node as int]),
            );
        }
    }
}

/// The initial node-value buffer of a computation: one for the bias node,
/// the supplied inputs in order, zero everywhere else.
pub open spec fn init_values(n: nat, inputs: Seq<u32>) -> Seq<u32> {
    Seq::new(
        n,
        |i: int|
            if i == 0 {
                ONE_BITS
            } else if i <= inputs.len() {
                inputs[i - 1]
            } else {
                POS_ZERO
            },
    )
}

/// The values read off the buffer at the output positions, in order.
pub open spec fn read_outputs(vals: Seq<u32>, outs: Seq<usize>) -> Seq<u32> {
    Seq::new(outs.len(), |i: int| vals[outs[i] as int])
}

/// What one forward pass of a phenotype returns for the given inputs: the
/// initial buffer, evaluated along the whole order, read at the outputs.
pub open spec fn spec_compute(p: Phenotype, inputs: Seq<u32>) -> Seq<u32> {
    read_outputs(
        eval_order(
            view_adj(p.edges@),
            p.topo_order@,
            init_values(p.edges@.len() as nat, inputs),
        ),
        p.outputs@,
    )
}

/// What evaluating a genome on the given inputs returns: the genome is
/// compiled (id map, adjacency list, output positions, evaluation order)
/// and one forward pass is run.
pub open spec fn spec_genome_outputs(nn: NeuralNetwork, inputs: Seq<u32>) -> Seq<u32> {
    let m = id_map_of(nn.nodes@);
    let n = nn.nodes@.len() as nat;
    let adj = spec_adjacency(m, nn.edges@, n);
    read_outputs(
        eval_order(adj, spec_topo_order(adj, nn.size.0 as nat), init_values(n, inputs)),
        spec_outputs(m, nn.nodes@),
    )
}

/// Whether the phenotype is exactly what compiling the genome produces:
/// the adjacency list of its enabled edges, the output positions, and the
/// traversal's evaluation order.
pub open spec fn compiles_to(nn: NeuralNetwork, p: Phenotype) -> bool {
    let m = id_map_of(nn.nodes@);
    let n = nn.nodes@.len() as nat;
    &&& view_adj(p.edges@) == spec_adjacency(m, nn.edges@, n)
    &&& p.outputs@ == spec_outputs(m, nn.nodes@)
    &&& p.topo_order@ == spec_topo_order(spec_adjacency(m, nn.edges@, n), nn.size.0 as nat)
}

impl Phenotype {
    /// Whether the phenotype's parts fit together: one adjacency row per
    /// node, and every destination, order entry and output position a valid
    /// node position.
    pub open spec fn wf(self) -> bool {
        let n = self.edges@.len() as nat;
        &&& adj_wf(view_adj(self.edges@))
        &&& self.topo_order@.len() == n
        &&& elems_below(self.topo_order@, n)
        &&& elems_below(self.outputs@, n)
    }

    /// Construct a phenotype from a genome.
    ///
    /// Builds the id-to-position table, collects the output positions,
    /// translates every enabled edge into the adjacency list, and computes
    /// the evaluation order. An edge endpoint that is not the id of any node
    /// is a fatal data-integrity violation and is reported as an invalid
    /// genome, never ignored.
    #[verifier::loop_isolation(false)]
    pub fn from_nn(nn: &NeuralNetwork) -> (r: Result<Phenotype, NeatError>)
        requires
            nn.size.0 + 1 <= nn.nodes@.len(),
        ensures
            match r {
                Ok(p) => {
                    &&& edges_resolvable(id_map_of(nn.nodes@), nn.edges@)
                    &&& compiles_to(*nn, p)
                    &&& p.wf()
                    &&& p.edges@.len() == nn.nodes@.len()
                    &&& p.node_value_array@.len() == 0
                },
                Err(e) => {
                    &&& e == NeatError::InvalidGenome
                    &&& !edges_resolvable(id_map_of(nn.nodes@), nn.edges@)
                },
            },
    {
        let input_length = nn.size.0;
        let n = nn.nodes.len();
        let ghost m = id_map_of(nn.nodes@);
        proof {
            lemma_id_map_of_facts(nn.nodes@);
        }
        let node_index_map = Phenotype::create_node_index_mapping(&nn.nodes);
        let mut edges: Vec<Vec<(usize, u32)>> = Vec::new();
        let mut k: usize = 0;
        while k < n
            invariant
                k <= n,
                view_adj(edges@) =~~= Seq::new(k as nat, |i: int| Seq::<(usize, u32)>::empty()),
            decreases n - k,
        {
            let ghost pre = edges@;
            let row: Vec<(usize, u32)> = Vec::new();
            edges.push(row);
            k = k + 1;
            proof {
                assert forall|i2: int| 0 <= i2 < edges@.len() implies view_adj(edges@)[i2]
                    =~= Seq::<(usize, u32)>::empty() by {
                    if i2 < k - 1 {
                        assert(edges@[i2] == pre[i2]);
                        assert(view_adj(pre)[i2] == pre[i2]@);
                    }
                }
            }
        }
        let mut outputs: Vec<usize> = Vec::new();
        let mut i: usize = 0;
        let mut stop = false;
        proof {
            assert(nn.nodes@.skip(0) =~= nn.nodes@);
        }
        while i < n && !stop
            invariant
                i <= n,
                stop ==> outputs@ =~= spec_outputs(m, nn.nodes@),
                !stop ==> outputs@ + spec_outputs(m, nn.nodes@.skip(i as int)) =~= spec_outputs(
                    m,
                    nn.nodes@,
                ),
            decreases n - i, (if stop { 0int } else { 1int }),
        {
            let ghost rest = nn.nodes@.skip(i as int);
            proof {
                assert(rest[0] == nn.nodes@[i as int]);
                assert(rest.drop_first() =~= nn.nodes@.skip(i + 1));
            }
            match nn.nodes[i].node_type {
                NodeType::Hidden => {
                    proof {
                        assert(spec_outputs(m, rest) =~= Seq::<usize>::empty());
                        assert(outputs@ + spec_outputs(m, rest) =~= outputs@);
                    }
                    stop = true;
                },
                NodeType::Output => {
                    let p = match index_map_get(&node_index_map, nn.nodes[i].id) {
                        Some(p) => p,
                        None => {
                            proof {
                                assert(false);
                            }
                            vstd::pervasive::unreached()
                        },
                    };
                    outputs.push(p);
                    proof {
                        assert(spec_outputs(m, rest) =~= seq![m[nn.nodes@[i as int].id]]
                            + spec_outputs(m, nn.nodes@.skip(i + 1)));
                    }
                },
                NodeType::Input => {
                    proof {
                        assert(spec_outputs(m, rest) =~= spec_outputs(m, nn.nodes@.skip(i + 1)));
                    }
                },
            }
            if !stop {
                i = i + 1;
                proof {
                    assert(outputs@ + spec_outputs(m, nn.nodes@.skip(i as int)) =~= spec_outputs(
                        m,
                        nn.nodes@,
                    ));
                }
            }
        }
        proof {
            if !stop {
                assert(nn.nodes@.skip(n as int) =~= Seq::<Node>::empty());
                assert(outputs@ + spec_outputs(m, nn.nodes@.skip(n as int)) =~= outputs@);
            }
            assert(outputs@ =~= spec_outputs(m, nn.nodes@));
        }
        let mut e: usize = 0;
        while e < nn.edges.len()
            invariant
                e <= nn.edges@.len(),
                edges_resolvable(m, nn.edges@.take(e as int)),
                view_adj(edges@) =~~= spec_adjacency(m, nn.edges@.take(e as int), n as nat),
                edges@.len() == n,
            decreases nn.edges@.len() - e,
        {
            let ghost pre = view_adj(edges@);
            let edge = nn.edges[e];
            let from = match index_map_get(&node_index_map, edge.from) {
                Some(p) => p,
                None => {
                    return Err(NeatError::InvalidGenome);
                },
            };
            let to = match index_map_get(&node_index_map, edge.to) {
                Some(p) => p,
                None => {
                    return Err(NeatError::InvalidGenome);
                },
            };
            proof {
                assert(nn.edges@.take(e + 1).drop_last() =~= nn.edges@.take(e as int));
                assert(nn.edges@.take(e + 1).last() == nn.edges@[e as int]);
            }
            if edge.enabled {
                edges[from].push((to, edge.weight));
                proof {
                    assert(view_adj(edges@) =~~= pre.update(
                        from as int,
                        pre[from as int].push((to, edge.weight)),
                    ));
                }
            }
            e = e + 1;
            proof {
                assert(view_adj(edges@) =~~= spec_adjacency(
                    m,
                    nn.edges@.take(e as int),
                    n as nat,
                ));
            }
        }
        proof {
            assert(nn.edges@.take(nn.edges@.len() as int) =~= nn.edges@);
            lemma_spec_adjacency_bounds(m, nn.edges@, n as nat);
            lemma_spec_outputs_bounds(m, nn.nodes@, n as nat);
        }
        let node_value_array: Vec<u32> = Vec::new();
        let topo_order: Vec<usize> = Phenotype::create_topo_order(&edges, input_length);
        Ok(Phenotype { edges, node_value_array, topo_order, outputs })
    }

    /// Creating the node index mapping: the id of the node at every position
    /// is bound to that position.
    fn create_node_index_mapping(nodes: &Vec<Node>) -> (r: NodeIndexMap)
        ensures
            r@ == id_map_of(nodes@),
    {
        let mut map = index_map_new();
        let mut idx: usize = 0;
        while idx < nodes.len()
            invariant
                idx <= nodes@.len(),
                map@ == id_map_of(nodes@.take(idx as int)),
            decreases nodes@.len() - idx,
        {
            index_map_insert(&mut map, nodes[idx].id, idx);
            proof {
                assert(nodes@.take(idx + 1).drop_last() =~= nodes@.take(idx as int));
                assert(nodes@.take(idx + 1).last() == nodes@[idx as int]);
            }
            idx = idx + 1;
        }
        proof {
            assert(nodes@.take(nodes@.len() as int) =~= nodes@);
        }
        map
    }

    /// Computing the outputs of the network for the given input values.
    ///
    /// The buffer is initialized (bias one, then the inputs, then zeros),
    /// the nodes are processed in the evaluation order (each node's value is
    /// activated and then propagated along its outgoing edges), and the
    /// values at the output positions are returned. An input vector too long
    /// for the network is rejected.
    #[verifier::loop_isolation(false)]
    pub fn compute(&mut self, inputs: Vec<u32>) -> (r: Result<Vec<u32>, NeatError>)
        requires
            old(self).wf(),
        ensures
            final(self).edges == old(self).edges,
            final(self).topo_order == old(self).topo_order,
            final(self).outputs == old(self).outputs,
            match r {
                Ok(out) => {
                    &&& inputs@.len() + 1 <= old(self).edges@.len()
                    &&& out@ == spec_compute(*old(self), inputs@)
                    &&& final(self).node_value_array@ == eval_order(
                        view_adj(old(self).edges@),
                        old(self).topo_order@,
                        init_values(old(self).edges@.len() as nat, inputs@),
                    )
                },
                Err(e) => {
                    &&& e == NeatError::InputArityMismatch
                    &&& inputs@.len() + 1 > old(self).edges@.len()
                    &&& *final(self) == *old(self)
                },
            },
    {
        let n = self.edges.len();
        if inputs.len() >= n {
            return Err(NeatError::InputArityMismatch);
        }
        let ghost adj = view_adj(self.edges@);
        let ghost init = init_values(n as nat, inputs@);
        self.node_value_array.clear();
        self.node_value_array.push(crate::neuralnetwork::ONE_BITS);
        let input_length = inputs.len();
        let mut i: usize = 0;
        while i < input_length
            invariant
                i <= input_length,
                self.node_value_array@ =~= init.take(i + 1),
                self.edges == old(self).edges,
                self.topo_order == old(self).topo_order,
                self.outputs == old(self).outputs,
            decreases input_length - i,
        {
            self.node_value_array.push(inputs[i]);
            i = i + 1;
        }
        while self.node_value_array.len() < n
            invariant
                self.node_value_array@.len() >= input_length + 1,
                self.node_value_array@.len() <= n,
                self.node_value_array@ =~= init.take(self.node_value_array@.len() as int),
                self.edges == old(self).edges,
                self.topo_order == old(self).topo_order,
                self.outputs == old(self).outputs,
            decreases n - self.node_value_array@.len(),
        {
            self.node_value_array.push(POS_ZERO);
        }
        proof {
            assert(self.node_value_array@ =~= init);
        }
        let mut t: usize = 0;
        while t < self.topo_order.len()
            invariant
                t <= self.topo_order@.len(),
                self.node_value_array@ =~= eval_order(adj, self.topo_order@.take(t as int), init),
                self.node_value_array@.len() == n,
                self.edges == old(self).edges,
                self.topo_order == old(self).topo_order,
                self.outputs == old(self).outputs,
            decreases self.topo_order@.len() - t,
        {
            let ghost pre_vals = self.node_value_array@;
            let node = self.topo_order[t];
            let v = self.node_value_array[node];
            let sv = sigmoid(v);
            self.node_value_array[node] = sv;
            let ghost mid_vals = pre_vals.update(node as int, sv);
            let row_len = self.edges[node].len();
            let mut j: usize = 0;
            while j < row_len
                invariant
                    j <= row_len,
                    node < n,
                    row_len == adj[node as int].len(),
                    self.node_value_array@ =~= propagate(
                        adj[node as int].take(j as int),
                        mid_vals,
                        sv,
                    ),
                    self.node_value_array@.len() == n,
                self.edges == old(self).edges,
                self.topo_order == old(self).topo_order,
                self.outputs == old(self).outputs,
                decreases row_len - j,
            {
                let ghost pre = self.node_value_array@;
                let (to, w) = self.edges[node][j];
                let cur = self.node_value_array[to];
                self.node_value_array[to] = add_bits(cur, mul_bits(w, sv));
                proof {
                    assert(adj[node as int].take(j + 1).drop_last() =~= adj[node as int].take(
                        j as int,
                    ));
                    assert(adj[node as int].take(j + 1).last() == adj[node as int][j as int]);
                    assert(self.node_value_array@ =~= propagate(
                        adj[node as int].take(j + 1),
                        mid_vals,
                        sv,
                    ));
                }
                j = j + 1;
            }
            t = t + 1;
            proof {
                let ghost row = adj[node as int];
                assert(row.take(row_len as int) =~= row);
                assert(self.topo_order@.take(t as int).drop_last() =~= self.topo_order@.take(
                    t - 1,
                ));
                assert(self.topo_order@.take(t as int).last() == self.topo_order@[t - 1]);
                assert(self.node_value_array@ =~= eval_order(
                    adj,
                    self.topo_order@.take(t as int),
                    init,
                ));
            }
        }
        proof {
            assert(self.topo_order@.take(self.topo_order@.len() as int) =~= self.topo_order@);
        }
        let mut outs: Vec<u32> = Vec::new();
        let mut o: usize = 0;
        while o < self.outputs.len()
            invariant
                o <= self.outputs@.len(),
                outs@ =~= read_outputs(self.node_value_array@, self.outputs@.take(o as int)),
                self.node_value_array@.len() == n,
                self.edges == old(self).edges,
                self.topo_order == old(self).topo_order,
                self.outputs == old(self).outputs,
            decreases self.outputs@.len() - o,
        {
            let pos = self.outputs[o];
            outs.push(self.node_value_array[pos]);
            o = o + 1;
            proof {
                assert(outs@ =~= read_outputs(
                    self.node_value_array@,
                    self.outputs@.take(o as int),
                ));
            }
        }
        proof {
            assert(self.outputs@.take(self.outputs@.len() as int) =~= self.outputs@);
        }
        Ok(outs)
    }

    /// Reset the phenotype for reuse: only the node-value buffer is cleared,
    /// the compiled structure is kept, so repeated computation does not
    /// recompile.
    pub fn reset(&mut self)
        ensures
            final(self).node_value_array@.len() == 0,
            final(self).edges == old(self).edges,
            final(self).topo_order == old(self).topo_order,
            final(self).outputs == old(self).outputs,
    {
        self.node_value_array.clear();
    }
}

/// The identity order on `n` positions.
pub open spec fn identity_order(n: nat) -> Seq<usize> {
    Seq::new(n, |k: int| k as usize)
}

/// The adjacency row of every input node of a freshly constructed genome:
/// one default edge to every output position, in ascending order.
pub open spec fn full_initial_row(inp: nat, out: nat) -> Seq<(usize, u32)> {
    Seq::new(out, |b: int| (((inp + 1 + b) as usize), ONE_BITS))
}

/// The adjacency list of a freshly constructed genome: every input row full,
/// every output row empty.
pub open spec fn initial_adj(inp: nat, out: nat) -> Seq<Seq<(usize, u32)>> {
    Seq::new(
        inp + 1 + out,
        |k: int|
            if k <= inp {
                full_initial_row(inp, out)
            } else {
                Seq::empty()
            },
    )
}

/// The partially built adjacency list after the first `t` initial edges:
/// rows fill up in source order, `out` edges per row.
spec fn partial_initial_adj(inp: nat, out: nat, t: int) -> Seq<Seq<(usize, u32)>> {
    Seq::new(
        inp + 1 + out,
        |k: int|
            if (k + 1) * out <= t {
                full_initial_row(inp, out)
            } else if k * out < t {
                full_initial_row(inp, out).take(t - k * out)
            } else {
                Seq::empty()
            },
    )
}

/// A fresh genome's adjacency list is well formed: every destination is an
/// output position.
proof fn lemma_initial_adj_wf(inp: nat, out: nat)
    requires
        inp + 1 + out <= usize::MAX,
    ensures
        adj_wf(initial_adj(inp, out)),
        forall|j: int|
            0 <= j < out ==> (#[trigger] full_initial_row(inp, out)[j]).0 == inp + 1 + j,
{
    assert forall|j: int| 0 <= j < out implies (#[trigger] full_initial_row(inp, out)[j]).0 == inp
        + 1 + j by {
        assert(((inp + 1 + j) as usize) as int == inp + 1 + j);
    }
    assert forall|i: int, j: int|
        0 <= i < initial_adj(inp, out).len() && 0 <= j < initial_adj(inp, out)[i].len() implies (
    #[trigger] initial_adj(inp, out)[i][j]).0 < initial_adj(inp, out).len() by {
        assert(initial_adj(inp, out)[i][j] == full_initial_row(inp, out)[j]);
    }
}

/// Compiling the edges of a freshly constructed genome yields the full
/// bipartite adjacency list.
proof fn lemma_initial_adjacency_steps(inp: nat, out: nat, t: int)
    requires
        out >= 1,
        inp + 1 + out <= usize::MAX,
        0 <= t <= (inp + 1) * out,
    ensures
        spec_adjacency(
            id_map_of(initial_nodes(inp, out)),
            initial_edges(inp, out).take(t),
            inp + 1 + out,
        ) =~~= partial_initial_adj(inp, out, t),
    decreases t,
{
    let m = id_map_of(initial_nodes(inp, out));
    let n: nat = inp + 1 + out;
    let edges = initial_edges(inp, out);
    assert forall|k: int| 0 <= k < initial_nodes(inp, out).len() implies (#[trigger] initial_nodes(
        inp,
        out,
    )[k]).id == k by {
        assert((k as usize) as int == k);
    }
    lemma_id_map_of_dense(initial_nodes(inp, out));
    if t == 0 {
        assert(edges.take(0) =~= Seq::<Edge>::empty());
        let cur = spec_adjacency(m, edges.take(0), n);
        assert forall|k: int| 0 <= k < n implies cur[k] =~= partial_initial_adj(
            inp,
            out,
            0,
        )[k] by {
            assert((k + 1) * out >= 1) by (nonlinear_arith)
                requires
                    k >= 0,
                    out >= 1,
            ;
        }
        assert(cur =~~= partial_initial_adj(inp, out, 0));
    } else {
        lemma_initial_adjacency_steps(inp, out, t - 1);
        let prev = spec_adjacency(m, edges.take(t - 1), n);
        assert(edges.take(t).drop_last() =~= edges.take(t - 1));
        let e = edges[t - 1];
        let a = (t - 1) / (out as int);
        let r = (t - 1) % (out as int);
        vstd::arithmetic::div_mod::lemma_fundamental_div_mod(t - 1, out as int);
        vstd::arithmetic::div_mod::lemma_mod_division_less_than_divisor(t - 1, out as int);
        vstd::arithmetic::div_mod::lemma_div_pos_is_pos(t - 1, out as int);
        vstd::arithmetic::mul::lemma_mul_is_commutative(out as int, a);
        assert(t - 1 < (inp + 1) * out);
        vstd::arithmetic::mul::lemma_mul_is_commutative(inp as int + 1, out as int);
        vstd::arithmetic::div_mod::lemma_multiply_divide_lt(t - 1, out as int, inp as int + 1);
        assert(a <= inp);
        assert((a + 1) * out == a * out + out) by (nonlinear_arith);
        assert(e.from == a && e.to == inp + 1 + r && e.enabled && e.weight == ONE_BITS) by {
            assert((a as usize) as int == a);
            assert(((inp + 1 + r) as usize) as int == inp + 1 + r);
        }
        assert(m.contains_key(e.from) && m[e.from] as int == a);
        assert(m.contains_key(e.to) && m[e.to] as int == inp + 1 + r);
        let cur = spec_adjacency(m, edges.take(t), n);
        assert(cur == prev.update(a, prev[a].push((e.to, e.weight))));
        assert forall|k: int| 0 <= k < n implies cur[k] =~= partial_initial_adj(
            inp,
            out,
            t,
        )[k] by {
            assert((k + 1) * out == k * out + out) by (nonlinear_arith);
            if k == a {
                assert(a * out < t);
                assert(prev[a] =~= full_initial_row(inp, out).take(t - 1 - a * out));
                assert(full_initial_row(inp, out)[r] == (e.to, e.weight)) by {
                    assert(((inp + 1 + r) as usize) == e.to);
                }
                assert(full_initial_row(inp, out).take(r).push(full_initial_row(inp, out)[r])
                    =~= full_initial_row(inp, out).take(r + 1));
                if (a + 1) * out <= t {
                    assert(r + 1 == out);
                    assert(full_initial_row(inp, out).take(out as int) =~= full_initial_row(
                        inp,
                        out,
                    ));
                }
            } else {
                assert(cur[k] == prev[k]);
                if k < a {
                    vstd::arithmetic::mul::lemma_mul_inequality(k + 1, a, out as int);
                    vstd::arithmetic::mul::lemma_mul_is_commutative(k + 1, out as int);
                    vstd::arithmetic::mul::lemma_mul_is_commutative(a, out as int);
                    assert((k + 1) * out <= a * out <= t - 1);
                } else {
                    vstd::arithmetic::mul::lemma_mul_inequality(a + 1, k, out as int);
                    vstd::arithmetic::mul::lemma_mul_is_commutative(a + 1, out as int);
                    vstd::arithmetic::mul::lemma_mul_is_commutative(k, out as int);
                    assert(t <= (a + 1) * out <= k * out);
                }
            }
        }
        lemma_spec_adjacency_len(m, edges.take(t), n);
        assert(cur =~~= partial_initial_adj(inp, out, t));
    }
}

/// Pushing a row whose destinations are all visited leaves the stack as it
/// was.
proof fn lemma_push_unvisited_none(stack: Seq<usize>, row: Seq<(usize, u32)>, visited: Seq<bool>)
    requires
        forall|j: int|
            0 <= j < row.len() ==> (#[trigger] row[j]).0 < visited.len() && visited[row[j].0 as int],
    ensures
        push_unvisited(stack, row, visited) == stack,
    decreases row.len(),
{
    if row.len() > 0 {
        assert(forall|j: int| 0 <= j < row.drop_last().len() ==> row.drop_last()[j] == row[j]);
        lemma_push_unvisited_none(stack, row.drop_last(), visited);
    }
}

/// Pushing a row whose destinations are all unvisited appends them in row
/// order.
proof fn lemma_push_unvisited_all(stack: Seq<usize>, row: Seq<(usize, u32)>, visited: Seq<bool>)
    requires
        forall|j: int|
            0 <= j < row.len() ==> (#[trigger] row[j]).0 < visited.len() && !visited[row[j].0 as int],
    ensures
        push_unvisited(stack, row, visited) =~= stack + Seq::new(row.len(), |j: int| row[j].0),
    decreases row.len(),
{
    if row.len() > 0 {
        assert(forall|j: int| 0 <= j < row.drop_last().len() ==> row.drop_last()[j] == row[j]);
        lemma_push_unvisited_all(stack, row.drop_last(), visited);
        assert(push_unvisited(stack, row, visited) =~= push_unvisited(
            stack,
            row.drop_last(),
            visited,
        ).push(row.last().0));
    }
}

/// The output-processing phase of the traversal on a fresh genome's
/// adjacency: with `d` output positions still stacked, the run finishes in
/// the identity order.
proof fn lemma_initial_topo_outputs(inp: nat, out: nat, d: int)
    requires
        inp + 1 + out <= usize::MAX,
        0 <= d <= out,
    ensures
        topo_run(
            initial_adj(inp, out),
            seed_stack(inp) + Seq::new(d as nat, |j: int| (inp + 1 + j) as usize),
            Seq::new(inp + 1 + out, |k: int| k == inp || k > inp + d),
            Seq::new(
                inp + 1 + out,
                |k: int|
                    if k > inp + d {
                        k as usize
                    } else {
                        0usize
                    },
            ),
            inp + d,
        ) == identity_order(inp + 1 + out),
    decreases d + 1,
{
    let adj = initial_adj(inp, out);
    let n: nat = inp + 1 + out;
    let stack = seed_stack(inp) + Seq::new(d as nat, |j: int| (inp + 1 + j) as usize);
    let vis = Seq::new(n, |k: int| k == inp || k > inp + d);
    let ord = Seq::new(
        n,
        |k: int|
            if k > inp + d {
                k as usize
            } else {
                0usize
            },
    );
    lemma_initial_adj_wf(inp, out);
    assert forall|i: int| 0 <= i < stack.len() implies #[trigger] stack[i] < n by {
        if i <= inp {
            assert(stack[i] == seed_stack(inp)[i]);
            assert((i as usize) as int == i);
        } else {
            assert(stack[i] == ((inp + 1 + (i - inp - 1)) as usize));
        }
    }
    assert(topo_state_wf(adj, stack, vis, ord, inp + d));
    if d == 0 {
        assert(stack =~= seed_stack(inp));
        assert(vis =~= Seq::new(n, |k: int| k >= inp));
        assert(ord =~= Seq::new(
            n,
            |k: int|
                if k > inp {
                    k as usize
                } else {
                    0usize
                },
        ));
        lemma_initial_topo_seeds_top(inp, out);
    } else {
        let elem = (inp + d) as usize;
        assert(stack.last() == elem) by {
            assert(stack[stack.len() - 1] == ((inp + 1 + (d - 1)) as usize));
        }
        assert(elem as int == inp + d);
        assert(!vis[elem as int]);
        let vis2 = vis.update(elem as int, true);
        assert(adj[elem as int] =~= Seq::<(usize, u32)>::empty());
        let stack2 = push_unvisited(stack, adj[elem as int], vis2);
        assert(stack2 == stack);
        assert(topo_run(adj, stack, vis, ord, inp + d) == topo_run(
            adj,
            stack2,
            vis2,
            ord,
            inp + d,
        ));
        assert(topo_state_wf(adj, stack2, vis2, ord, inp + d));
        assert(stack2.last() == elem && vis2[elem as int]);
        let ord2 = ord.update(inp + d, elem);
        let stack3 = stack2.drop_last();
        assert(topo_run(adj, stack2, vis2, ord, inp + d) == topo_run(
            adj,
            stack3,
            vis2,
            ord2,
            inp + d - 1,
        ));
        assert(stack3 =~= seed_stack(inp) + Seq::new(
            (d - 1) as nat,
            |j: int| (inp + 1 + j) as usize,
        ));
        assert(vis2 =~= Seq::new(n, |k: int| k == inp || k > inp + (d - 1)));
        assert(ord2 =~= Seq::new(
            n,
            |k: int|
                if k > inp + (d - 1) {
                    k as usize
                } else {
                    0usize
                },
        )) by {
            assert(ord2[inp + d] == ((inp + d) as usize));
        }
        lemma_initial_topo_outputs(inp, out, d - 1);
    }
}

/// The seed-popping phase of the traversal, entered with the top seed
/// already visited: the run finishes in the identity order.
proof fn lemma_initial_topo_seeds_top(inp: nat, out: nat)
    requires
        inp + 1 + out <= usize::MAX,
    ensures
        topo_run(
            initial_adj(inp, out),
            seed_stack(inp),
            Seq::new(inp + 1 + out, |k: int| k >= inp),
            Seq::new(
                inp + 1 + out,
                |k: int|
                    if k > inp {
                        k as usize
                    } else {
                        0usize
                    },
            ),
            inp as int,
        ) == identity_order(inp + 1 + out),
    decreases inp,
{
    let adj = initial_adj(inp, out);
    let n: nat = inp + 1 + out;
    let stack = seed_stack(inp);
    let vis = Seq::new(n, |k: int| k >= inp);
    let ord = Seq::new(
        n,
        |k: int|
            if k > inp {
                k as usize
            } else {
                0usize
            },
    );
    lemma_initial_adj_wf(inp, out);
    assert forall|i: int| 0 <= i < stack.len() implies #[trigger] stack[i] < n by {
        assert((i as usize) as int == i);
    }
    assert(topo_state_wf(adj, stack, vis, ord, inp as int));
    assert(stack.last() == (inp as usize)) by {
        assert(stack[stack.len() - 1] == ((inp) as usize));
    }
    assert((inp as usize) as int == inp as int);
    assert(vis[inp as int]);
    let ord2 = ord.update(inp as int, inp as usize);
    let stack2 = stack.drop_last();
    let idx2: int = if inp > 0 {
        inp - 1
    } else {
        0
    };
    assert(topo_run(adj, stack, vis, ord, inp as int) == topo_run(adj, stack2, vis, ord2, idx2));
    if inp == 0 {
        assert(stack2 =~= Seq::<usize>::empty());
        assert(topo_run(adj, stack2, vis, ord2, idx2) == ord2);
        assert(ord2 =~= identity_order(n)) by {
            assert(ord2[0] == 0usize);
        }
    } else {
        assert(stack2 =~= seed_stack((inp - 1) as nat));
        assert(ord2 =~= Seq::new(
            n,
            |k: int|
                if k > inp - 1 {
                    k as usize
                } else {
                    0usize
                },
        )) by {
            assert(ord2[inp as int] == (inp as usize));
        }
        assert(vis =~= Seq::new(n, |k: int| k > inp - 1));
        lemma_initial_topo_seeds(inp, out, inp as int - 1);
    }
}

/// The seed phase below the top seed: the seed on top of the stack is not
/// yet visited; it is visited (its outputs are all visited already, so
/// nothing is pushed) and popped, and the run finishes in the identity
/// order.
proof fn lemma_initial_topo_seeds(inp: nat, out: nat, s: int)
    requires
        inp + 1 + out <= usize::MAX,
        0 <= s < inp + 1,
    ensures
        topo_run(
            initial_adj(inp, out),
            seed_stack(s as nat),
            Seq::new(inp + 1 + out, |k: int| k > s),
            Seq::new(
                inp + 1 + out,
                |k: int|
                    if k > s {
                        k as usize
                    } else {
                        0usize
                    },
            ),
            s,
        ) == identity_order(inp + 1 + out),
    decreases s + 1,
{
    let adj = initial_adj(inp, out);
    let n: nat = inp + 1 + out;
    let stack = seed_stack(s as nat);
    let vis = Seq::new(n, |k: int| k > s);
    let ord = Seq::new(
        n,
        |k: int|
            if k > s {
                k as usize
            } else {
                0usize
            },
    );
    lemma_initial_adj_wf(inp, out);
    assert forall|i: int| 0 <= i < stack.len() implies #[trigger] stack[i] < n by {
        assert((i as usize) as int == i);
    }
    assert(topo_state_wf(adj, stack, vis, ord, s));
    assert(stack.last() == (s as usize)) by {
        assert(stack[stack.len() - 1] == (s as usize));
    }
    assert((s as usize) as int == s);
    assert(!vis[s]);
    let vis2 = vis.update(s, true);
    assert(adj[s] == full_initial_row(inp, out));
    assert forall|j: int|
        0 <= j < full_initial_row(inp, out).len() implies (#[trigger] full_initial_row(
        inp,
        out,
    )[j]).0 < vis2.len() && vis2[full_initial_row(inp, out)[j].0 as int] by {
        assert(full_initial_row(inp, out)[j].0 == inp + 1 + j);
    }
    lemma_push_unvisited_none(stack, adj[s], vis2);
    assert(topo_run(adj, stack, vis, ord, s) == topo_run(adj, stack, vis2, ord, s));
    assert(topo_state_wf(adj, stack, vis2, ord, s));
    assert(vis2[s]);
    let ord2 = ord.update(s, s as usize);
    let stack2 = stack.drop_last();
    let idx2: int = if s > 0 {
        s - 1
    } else {
        0
    };
    assert(topo_run(adj, stack, vis2, ord, s) == topo_run(adj, stack2, vis2, ord2, idx2));
    if s == 0 {
        assert(stack2 =~= Seq::<usize>::empty());
        assert(topo_run(adj, stack2, vis2, ord2, idx2) == ord2);
        assert(ord2 =~= identity_order(n)) by {
            assert(ord2[0] == 0usize);
        }
    } else {
        assert(stack2 =~= seed_stack((s - 1) as nat));
        assert(vis2 =~= Seq::new(n, |k: int| k > s - 1));
        assert(ord2 =~= Seq::new(
            n,
            |k: int|
                if k > s - 1 {
                    k as usize
                } else {
                    0usize
                },
        )) by {
            assert(ord2[s] == (s as usize));
        }
        lemma_initial_topo_seeds(inp, out, s - 1);
    }
}

/// The traversal on the full bipartite adjacency of a fresh genome yields
/// the identity order.
proof fn lemma_initial_topo_identity(inp: nat, out: nat)
    requires
        inp + 1 + out <= usize::MAX,
    ensures
        spec_topo_order(initial_adj(inp, out), inp) == identity_order(inp + 1 + out),
{
    let adj = initial_adj(inp, out);
    let n: nat = inp + 1 + out;
    let stack = seed_stack(inp);
    let vis0 = Seq::new(n, |k: int| false);
    let ord0 = Seq::new(n, |k: int| 0usize);
    lemma_initial_adj_wf(inp, out);
    assert forall|i: int| 0 <= i < stack.len() implies #[trigger] stack[i] < n by {
        assert((i as usize) as int == i);
    }
    assert(topo_state_wf(adj, stack, vis0, ord0, n - 1));
    assert(stack.last() == (inp as usize)) by {
        assert(stack[stack.len() - 1] == (inp as usize));
    }
    assert((inp as usize) as int == inp as int);
    assert(!vis0[inp as int]);
    let vis1 = vis0.update(inp as int, true);
    assert(adj[inp as int] == full_initial_row(inp, out));
    assert forall|j: int|
        0 <= j < full_initial_row(inp, out).len() implies (#[trigger] full_initial_row(
        inp,
        out,
    )[j]).0 < vis1.len() && !vis1[full_initial_row(inp, out)[j].0 as int] by {
        assert(full_initial_row(inp, out)[j].0 == inp + 1 + j);
    }
    lemma_push_unvisited_all(stack, adj[inp as int], vis1);
    let stack1 = push_unvisited(stack, adj[inp as int], vis1);
    assert(topo_run(adj, stack, vis0, ord0, n - 1) == topo_run(adj, stack1, vis1, ord0, n - 1));
    assert(stack1 =~= seed_stack(inp) + Seq::new(out, |j: int| (inp + 1 + j) as usize)) by {
        let pushed = Seq::new(
            full_initial_row(inp, out).len(),
            |j2: int| full_initial_row(inp, out)[j2].0,
        );
        assert forall|j: int| 0 <= j < out implies #[trigger] pushed[j] == ((inp + 1
            + j) as usize) by {
            assert(full_initial_row(inp, out)[j].0 == inp + 1 + j);
        }
        assert(pushed =~= Seq::new(out, |j: int| (inp + 1 + j) as usize));
    }
    assert(vis1 =~= Seq::new(n, |k: int| k == inp || k > inp + out));
    assert(ord0 =~= Seq::new(
        n,
        |k: int|
            if k > inp + out {
                k as usize
            } else {
                0usize
            },
    ));
    lemma_initial_topo_outputs(inp, out, out as int);
}

/// The topological order of a freshly constructed genome's phenotype is a
/// valid linearization: for every edge of the compiled adjacency list, the
/// source position appears strictly before the destination position in the
/// evaluation order. For such genomes the order is the identity on
/// positions.
pub proof fn lemma_topo_order_linearizes(inp: nat, out: nat, nn: NeuralNetwork, p: Phenotype)
    requires
        inp + 1 + out <= usize::MAX,
        nn.nodes@ == initial_nodes(inp, out),
        nn.edges@ == initial_edges(inp, out),
        nn.size.0 == inp,
        compiles_to(nn, p),
    ensures
        p.topo_order@ == identity_order(inp + 1 + out),
        forall|i: int, j: int|
            0 <= i < view_adj(p.edges@).len() && 0 <= j < view_adj(p.edges@)[i].len()
                ==> exists|pi: int, pj: int|
                0 <= pi < pj < p.topo_order@.len() && p.topo_order@[pi] == i
                    && p.topo_order@[pj] == (#[trigger] view_adj(p.edges@)[i][j]).0,
{
    let m = id_map_of(nn.nodes@);
    let n: nat = inp + 1 + out;
    assert(nn.nodes@.len() == n);
    lemma_initial_adj_wf(inp, out);
    if out == 0 {
        assert(initial_edges(inp, out) =~= Seq::<Edge>::empty());
        assert(spec_adjacency(m, nn.edges@, n) =~~= initial_adj(inp, out));
    } else {
        lemma_initial_adjacency_steps(inp, out, ((inp + 1) * out) as int);
        assert(initial_edges(inp, out).take(((inp + 1) * out) as int) =~= initial_edges(inp, out));
        assert forall|k: int| 0 <= k < n implies partial_initial_adj(
            inp,
            out,
            ((inp + 1) * out) as int,
        )[k] =~= initial_adj(inp, out)[k] by {
            assert((k + 1) * out == k * out + out) by (nonlinear_arith);
            if k <= inp {
                vstd::arithmetic::mul::lemma_mul_inequality(k + 1, inp as int + 1, out as int);
                vstd::arithmetic::mul::lemma_mul_is_commutative(k + 1, out as int);
                vstd::arithmetic::mul::lemma_mul_is_commutative(inp as int + 1, out as int);
            } else {
                vstd::arithmetic::mul::lemma_mul_inequality(inp as int + 1, k, out as int);
                vstd::arithmetic::mul::lemma_mul_is_commutative(inp as int + 1, out as int);
                vstd::arithmetic::mul::lemma_mul_is_commutative(k, out as int);
            }
        }
        assert(spec_adjacency(m, nn.edges@, n) =~~= initial_adj(inp, out));
    }
    assert(view_adj(p.edges@) =~~= initial_adj(inp, out));
    lemma_initial_topo_identity(inp, out);
    assert(p.topo_order@ == spec_topo_order(initial_adj(inp, out), inp));
    assert forall|i: int, j: int|
        0 <= i < view_adj(p.edges@).len() && 0 <= j < view_adj(p.edges@)[i].len() implies exists|
        pi: int,
        pj: int,
    |
        0 <= pi < pj < p.topo_order@.len() && p.topo_order@[pi] == i && p.topo_order@[pj] == (
        #[trigger] view_adj(p.edges@)[i][j]).0 by {
        let t = view_adj(p.edges@)[i][j].0;
        assert(initial_adj(inp, out)[i][j].0 == t);
        assert(i <= inp && t as int == inp + 1 + j) by {
            assert(initial_adj(inp, out)[i][j] == full_initial_row(inp, out)[j]);
        }
        assert(p.topo_order@[i] == identity_order(n)[i]);
        assert(p.topo_order@[t as int] == identity_order(n)[t as int]);
        assert(identity_order(n)[i] == (i as usize) && (i as usize) as int == i);
        assert(identity_order(n)[t as int] == t);
        assert(0 <= i < (t as int) < p.topo_order@.len());
    }
}

/// Determinism of compilation: compiling the same genome snapshot twice
/// yields equal adjacency lists, equal output index lists, and the same
/// evaluation order.
pub proof fn lemma_compile_deterministic(
    a: NeuralNetwork,
    b: NeuralNetwork,
    p: Phenotype,
    q: Phenotype,
)
    requires
        a@ == b@,
        compiles_to(a, p),
        compiles_to(b, q),
    ensures
        view_adj(p.edges@) == view_adj(q.edges@),
        p.outputs@ == q.outputs@,
        p.topo_order@ == q.topo_order@,
{
    assert(a.nodes@ == b.nodes@ && a.edges@ == b.edges@ && a.size == b.size);
}

/// Determinism of evaluation: computing with identical inputs on genomes
/// with equal views (in particular, twice on the same unchanged genome)
/// yields identical outputs.
pub proof fn lemma_compute_deterministic(a: NeuralNetwork, b: NeuralNetwork, inputs: Seq<u32>)
    requires
        a@ == b@,
    ensures
        spec_genome_outputs(a, inputs) == spec_genome_outputs(b, inputs),
{
    assert(a.nodes@ == b.nodes@ && a.edges@ == b.edges@ && a.size == b.size);
}

} // verus!
