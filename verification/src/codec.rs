//! The binary persistence codec for genomes and solvers.
//!
//! Every integer, bit pattern, flag and tag is stored as an eight-byte
//! little-endian word; sequences are stored as a length followed by the
//! elements. Loading either fully succeeds or fails atomically: trailing
//! bytes, out-of-range words and ill-formed structures are rejected as a
//! decode error. The decoding functions below are the format's definition;
//! the encoder's contract states that what it writes decodes back to what it
//! was given, which is the persistence round trip.
use vstd::prelude::*;

use crate::NeatError;
use crate::config::Config;
use crate::neuralnetwork::{Edge, GenomeView, NeuralNetwork, Node, NodeType, genome_wf};
use crate::solver::{EDGE_BOUND, Solver, SolverView, genome_views, solver_view_wf, species_views};
use crate::species::{Species, SpeciesView};

verus! {

/// The eight little-endian bytes at `pos` assembled into a word.
pub open spec fn word_at(bytes: Seq<u8>, pos: int) -> u64 {
    (bytes[pos] as u64) | ((bytes[pos + 1] as u64) << 8) | ((bytes[pos + 2] as u64) << 16) | ((
    bytes[pos + 3] as u64) << 24) | ((bytes[pos + 4] as u64) << 32) | ((bytes[pos + 5] as u64)
        << 40) | ((bytes[pos + 6] as u64) << 48) | ((bytes[pos + 7] as u64) << 56)
}

/// Decode one word: eight little-endian bytes.
pub open spec fn dec_u64(bytes: Seq<u8>, pos: int) -> Option<(u64, int)> {
    if 0 <= pos && pos + 8 <= bytes.len() {
        Some((word_at(bytes, pos), pos + 8))
    } else {
        None
    }
}

/// Decode a count or id: a word no larger than the machine's `usize`.
pub open spec fn dec_usize(bytes: Seq<u8>, pos: int) -> Option<(usize, int)> {
    match dec_u64(bytes, pos) {
        Some((x, p)) => if x <= usize::MAX as u64 {
            Some((x as usize, p))
        } else {
            None
        },
        None => None,
    }
}

/// Decode a binary32 bit pattern: a word no larger than `u32::MAX`.
pub open spec fn dec_u32(bytes: Seq<u8>, pos: int) -> Option<(u32, int)> {
    match dec_u64(bytes, pos) {
        Some((x, p)) => if x <= u32::MAX as u64 {
            Some((x as u32, p))
        } else {
            None
        },
        None => None,
    }
}

/// Decode a flag: a word that is zero or one.
pub open spec fn dec_bool(bytes: Seq<u8>, pos: int) -> Option<(bool, int)> {
    match dec_u64(bytes, pos) {
        Some((x, p)) => if x == 0 {
            Some((false, p))
        } else if x == 1 {
            Some((true, p))
        } else {
            None
        },
        None => None,
    }
}

/// Decode a node role: zero is input, one is hidden, two is output.
pub open spec fn dec_node_type(bytes: Seq<u8>, pos: int) -> Option<(NodeType, int)> {
    match dec_u64(bytes, pos) {
        Some((x, p)) => if x == 0 {
            Some((NodeType::Input, p))
        } else if x == 1 {
            Some((NodeType::Hidden, p))
        } else if x == 2 {
            Some((NodeType::Output, p))
        } else {
            None
        },
        None => None,
    }
}

/// Decode a node: its id, then its role.
pub open spec fn dec_node(bytes: Seq<u8>, pos: int) -> Option<(Node, int)> {
    match dec_usize(bytes, pos) {
        Some((id, p1)) => match dec_node_type(bytes, p1) {
            Some((t, p2)) => Some((Node { id, node_type: t }, p2)),
            None => None,
        },
        None => None,
    }
}

/// Decode an edge: source id, destination id, weight bit pattern, enabled
/// flag, innovation number.
pub open spec fn dec_edge(bytes: Seq<u8>, pos: int) -> Option<(Edge, int)> {
    match dec_usize(bytes, pos) {
        Some((from, p1)) => match dec_usize(bytes, p1) {
            Some((to, p2)) => match dec_u32(bytes, p2) {
                Some((weight, p3)) => match dec_bool(bytes, p3) {
                    Some((enabled, p4)) => match dec_usize(bytes, p4) {
                        Some((innovation, p5)) => Some(
                            (Edge { from, to, weight, enabled, innovation }, p5),
                        ),
                        None => None,
                    },
                    None => None,
                },
                None => None,
            },
            None => None,
        },
        None => None,
    }
}

/// Decode `n` nodes in sequence.
pub open spec fn dec_nodes(bytes: Seq<u8>, pos: int, n: nat) -> Option<(Seq<Node>, int)>
    decreases n,
{
    if n == 0 {
        Some((Seq::empty(), pos))
    } else {
        match dec_node(bytes, pos) {
            Some((nd, p1)) => match dec_nodes(bytes, p1, (n - 1) as nat) {
                Some((s, p2)) => Some((seq![nd] + s, p2)),
                None => None,
            },
            None => None,
        }
    }
}

/// Decode `n` edges in sequence.
pub open spec fn dec_edges(bytes: Seq<u8>, pos: int, n: nat) -> Option<(Seq<Edge>, int)>
    decreases n,
{
    if n == 0 {
        Some((Seq::empty(), pos))
    } else {
        match dec_edge(bytes, pos) {
            Some((e, p1)) => match dec_edges(bytes, p1, (n - 1) as nat) {
                Some((s, p2)) => Some((seq![e] + s, p2)),
                None => None,
            },
            None => None,
        }
    }
}

/// Decode a genome: node count and nodes, edge count and edges, id, the two
/// halves of the size pair, and the fitness bit pattern.
#[verifier::opaque]
pub open spec fn dec_genome(bytes: Seq<u8>, pos: int) -> Option<(GenomeView, int)> {
    match dec_usize(bytes, pos) {
        Some((n_nodes, p1)) => match dec_nodes(bytes, p1, n_nodes as nat) {
            Some((nodes, p2)) => match dec_usize(bytes, p2) {
                Some((n_edges, p3)) => match dec_edges(bytes, p3, n_edges as nat) {
                    Some((edges, p4)) => match dec_usize(bytes, p4) {
                        Some((id, p5)) => match dec_usize(bytes, p5) {
                            Some((inp, p6)) => match dec_usize(bytes, p6) {
                                Some((out, p7)) => match dec_u32(bytes, p7) {
                                    Some((fitness, p8)) => Some(
                                        (
                                            GenomeView {
                                                nodes,
                                                edges,
                                                id,
                                                size: (inp, out),
                                                fitness,
                                            },
                                            p8,
                                        ),
                                    ),
                                    None => None,
                                },
                                None => None,
                            },
                            None => None,
                        },
                        None => None,
                    },
                    None => None,
                },
                None => None,
            },
            None => None,
        },
        None => None,
    }
}

/// Growing the byte sequence does not disturb a word already decoded.
proof fn lemma_dec_u64_extend(bytes: Seq<u8>, more: Seq<u8>, pos: int)
    requires
        dec_u64(bytes, pos) is Some,
    ensures
        dec_u64(bytes + more, pos) == dec_u64(bytes, pos),
{
    assert(word_at(bytes + more, pos) == word_at(bytes, pos));
}

/// Growing the byte sequence does not disturb a node already decoded.
proof fn lemma_dec_node_extend(bytes: Seq<u8>, more: Seq<u8>, pos: int)
    requires
        dec_node(bytes, pos) is Some,
    ensures
        dec_node(bytes + more, pos) == dec_node(bytes, pos),
{
    let p1 = dec_usize(bytes, pos).unwrap().1;
    lemma_dec_u64_extend(bytes, more, pos);
    lemma_dec_u64_extend(bytes, more, p1);
}

/// Growing the byte sequence does not disturb an edge already decoded.
proof fn lemma_dec_edge_extend(bytes: Seq<u8>, more: Seq<u8>, pos: int)
    requires
        dec_edge(bytes, pos) is Some,
    ensures
        dec_edge(bytes + more, pos) == dec_edge(bytes, pos),
{
    let p1 = dec_usize(bytes, pos).unwrap().1;
    let p2 = dec_usize(bytes, p1).unwrap().1;
    let p3 = dec_u32(bytes, p2).unwrap().1;
    let p4 = dec_bool(bytes, p3).unwrap().1;
    lemma_dec_u64_extend(bytes, more, pos);
    lemma_dec_u64_extend(bytes, more, p1);
    lemma_dec_u64_extend(bytes, more, p2);
    lemma_dec_u64_extend(bytes, more, p3);
    lemma_dec_u64_extend(bytes, more, p4);
}

/// Growing the byte sequence does not disturb nodes already decoded.
proof fn lemma_dec_nodes_extend(bytes: Seq<u8>, more: Seq<u8>, pos: int, n: nat)
    requires
        dec_nodes(bytes, pos, n) is Some,
    ensures
        dec_nodes(bytes + more, pos, n) == dec_nodes(bytes, pos, n),
    decreases n,
{
    if n > 0 {
        lemma_dec_node_extend(bytes, more, pos);
        let p1 = dec_node(bytes, pos).unwrap().1;
        lemma_dec_nodes_extend(bytes, more, p1, (n - 1) as nat);
    }
}

/// Growing the byte sequence does not disturb edges already decoded.
proof fn lemma_dec_edges_extend(bytes: Seq<u8>, more: Seq<u8>, pos: int, n: nat)
    requires
        dec_edges(bytes, pos, n) is Some,
    ensures
        dec_edges(bytes + more, pos, n) == dec_edges(bytes, pos, n),
    decreases n,
{
    if n > 0 {
        lemma_dec_edge_extend(bytes, more, pos);
        let p1 = dec_edge(bytes, pos).unwrap().1;
        lemma_dec_edges_extend(bytes, more, p1, (n - 1) as nat);
    }
}

/// Growing the byte sequence does not disturb a genome already decoded.
proof fn lemma_dec_genome_extend(bytes: Seq<u8>, more: Seq<u8>, pos: int)
    requires
        dec_genome(bytes, pos) is Some,
    ensures
        dec_genome(bytes + more, pos) == dec_genome(bytes, pos),
{
    reveal(dec_genome);
    let p1 = dec_usize(bytes, pos).unwrap().1;
    let n_nodes = dec_usize(bytes, pos).unwrap().0;
    let p2 = dec_nodes(bytes, p1, n_nodes as nat).unwrap().1;
    let n_edges = dec_usize(bytes, p2).unwrap().0;
    let p3 = dec_usize(bytes, p2).unwrap().1;
    let p4 = dec_edges(bytes, p3, n_edges as nat).unwrap().1;
    let p5 = dec_usize(bytes, p4).unwrap().1;
    let p6 = dec_usize(bytes, p5).unwrap().1;
    let p7 = dec_usize(bytes, p6).unwrap().1;
    lemma_dec_u64_extend(bytes, more, pos);
    lemma_dec_nodes_extend(bytes, more, p1, n_nodes as nat);
    lemma_dec_u64_extend(bytes, more, p2);
    lemma_dec_edges_extend(bytes, more, p3, n_edges as nat);
    lemma_dec_u64_extend(bytes, more, p4);
    lemma_dec_u64_extend(bytes, more, p5);
    lemma_dec_u64_extend(bytes, more, p6);
    lemma_dec_u64_extend(bytes, more, p7);
}

/// Append one word as eight little-endian bytes; the word decodes back from
/// where it was written.
fn push_u64(out: &mut Vec<u8>, x: u64)
    ensures
        final(out)@.len() == old(out)@.len() + 8,
        final(out)@.take(old(out)@.len() as int) == old(out)@,
        dec_u64(final(out)@, old(out)@.len() as int) == Some::<(u64, int)>(
            (x, final(out)@.len() as int),
        ),
{
    let ghost pre = out@;
    proof {
        assert((x & 0xFF) < 256 && ((x >> 8) & 0xFF) < 256 && ((x >> 16) & 0xFF) < 256 && ((x
            >> 24) & 0xFF) < 256 && ((x >> 32) & 0xFF) < 256 && ((x >> 40) & 0xFF) < 256 && ((x
            >> 48) & 0xFF) < 256 && ((x >> 56) & 0xFF) < 256) by (bit_vector);
    }
    out.push((x & 0xFF) as u8);
    out.push(((x >> 8) & 0xFF) as u8);
    out.push(((x >> 16) & 0xFF) as u8);
    out.push(((x >> 24) & 0xFF) as u8);
    out.push(((x >> 32) & 0xFF) as u8);
    out.push(((x >> 40) & 0xFF) as u8);
    out.push(((x >> 48) & 0xFF) as u8);
    out.push(((x >> 56) & 0xFF) as u8);
    proof {
        assert(out@.take(pre.len() as int) =~= pre);
        let b0 = (x & 0xFF) as u8;
        let b1 = ((x >> 8) & 0xFF) as u8;
        let b2 = ((x >> 16) & 0xFF) as u8;
        let b3 = ((x >> 24) & 0xFF) as u8;
        let b4 = ((x >> 32) & 0xFF) as u8;
        let b5 = ((x >> 40) & 0xFF) as u8;
        let b6 = ((x >> 48) & 0xFF) as u8;
        let b7 = ((x >> 56) & 0xFF) as u8;
        assert((b0 as u64) | ((b1 as u64) << 8) | ((b2 as u64) << 16) | ((b3 as u64) << 24) | ((
        b4 as u64) << 32) | ((b5 as u64) << 40) | ((b6 as u64) << 48) | ((b7 as u64) << 56) == x
            && b0 == (x & 0xFF) as u8 && b1 == ((x >> 8) & 0xFF) as u8) by (bit_vector)
            requires
                b0 == (x & 0xFF) as u8,
                b1 == ((x >> 8) & 0xFF) as u8,
                b2 == ((x >> 16) & 0xFF) as u8,
                b3 == ((x >> 24) & 0xFF) as u8,
                b4 == ((x >> 32) & 0xFF) as u8,
                b5 == ((x >> 40) & 0xFF) as u8,
                b6 == ((x >> 48) & 0xFF) as u8,
                b7 == ((x >> 56) & 0xFF) as u8,
        ;
        assert(word_at(out@, pre.len() as int) == x);
    }
}

/// Read one word: eight little-endian bytes.
fn read_u64(bytes: &Vec<u8>, pos: usize) -> (r: Option<(u64, usize)>)
    ensures
        match r {
            Some((x, p)) => dec_u64(bytes@, pos as int) == Some::<(u64, int)>((x, p as int)) && p
                <= bytes@.len(),
            None => dec_u64(bytes@, pos as int) is None,
        },
{
    if bytes.len() < 8 || pos > bytes.len() - 8 {
        return None;
    }
    let x = (bytes[pos] as u64) | ((bytes[pos + 1] as u64) << 8) | ((bytes[pos + 2] as u64) << 16)
        | ((bytes[pos + 3] as u64) << 24) | ((bytes[pos + 4] as u64) << 32) | ((bytes[pos
        + 5] as u64) << 40) | ((bytes[pos + 6] as u64) << 48) | ((bytes[pos + 7] as u64) << 56);
    Some((x, pos + 8))
}

/// Read a count or id, rejecting words above `usize::MAX`.
fn read_usize(bytes: &Vec<u8>, pos: usize) -> (r: Option<(usize, usize)>)
    ensures
        match r {
            Some((x, p)) => dec_usize(bytes@, pos as int) == Some::<(usize, int)>((x, p as int))
                && p <= bytes@.len(),
            None => dec_usize(bytes@, pos as int) is None,
        },
{
    match read_u64(bytes, pos) {
        Some((x, p)) => if x <= usize::MAX as u64 {
            Some((x as usize, p))
        } else {
            None
        },
        None => None,
    }
}

/// Read a binary32 bit pattern, rejecting words above `u32::MAX`.
fn read_u32(bytes: &Vec<u8>, pos: usize) -> (r: Option<(u32, usize)>)
    ensures
        match r {
            Some((x, p)) => dec_u32(bytes@, pos as int) == Some::<(u32, int)>((x, p as int)) && p
                <= bytes@.len(),
            None => dec_u32(bytes@, pos as int) is None,
        },
{
    match read_u64(bytes, pos) {
        Some((x, p)) => if x <= u32::MAX as u64 {
            Some((x as u32, p))
        } else {
            None
        },
        None => None,
    }
}

/// Read a flag, rejecting words other than zero and one.
fn read_bool(bytes: &Vec<u8>, pos: usize) -> (r: Option<(bool, usize)>)
    ensures
        match r {
            Some((x, p)) => dec_bool(bytes@, pos as int) == Some::<(bool, int)>((x, p as int)) && p
                <= bytes@.len(),
            None => dec_bool(bytes@, pos as int) is None,
        },
{
    match read_u64(bytes, pos) {
        Some((x, p)) => if x == 0 {
            Some((false, p))
        } else if x == 1 {
            Some((true, p))
        } else {
            None
        },
        None => None,
    }
}

/// Read a node role, rejecting unknown tags.
fn read_node_type(bytes: &Vec<u8>, pos: usize) -> (r: Option<(NodeType, usize)>)
    ensures
        match r {
            Some((x, p)) => dec_node_type(bytes@, pos as int) == Some::<(NodeType, int)>(
                (x, p as int),
            ) && p <= bytes@.len(),
            None => dec_node_type(bytes@, pos as int) is None,
        },
{
    match read_u64(bytes, pos) {
        Some((x, p)) => if x == 0 {
            Some((NodeType::Input, p))
        } else if x == 1 {
            Some((NodeType::Hidden, p))
        } else if x == 2 {
            Some((NodeType::Output, p))
        } else {
            None
        },
        None => None,
    }
}

/// A decoded node sequence grows by one when one more node follows it.
proof fn lemma_dec_nodes_snoc(bytes: Seq<u8>, pos: int, n: nat)
    requires
        dec_nodes(bytes, pos, n) is Some,
        dec_node(bytes, dec_nodes(bytes, pos, n).unwrap().1) is Some,
    ensures
        dec_nodes(bytes, pos, n + 1) == Some::<(Seq<Node>, int)>(
            (
                dec_nodes(bytes, pos, n).unwrap().0.push(
                    dec_node(bytes, dec_nodes(bytes, pos, n).unwrap().1).unwrap().0,
                ),
                dec_node(bytes, dec_nodes(bytes, pos, n).unwrap().1).unwrap().1,
            ),
        ),
    decreases n,
{
    let (s, p) = dec_nodes(bytes, pos, n).unwrap();
    let (nd, p2) = dec_node(bytes, p).unwrap();
    if n == 0 {
        assert(dec_nodes(bytes, p2, 0) == Some::<(Seq<Node>, int)>((Seq::empty(), p2)));
        assert(seq![nd] + Seq::<Node>::empty() =~= Seq::<Node>::empty().push(nd));
    } else {
        let (h, ph) = dec_node(bytes, pos).unwrap();
        lemma_dec_nodes_snoc(bytes, ph, (n - 1) as nat);
        let (s2, _) = dec_nodes(bytes, ph, (n - 1) as nat).unwrap();
        assert(s == seq![h] + s2);
        assert(seq![h] + s2.push(nd) =~= (seq![h] + s2).push(nd));
    }
}

/// A decoded edge sequence grows by one when one more edge follows it.
proof fn lemma_dec_edges_snoc(bytes: Seq<u8>, pos: int, n: nat)
    requires
        dec_edges(bytes, pos, n) is Some,
        dec_edge(bytes, dec_edges(bytes, pos, n).unwrap().1) is Some,
    ensures
        dec_edges(bytes, pos, n + 1) == Some::<(Seq<Edge>, int)>(
            (
                dec_edges(bytes, pos, n).unwrap().0.push(
                    dec_edge(bytes, dec_edges(bytes, pos, n).unwrap().1).unwrap().0,
                ),
                dec_edge(bytes, dec_edges(bytes, pos, n).unwrap().1).unwrap().1,
            ),
        ),
    decreases n,
{
    let (s, p) = dec_edges(bytes, pos, n).unwrap();
    let (e, p2) = dec_edge(bytes, p).unwrap();
    if n == 0 {
        assert(dec_edges(bytes, p2, 0) == Some::<(Seq<Edge>, int)>((Seq::empty(), p2)));
        assert(seq![e] + Seq::<Edge>::empty() =~= Seq::<Edge>::empty().push(e));
    } else {
        let (h, ph) = dec_edge(bytes, pos).unwrap();
        lemma_dec_edges_snoc(bytes, ph, (n - 1) as nat);
        let (s2, _) = dec_edges(bytes, ph, (n - 1) as nat).unwrap();
        assert(s == seq![h] + s2);
        assert(seq![h] + s2.push(e) =~= (seq![h] + s2).push(e));
    }
}

/// Append one node: its id, then its role tag.
fn push_node(out: &mut Vec<u8>, node: Node)
    ensures
        final(out)@.len() >= old(out)@.len(),
        final(out)@.take(old(out)@.len() as int) == old(out)@,
        dec_node(final(out)@, old(out)@.len() as int) == Some::<(Node, int)>(
            (node, final(out)@.len() as int),
        ),
{
    let ghost pre = out@;
    push_u64(out, node.id as u64);
    let ghost mid = out@;
    let tag: u64 = match node.node_type {
        NodeType::Input => 0,
        NodeType::Hidden => 1,
        NodeType::Output => 2,
    };
    push_u64(out, tag);
    proof {
        assert(out@ =~= mid + out@.skip(mid.len() as int));
        lemma_dec_u64_extend(mid, out@.skip(mid.len() as int), pre.len() as int);
        assert(out@.take(pre.len() as int) =~= pre);
    }
}

/// Append one edge: source, destination, weight, enabled flag, innovation.
fn push_edge(out: &mut Vec<u8>, edge: Edge)
    ensures
        final(out)@.len() >= old(out)@.len(),
        final(out)@.take(old(out)@.len() as int) == old(out)@,
        dec_edge(final(out)@, old(out)@.len() as int) == Some::<(Edge, int)>(
            (edge, final(out)@.len() as int),
        ),
{
    let ghost pre = out@;
    push_u64(out, edge.from as u64);
    let ghost m1 = out@;
    push_u64(out, edge.to as u64);
    let ghost m2 = out@;
    push_u64(out, edge.weight as u64);
    let ghost m3 = out@;
    push_u64(
        out,
        if edge.enabled {
            1
        } else {
            0
        },
    );
    let ghost m4 = out@;
    push_u64(out, edge.innovation as u64);
    proof {
        assert(m2 =~= m1 + m2.skip(m1.len() as int));
        assert(m3 =~= m2 + m3.skip(m2.len() as int));
        assert(m4 =~= m3 + m4.skip(m3.len() as int));
        assert(out@ =~= m4 + out@.skip(m4.len() as int));
        lemma_dec_u64_extend(m1, m2.skip(m1.len() as int), pre.len() as int);
        lemma_dec_u64_extend(m2, m3.skip(m2.len() as int), pre.len() as int);
        lemma_dec_u64_extend(m2, m3.skip(m2.len() as int), m1.len() as int);
        lemma_dec_u64_extend(m3, m4.skip(m3.len() as int), pre.len() as int);
        lemma_dec_u64_extend(m3, m4.skip(m3.len() as int), m1.len() as int);
        lemma_dec_u64_extend(m3, m4.skip(m3.len() as int), m2.len() as int);
        lemma_dec_u64_extend(m4, out@.skip(m4.len() as int), pre.len() as int);
        lemma_dec_u64_extend(m4, out@.skip(m4.len() as int), m1.len() as int);
        lemma_dec_u64_extend(m4, out@.skip(m4.len() as int), m2.len() as int);
        lemma_dec_u64_extend(m4, out@.skip(m4.len() as int), m3.len() as int);
        assert(out@.take(pre.len() as int) =~= pre);
    }
}

/// Append a counted node block: the count, then the nodes.
fn push_nodes(out: &mut Vec<u8>, nodes: &Vec<Node>)
    ensures
        final(out)@.len() >= old(out)@.len() + 8,
        final(out)@.take(old(out)@.len() as int) == old(out)@,
        dec_u64(final(out)@, old(out)@.len() as int) == Some::<(u64, int)>(
            (nodes@.len() as u64, old(out)@.len() as int + 8),
        ),
        dec_nodes(final(out)@, old(out)@.len() as int + 8, nodes@.len()) == Some::<
            (Seq<Node>, int),
        >((nodes@, final(out)@.len() as int)),
{
    let ghost pre = out@;
    push_u64(out, nodes.len() as u64);
    let ghost p_nodes = out@.len() as int;
    let mut k: usize = 0;
    while k < nodes.len()
        invariant
            k <= nodes@.len(),
            nodes@.len() <= usize::MAX,
            out@.len() >= p_nodes == pre.len() + 8,
            out@.take(pre.len() as int) == pre,
            dec_u64(out@, pre.len() as int) == Some::<(u64, int)>(
                (nodes@.len() as u64, p_nodes),
            ),
            dec_nodes(out@, p_nodes, k as nat) == Some::<(Seq<Node>, int)>(
                (nodes@.take(k as int), out@.len() as int),
            ),
        decreases nodes@.len() - k,
    {
        let ghost mid = out@;
        push_node(out, nodes[k]);
        k = k + 1;
        proof {
            let more = out@.skip(mid.len() as int);
            assert(out@ =~= mid + more);
            lemma_dec_u64_extend(mid, more, pre.len() as int);
            lemma_dec_nodes_extend(mid, more, p_nodes, (k - 1) as nat);
            lemma_dec_nodes_snoc(out@, p_nodes, (k - 1) as nat);
            assert(nodes@.take(k - 1).push(nodes@[k - 1]) =~= nodes@.take(k as int));
            assert(out@.take(pre.len() as int) =~= pre);
        }
    }
    proof {
        assert(nodes@.take(nodes@.len() as int) =~= nodes@);
    }
}

/// Append a counted edge block: the count, then the edges.
fn push_edges(out: &mut Vec<u8>, edges: &Vec<Edge>)
    ensures
        final(out)@.len() >= old(out)@.len() + 8,
        final(out)@.take(old(out)@.len() as int) == old(out)@,
        dec_u64(final(out)@, old(out)@.len() as int) == Some::<(u64, int)>(
            (edges@.len() as u64, old(out)@.len() as int + 8),
        ),
        dec_edges(final(out)@, old(out)@.len() as int + 8, edges@.len()) == Some::<
            (Seq<Edge>, int),
        >((edges@, final(out)@.len() as int)),
{
    let ghost pre = out@;
    push_u64(out, edges.len() as u64);
    let ghost p_edges = out@.len() as int;
    let mut k: usize = 0;
    while k < edges.len()
        invariant
            k <= edges@.len(),
            edges@.len() <= usize::MAX,
            out@.len() >= p_edges == pre.len() + 8,
            out@.take(pre.len() as int) == pre,
            dec_u64(out@, pre.len() as int) == Some::<(u64, int)>(
                (edges@.len() as u64, p_edges),
            ),
            dec_edges(out@, p_edges, k as nat) == Some::<(Seq<Edge>, int)>(
                (edges@.take(k as int), out@.len() as int),
            ),
        decreases edges@.len() - k,
    {
        let ghost mid = out@;
        push_edge(out, edges[k]);
        k = k + 1;
        proof {
            let more = out@.skip(mid.len() as int);
            assert(out@ =~= mid + more);
            lemma_dec_u64_extend(mid, more, pre.len() as int);
            lemma_dec_edges_extend(mid, more, p_edges, (k - 1) as nat);
            lemma_dec_edges_snoc(out@, p_edges, (k - 1) as nat);
            assert(edges@.take(k - 1).push(edges@[k - 1]) =~= edges@.take(k as int));
            assert(out@.take(pre.len() as int) =~= pre);
        }
    }
    proof {
        assert(edges@.take(edges@.len() as int) =~= edges@);
    }
}

/// Append a genome: node count, nodes, edge count, edges, id, size pair,
/// fitness. What was appended decodes back to the genome's view.
#[verifier::spinoff_prover]
fn push_genome(out: &mut Vec<u8>, nn: &NeuralNetwork)
    ensures
        final(out)@.len() >= old(out)@.len(),
        final(out)@.take(old(out)@.len() as int) == old(out)@,
        dec_genome(final(out)@, old(out)@.len() as int) == Some::<(GenomeView, int)>(
            (nn@, final(out)@.len() as int),
        ),
{
    let ghost pre = out@;
    proof {
        vstd::std_specs::vec::axiom_spec_len(&nn.nodes);
        vstd::std_specs::vec::axiom_spec_len(&nn.edges);
    }
    push_nodes(out, &nn.nodes);
    let ghost m_nodes = out@;
    let ghost p_nodes = pre.len() as int + 8;
    let ghost p_after_nodes = m_nodes.len() as int;
    push_edges(out, &nn.edges);
    let ghost m_edges = out@;
    let ghost p_edges = p_after_nodes + 8;
    let ghost p_after_edges = m_edges.len() as int;
    proof {
        let more = m_edges.skip(m_nodes.len() as int);
        assert(m_edges =~= m_nodes + more);
        lemma_dec_u64_extend(m_nodes, more, pre.len() as int);
        lemma_dec_nodes_extend(m_nodes, more, p_nodes, nn.nodes@.len());
        assert(m_edges.take(pre.len() as int) =~= pre);
    }
    push4(out, nn.id as u64, nn.size.0 as u64, nn.size.1 as u64, nn.fitness as u64);
    proof {
        let more = out@.skip(m_edges.len() as int);
        assert(out@ =~= m_edges + more);
        lemma_dec_genome_parts_extend(
            m_edges,
            more,
            pre.len() as int,
            p_nodes,
            p_after_nodes,
            p_edges,
            nn.nodes@.len(),
            nn.edges@.len(),
        );
        assert(out@.take(pre.len() as int) =~= pre);
        lemma_dec_genome_assemble(
            out@,
            pre.len() as int,
            p_nodes,
            p_after_nodes,
            p_edges,
            p_after_edges,
            nn@,
            out@.len() as int,
        );
    }
}

/// Append four words in a row.
fn push4(out: &mut Vec<u8>, a: u64, b: u64, c: u64, d: u64)
    ensures
        final(out)@.len() == old(out)@.len() + 32,
        final(out)@.take(old(out)@.len() as int) == old(out)@,
        dec_u64(final(out)@, old(out)@.len() as int) == Some::<(u64, int)>(
            (a, old(out)@.len() as int + 8),
        ),
        dec_u64(final(out)@, old(out)@.len() as int + 8) == Some::<(u64, int)>(
            (b, old(out)@.len() as int + 16),
        ),
        dec_u64(final(out)@, old(out)@.len() as int + 16) == Some::<(u64, int)>(
            (c, old(out)@.len() as int + 24),
        ),
        dec_u64(final(out)@, old(out)@.len() as int + 24) == Some::<(u64, int)>(
            (d, old(out)@.len() as int + 32),
        ),
{
    let ghost pre = out@;
    push_u64(out, a);
    let ghost m1 = out@;
    push_u64(out, b);
    let ghost m2 = out@;
    push_u64(out, c);
    let ghost m3 = out@;
    push_u64(out, d);
    proof {
        assert(m2 =~= m1 + m2.skip(m1.len() as int));
        assert(m3 =~= m2 + m3.skip(m2.len() as int));
        assert(out@ =~= m3 + out@.skip(m3.len() as int));
        lemma_dec_u64_extend(m1, m2.skip(m1.len() as int), pre.len() as int);
        lemma_dec_u64_extend(m2, m3.skip(m2.len() as int), pre.len() as int);
        lemma_dec_u64_extend(m2, m3.skip(m2.len() as int), m1.len() as int);
        lemma_dec_u64_extend(m3, out@.skip(m3.len() as int), pre.len() as int);
        lemma_dec_u64_extend(m3, out@.skip(m3.len() as int), m1.len() as int);
        lemma_dec_u64_extend(m3, out@.skip(m3.len() as int), m2.len() as int);
        assert(out@.take(pre.len() as int) =~= pre);
    }
}

/// A genome decodes from its parts: counted nodes, counted edges, and the
/// four trailing words.
proof fn lemma_dec_genome_assemble(
    bytes: Seq<u8>,
    pos: int,
    p_nodes: int,
    p_after_nodes: int,
    p_edges: int,
    p_after_edges: int,
    g: GenomeView,
    pend: int,
)
    requires
        g.nodes.len() <= usize::MAX,
        g.edges.len() <= usize::MAX,
        dec_u64(bytes, pos) == Some::<(u64, int)>((g.nodes.len() as u64, p_nodes)),
        dec_nodes(bytes, p_nodes, g.nodes.len()) == Some::<(Seq<Node>, int)>(
            (g.nodes, p_after_nodes),
        ),
        dec_u64(bytes, p_after_nodes) == Some::<(u64, int)>((g.edges.len() as u64, p_edges)),
        dec_edges(bytes, p_edges, g.edges.len()) == Some::<(Seq<Edge>, int)>(
            (g.edges, p_after_edges),
        ),
        dec_u64(bytes, p_after_edges) == Some::<(u64, int)>((g.id as u64, p_after_edges + 8)),
        dec_u64(bytes, p_after_edges + 8) == Some::<(u64, int)>(
            (g.size.0 as u64, p_after_edges + 16),
        ),
        dec_u64(bytes, p_after_edges + 16) == Some::<(u64, int)>(
            (g.size.1 as u64, p_after_edges + 24),
        ),
        dec_u64(bytes, p_after_edges + 24) == Some::<(u64, int)>((g.fitness as u64, pend)),
    ensures
        dec_genome(bytes, pos) == Some::<(GenomeView, int)>((g, pend)),
{
    reveal(dec_genome);
    assert(g.size == (g.size.0, g.size.1));
}

/// Growing the byte sequence does not disturb the already decoded node and/// Growing the byte sequence does not disturb the already decoded node and
/// edge blocks of a genome.
proof fn lemma_dec_genome_parts_extend(
    bytes: Seq<u8>,
    more: Seq<u8>,
    pos: int,
    p_nodes: int,
    p_after_nodes: int,
    p_edges: int,
    n_nodes: nat,
    n_edges: nat,
)
    requires
        dec_u64(bytes, pos) is Some,
        dec_nodes(bytes, p_nodes, n_nodes) is Some,
        dec_u64(bytes, p_after_nodes) is Some,
        dec_edges(bytes, p_edges, n_edges) is Some,
    ensures
        dec_u64(bytes + more, pos) == dec_u64(bytes, pos),
        dec_nodes(bytes + more, p_nodes, n_nodes) == dec_nodes(bytes, p_nodes, n_nodes),
        dec_u64(bytes + more, p_after_nodes) == dec_u64(bytes, p_after_nodes),
        dec_edges(bytes + more, p_edges, n_edges) == dec_edges(bytes, p_edges, n_edges),
{
    lemma_dec_u64_extend(bytes, more, pos);
    lemma_dec_nodes_extend(bytes, more, p_nodes, n_nodes);
    lemma_dec_u64_extend(bytes, more, p_after_nodes);
    lemma_dec_edges_extend(bytes, more, p_edges, n_edges);
}

/// One edge append keeps every already decoded block of a genome in place
/// and extends the decoded edge block by the appended edge.
/// Read one node.
fn read_node(bytes: &Vec<u8>, pos: usize) -> (r: Option<(Node, usize)>)
    ensures
        match r {
            Some((nd, p)) => dec_node(bytes@, pos as int) == Some::<(Node, int)>((nd, p as int))
                && p <= bytes@.len(),
            None => dec_node(bytes@, pos as int) is None,
        },
{
    match read_usize(bytes, pos) {
        Some((id, p1)) => match read_node_type(bytes, p1) {
            Some((t, p2)) => Some((Node { id, node_type: t }, p2)),
            None => None,
        },
        None => None,
    }
}

/// Read one edge.
fn read_edge(bytes: &Vec<u8>, pos: usize) -> (r: Option<(Edge, usize)>)
    ensures
        match r {
            Some((e, p)) => dec_edge(bytes@, pos as int) == Some::<(Edge, int)>((e, p as int)) && p
                <= bytes@.len(),
            None => dec_edge(bytes@, pos as int) is None,
        },
{
    match read_usize(bytes, pos) {
        Some((from, p1)) => match read_usize(bytes, p1) {
            Some((to, p2)) => match read_u32(bytes, p2) {
                Some((weight, p3)) => match read_bool(bytes, p3) {
                    Some((enabled, p4)) => match read_usize(bytes, p4) {
                        Some((innovation, p5)) => Some(
                            (Edge { from, to, weight, enabled, innovation }, p5),
                        ),
                        None => None,
                    },
                    None => None,
                },
                None => None,
            },
            None => None,
        },
        None => None,
    }
}

/// Read `n` nodes in sequence.
fn read_nodes(bytes: &Vec<u8>, pos: usize, n: usize) -> (r: Option<(Vec<Node>, usize)>)
    ensures
        match r {
            Some((v, p)) => dec_nodes(bytes@, pos as int, n as nat) == Some::<(Seq<Node>, int)>(
                (v@, p as int),
            ),
            None => dec_nodes(bytes@, pos as int, n as nat) is None,
        },
{
    let mut acc: Vec<Node> = Vec::new();
    let mut cur: usize = pos;
    let mut k: usize = 0;
    while k < n
        invariant
            k <= n,
            dec_nodes(bytes@, pos as int, n as nat) == (match dec_nodes(
                bytes@,
                cur as int,
                (n - k) as nat,
            ) {
                Some((s, p)) => Some::<(Seq<Node>, int)>((acc@ + s, p)),
                None => None,
            }),
        decreases n - k,
    {
        match read_node(bytes, cur) {
            Some((nd, p)) => {
                let ghost pre_acc = acc@;
                acc.push(nd);
                proof {
                    assert forall|s: Seq<Node>| true implies pre_acc + (seq![nd] + s) =~= acc@
                        + s by {}
                }
                cur = p;
                k = k + 1;
            },
            None => {
                return None;
            },
        }
    }
    proof {
        assert(dec_nodes(bytes@, cur as int, 0) == Some::<(Seq<Node>, int)>(
            (Seq::empty(), cur as int),
        ));
        assert(acc@ + Seq::<Node>::empty() =~= acc@);
    }
    Some((acc, cur))
}

/// Read `n` edges in sequence.
fn read_edges(bytes: &Vec<u8>, pos: usize, n: usize) -> (r: Option<(Vec<Edge>, usize)>)
    ensures
        match r {
            Some((v, p)) => dec_edges(bytes@, pos as int, n as nat) == Some::<(Seq<Edge>, int)>(
                (v@, p as int),
            ),
            None => dec_edges(bytes@, pos as int, n as nat) is None,
        },
{
    let mut acc: Vec<Edge> = Vec::new();
    let mut cur: usize = pos;
    let mut k: usize = 0;
    while k < n
        invariant
            k <= n,
            dec_edges(bytes@, pos as int, n as nat) == (match dec_edges(
                bytes@,
                cur as int,
                (n - k) as nat,
            ) {
                Some((s, p)) => Some::<(Seq<Edge>, int)>((acc@ + s, p)),
                None => None,
            }),
        decreases n - k,
    {
        match read_edge(bytes, cur) {
            Some((e, p)) => {
                let ghost pre_acc = acc@;
                acc.push(e);
                proof {
                    assert forall|s: Seq<Edge>| true implies pre_acc + (seq![e] + s) =~= acc@
                        + s by {}
                }
                cur = p;
                k = k + 1;
            },
            None => {
                return None;
            },
        }
    }
    proof {
        assert(dec_edges(bytes@, cur as int, 0) == Some::<(Seq<Edge>, int)>(
            (Seq::empty(), cur as int),
        ));
        assert(acc@ + Seq::<Edge>::empty() =~= acc@);
    }
    Some((acc, cur))
}

/// Read one genome; its phenotype cache starts empty.
fn read_genome(bytes: &Vec<u8>, pos: usize) -> (r: Option<(NeuralNetwork, usize)>)
    ensures
        match r {
            Some((g, p)) => dec_genome(bytes@, pos as int) == Some::<(GenomeView, int)>(
                (g@, p as int),
            ) && p <= bytes@.len() && g.pt is None,
            None => dec_genome(bytes@, pos as int) is None,
        },
{
    proof {
        reveal(dec_genome);
    }
    match read_usize(bytes, pos) {
        Some((n_nodes, p1)) => match read_nodes(bytes, p1, n_nodes) {
            Some((nodes, p2)) => match read_usize(bytes, p2) {
                Some((n_edges, p3)) => match read_edges(bytes, p3, n_edges) {
                    Some((edges, p4)) => match read_usize(bytes, p4) {
                        Some((id, p5)) => match read_usize(bytes, p5) {
                            Some((inp, p6)) => match read_usize(bytes, p6) {
                                Some((out, p7)) => match read_u32(bytes, p7) {
                                    Some((fitness, p8)) => Some(
                                        (
                                            NeuralNetwork {
                                                nodes,
                                                edges,
                                                id,
                                                size: (inp, out),
                                                fitness,
                                                pt: None,
                                            },
                                            p8,
                                        ),
                                    ),
                                    None => None,
                                },
                                None => None,
                            },
                            None => None,
                        },
                        None => None,
                    },
                    None => None,
                },
                None => None,
            },
            None => None,
        },
        None => None,
    }
}

/// Whether a genome is structurally well formed, checked at load time.
fn genome_wf_check(nn: &NeuralNetwork) -> (r: bool)
    ensures
        r == genome_wf(nn@),
{
    let inp = nn.size.0;
    let out = nn.size.1;
    let n = nn.nodes.len();
    if inp >= n || n - 1 - inp < out {
        return false;
    }
    let mut k: usize = 0;
    while k < n
        invariant
            k <= n,
            n == nn.nodes@.len(),
            inp == nn.size.0,
            out == nn.size.1,
            forall|j: int| 0 <= j < k ==> (#[trigger] nn.nodes@[j]).id == j,
            forall|j: int|
                0 <= j < k ==> (#[trigger] nn.nodes@[j]).node_type == (if j <= inp {
                    NodeType::Input
                } else if j <= inp + out {
                    NodeType::Output
                } else {
                    NodeType::Hidden
                }),
        decreases n - k,
    {
        if nn.nodes[k].id != k {
            return false;
        }
        let expected = if k <= inp {
            NodeType::Input
        } else if k - inp <= out {
            NodeType::Output
        } else {
            NodeType::Hidden
        };
        let actual = nn.nodes[k].node_type;
        let same = match (actual, expected) {
            (NodeType::Input, NodeType::Input) => true,
            (NodeType::Hidden, NodeType::Hidden) => true,
            (NodeType::Output, NodeType::Output) => true,
            _ => false,
        };
        if !same {
            proof {
                assert(nn@.nodes[k as int].node_type != (if k <= inp {
                    NodeType::Input
                } else if k <= inp + out {
                    NodeType::Output
                } else {
                    NodeType::Hidden
                }));
            }
            return false;
        }
        k = k + 1;
    }
    let mut e: usize = 0;
    while e < nn.edges.len()
        invariant
            e <= nn.edges@.len(),
            n == nn.nodes@.len(),
            forall|j: int|
                0 <= j < e ==> (#[trigger] nn.edges@[j]).from < n && nn.edges@[j].to < n,
        decreases nn.edges@.len() - e,
    {
        if nn.edges[e].from >= n || nn.edges[e].to >= n {
            proof {
                assert(nn@.edges[e as int].from >= nn@.nodes.len() || nn@.edges[e as int].to
                    >= nn@.nodes.len());
            }
            return false;
        }
        e = e + 1;
    }
    true
}

impl NeuralNetwork {
    /// The encoded byte representation of the network, used to store it on
    /// disk. What is returned decodes back to this network's data, which is
    /// the persistence round trip; the phenotype cache is not stored.
    pub fn as_byte_representation(&self) -> (r: Vec<u8>)
        ensures
            dec_genome(r@, 0) == Some::<(GenomeView, int)>((self@, r@.len() as int)),
    {
        let mut out: Vec<u8> = Vec::new();
        push_genome(&mut out, self);
        proof {
            assert(out@.take(0) =~= Seq::<u8>::empty());
        }
        out
    }

    /// Rebuild a network from its encoded byte representation. Loading
    /// either fully succeeds, returning a structurally well-formed network
    /// with an empty phenotype cache, or fails atomically with a decode
    /// error: on trailing bytes, on ill-formed words, and on a structure
    /// that no well-formed network has.
    pub fn create_from_bytes(bytes: &Vec<u8>) -> (r: Result<NeuralNetwork, NeatError>)
        ensures
            match r {
                Ok(g) => {
                    &&& dec_genome(bytes@, 0) == Some::<(GenomeView, int)>(
                        (g@, bytes@.len() as int),
                    )
                    &&& g.wf()
                    &&& g.pt is None
                },
                Err(e) => {
                    &&& e == NeatError::DecodeError
                    &&& match dec_genome(bytes@, 0) {
                        Some((v, end)) => end != bytes@.len() || !genome_wf(v),
                        None => true,
                    }
                },
            },
    {
        match read_genome(bytes, 0) {
            Some((g, p)) => {
                if p != bytes.len() {
                    return Err(NeatError::DecodeError);
                }
                if !genome_wf_check(&g) {
                    return Err(NeatError::DecodeError);
                }
                Ok(g)
            },
            None => Err(NeatError::DecodeError),
        }
    }
}

/// Decode `n` member ids in sequence.
pub open spec fn dec_members(bytes: Seq<u8>, pos: int, n: nat) -> Option<(Seq<usize>, int)>
    decreases n,
{
    if n == 0 {
        Some((Seq::empty(), pos))
    } else {
        match dec_usize(bytes, pos) {
            Some((m, p1)) => match dec_members(bytes, p1, (n - 1) as nat) {
                Some((s, p2)) => Some((seq![m] + s, p2)),
                None => None,
            },
            None => None,
        }
    }
}

/// Decode a species: the representative genome, then the counted member ids.
#[verifier::opaque]
pub open spec fn dec_species(bytes: Seq<u8>, pos: int) -> Option<(SpeciesView, int)> {
    match dec_genome(bytes, pos) {
        Some((rep, p1)) => match dec_usize(bytes, p1) {
            Some((n, p2)) => match dec_members(bytes, p2, n as nat) {
                Some((members, p3)) => Some(
                    (SpeciesView { representative: rep, members }, p3),
                ),
                None => None,
            },
            None => None,
        },
        None => None,
    }
}

/// Decode `n` genomes in sequence.
pub open spec fn dec_genomes(bytes: Seq<u8>, pos: int, n: nat) -> Option<(Seq<GenomeView>, int)>
    decreases n,
{
    if n == 0 {
        Some((Seq::empty(), pos))
    } else {
        match dec_genome(bytes, pos) {
            Some((g, p1)) => match dec_genomes(bytes, p1, (n - 1) as nat) {
                Some((s, p2)) => Some((seq![g] + s, p2)),
                None => None,
            },
            None => None,
        }
    }
}

/// Decode `n` species in sequence.
pub open spec fn dec_species_seq(bytes: Seq<u8>, pos: int, n: nat) -> Option<
    (Seq<SpeciesView>, int),
>
    decreases n,
{
    if n == 0 {
        Some((Seq::empty(), pos))
    } else {
        match dec_species(bytes, pos) {
            Some((sp, p1)) => match dec_species_seq(bytes, p1, (n - 1) as nat) {
                Some((s, p2)) => Some((seq![sp] + s, p2)),
                None => None,
            },
            None => None,
        }
    }
}

/// Decode a solver: the counted networks, the size pair, the population
/// count and generation counter, the counted species, the threshold and the
/// three distance weights.
#[verifier::opaque]
pub open spec fn dec_solver(bytes: Seq<u8>, pos: int) -> Option<(SolverView, int)> {
    match dec_usize(bytes, pos) {
        Some((n_nets, p1)) => match dec_genomes(bytes, p1, n_nets as nat) {
            Some((networks, p2)) => match dec_usize(bytes, p2) {
                Some((s0, p3)) => match dec_usize(bytes, p3) {
                    Some((s1, p4)) => match dec_usize(bytes, p4) {
                        Some((gen_size, p5)) => match dec_usize(bytes, p5) {
                            Some((generation, p6)) => match dec_usize(bytes, p6) {
                                Some((n_species, p7)) => match dec_species_seq(
                                    bytes,
                                    p7,
                                    n_species as nat,
                                ) {
                                    Some((species, p8)) => match dec_u32(bytes, p8) {
                                        Some((thr, p9)) => match dec_u32(bytes, p9) {
                                            Some((c1, p10)) => match dec_u32(bytes, p10) {
                                                Some((c2, p11)) => match dec_u32(bytes, p11) {
                                                    Some((c3, p12)) => Some(
                                                        (
                                                            SolverView {
                                                                networks,
                                                                network_size: (s0, s1),
                                                                generation_size: gen_size,
                                                                generation,
                                                                species,
                                                                distance_threshold: thr,
                                                                config: Config { c1, c2, c3 },
                                                            },
                                                            p12,
                                                        ),
                                                    ),
                                                    None => None,
                                                },
                                                None => None,
                                            },
                                            None => None,
                                        },
                                        None => None,
                                    },
                                    None => None,
                                },
                                None => None,
                            },
                            None => None,
                        },
                        None => None,
                    },
                    None => None,
                },
                None => None,
            },
            None => None,
        },
        None => None,
    }
}

/// Growing the byte sequence does not disturb member ids already decoded.
proof fn lemma_dec_members_extend(bytes: Seq<u8>, more: Seq<u8>, pos: int, n: nat)
    requires
        dec_members(bytes, pos, n) is Some,
    ensures
        dec_members(bytes + more, pos, n) == dec_members(bytes, pos, n),
    decreases n,
{
    if n > 0 {
        lemma_dec_u64_extend(bytes, more, pos);
        let p1 = dec_usize(bytes, pos).unwrap().1;
        lemma_dec_members_extend(bytes, more, p1, (n - 1) as nat);
    }
}

/// Growing the byte sequence does not disturb a species already decoded.
proof fn lemma_dec_species_extend(bytes: Seq<u8>, more: Seq<u8>, pos: int)
    requires
        dec_species(bytes, pos) is Some,
    ensures
        dec_species(bytes + more, pos) == dec_species(bytes, pos),
{
    reveal(dec_species);
    lemma_dec_genome_extend(bytes, more, pos);
    let p1 = dec_genome(bytes, pos).unwrap().1;
    lemma_dec_u64_extend(bytes, more, p1);
    let n = dec_usize(bytes, p1).unwrap().0;
    let p2 = dec_usize(bytes, p1).unwrap().1;
    lemma_dec_members_extend(bytes, more, p2, n as nat);
}

/// Growing the byte sequence does not disturb genomes already decoded.
proof fn lemma_dec_genomes_extend(bytes: Seq<u8>, more: Seq<u8>, pos: int, n: nat)
    requires
        dec_genomes(bytes, pos, n) is Some,
    ensures
        dec_genomes(bytes + more, pos, n) == dec_genomes(bytes, pos, n),
    decreases n,
{
    if n > 0 {
        lemma_dec_genome_extend(bytes, more, pos);
        let p1 = dec_genome(bytes, pos).unwrap().1;
        lemma_dec_genomes_extend(bytes, more, p1, (n - 1) as nat);
    }
}

/// Growing the byte sequence does not disturb species already decoded.
proof fn lemma_dec_species_seq_extend(bytes: Seq<u8>, more: Seq<u8>, pos: int, n: nat)
    requires
        dec_species_seq(bytes, pos, n) is Some,
    ensures
        dec_species_seq(bytes + more, pos, n) == dec_species_seq(bytes, pos, n),
    decreases n,
{
    if n > 0 {
        lemma_dec_species_extend(bytes, more, pos);
        let p1 = dec_species(bytes, pos).unwrap().1;
        lemma_dec_species_seq_extend(bytes, more, p1, (n - 1) as nat);
    }
}

/// A decoded member sequence grows by one when one more id follows it.
proof fn lemma_dec_members_snoc(bytes: Seq<u8>, pos: int, n: nat)
    requires
        dec_members(bytes, pos, n) is Some,
        dec_usize(bytes, dec_members(bytes, pos, n).unwrap().1) is Some,
    ensures
        dec_members(bytes, pos, n + 1) == Some::<(Seq<usize>, int)>(
            (
                dec_members(bytes, pos, n).unwrap().0.push(
                    dec_usize(bytes, dec_members(bytes, pos, n).unwrap().1).unwrap().0,
                ),
                dec_usize(bytes, dec_members(bytes, pos, n).unwrap().1).unwrap().1,
            ),
        ),
    decreases n,
{
    let (s, p) = dec_members(bytes, pos, n).unwrap();
    let (m, p2) = dec_usize(bytes, p).unwrap();
    if n == 0 {
        assert(dec_members(bytes, p2, 0) == Some::<(Seq<usize>, int)>((Seq::empty(), p2)));
        assert(seq![m] + Seq::<usize>::empty() =~= Seq::<usize>::empty().push(m));
    } else {
        let (h, ph) = dec_usize(bytes, pos).unwrap();
        lemma_dec_members_snoc(bytes, ph, (n - 1) as nat);
        let (s2, _) = dec_members(bytes, ph, (n - 1) as nat).unwrap();
        assert(s == seq![h] + s2);
        assert(seq![h] + s2.push(m) =~= (seq![h] + s2).push(m));
    }
}

/// A decoded genome sequence grows by one when one more genome follows it.
proof fn lemma_dec_genomes_snoc(bytes: Seq<u8>, pos: int, n: nat)
    requires
        dec_genomes(bytes, pos, n) is Some,
        dec_genome(bytes, dec_genomes(bytes, pos, n).unwrap().1) is Some,
    ensures
        dec_genomes(bytes, pos, n + 1) == Some::<(Seq<GenomeView>, int)>(
            (
                dec_genomes(bytes, pos, n).unwrap().0.push(
                    dec_genome(bytes, dec_genomes(bytes, pos, n).unwrap().1).unwrap().0,
                ),
                dec_genome(bytes, dec_genomes(bytes, pos, n).unwrap().1).unwrap().1,
            ),
        ),
    decreases n,
{
    let (s, p) = dec_genomes(bytes, pos, n).unwrap();
    let (g, p2) = dec_genome(bytes, p).unwrap();
    if n == 0 {
        assert(dec_genomes(bytes, p2, 0) == Some::<(Seq<GenomeView>, int)>((Seq::empty(), p2)));
        assert(seq![g] + Seq::<GenomeView>::empty() =~= Seq::<GenomeView>::empty().push(g));
    } else {
        let (h, ph) = dec_genome(bytes, pos).unwrap();
        lemma_dec_genomes_snoc(bytes, ph, (n - 1) as nat);
        let (s2, _) = dec_genomes(bytes, ph, (n - 1) as nat).unwrap();
        assert(s == seq![h] + s2);
        assert(seq![h] + s2.push(g) =~= (seq![h] + s2).push(g));
    }
}

/// A decoded species sequence grows by one when one more species follows it.
proof fn lemma_dec_species_seq_snoc(bytes: Seq<u8>, pos: int, n: nat)
    requires
        dec_species_seq(bytes, pos, n) is Some,
        dec_species(bytes, dec_species_seq(bytes, pos, n).unwrap().1) is Some,
    ensures
        dec_species_seq(bytes, pos, n + 1) == Some::<(Seq<SpeciesView>, int)>(
            (
                dec_species_seq(bytes, pos, n).unwrap().0.push(
                    dec_species(bytes, dec_species_seq(bytes, pos, n).unwrap().1).unwrap().0,
                ),
                dec_species(bytes, dec_species_seq(bytes, pos, n).unwrap().1).unwrap().1,
            ),
        ),
    decreases n,
{
    let (s, p) = dec_species_seq(bytes, pos, n).unwrap();
    let (sp, p2) = dec_species(bytes, p).unwrap();
    if n == 0 {
        assert(dec_species_seq(bytes, p2, 0) == Some::<(Seq<SpeciesView>, int)>(
            (Seq::empty(), p2),
        ));
        assert(seq![sp] + Seq::<SpeciesView>::empty() =~= Seq::<SpeciesView>::empty().push(sp));
    } else {
        let (h, ph) = dec_species(bytes, pos).unwrap();
        lemma_dec_species_seq_snoc(bytes, ph, (n - 1) as nat);
        let (s2, _) = dec_species_seq(bytes, ph, (n - 1) as nat).unwrap();
        assert(s == seq![h] + s2);
        assert(seq![h] + s2.push(sp) =~= (seq![h] + s2).push(sp));
    }
}

/// Append a counted member-id block.
fn push_members(out: &mut Vec<u8>, members: &Vec<usize>)
    ensures
        final(out)@.len() >= old(out)@.len() + 8,
        final(out)@.take(old(out)@.len() as int) == old(out)@,
        dec_u64(final(out)@, old(out)@.len() as int) == Some::<(u64, int)>(
            (members@.len() as u64, old(out)@.len() as int + 8),
        ),
        dec_members(final(out)@, old(out)@.len() as int + 8, members@.len()) == Some::<
            (Seq<usize>, int),
        >((members@, final(out)@.len() as int)),
{
    let ghost pre = out@;
    push_u64(out, members.len() as u64);
    let ghost p0 = out@.len() as int;
    let mut k: usize = 0;
    while k < members.len()
        invariant
            k <= members@.len(),
            members@.len() <= usize::MAX,
            out@.len() >= p0 == pre.len() + 8,
            out@.take(pre.len() as int) == pre,
            dec_u64(out@, pre.len() as int) == Some::<(u64, int)>(
                (members@.len() as u64, p0),
            ),
            dec_members(out@, p0, k as nat) == Some::<(Seq<usize>, int)>(
                (members@.take(k as int), out@.len() as int),
            ),
        decreases members@.len() - k,
    {
        let ghost mid = out@;
        push_u64(out, members[k] as u64);
        k = k + 1;
        proof {
            let more = out@.skip(mid.len() as int);
            assert(out@ =~= mid + more);
            lemma_dec_u64_extend(mid, more, pre.len() as int);
            lemma_dec_members_extend(mid, more, p0, (k - 1) as nat);
            lemma_dec_members_snoc(out@, p0, (k - 1) as nat);
            assert(members@.take(k - 1).push(members@[k - 1]) =~= members@.take(k as int));
            assert(out@.take(pre.len() as int) =~= pre);
        }
    }
    proof {
        assert(members@.take(members@.len() as int) =~= members@);
    }
}

/// Append one species: the representative genome, then the member block.
fn push_species(out: &mut Vec<u8>, sp: &Species)
    ensures
        final(out)@.len() >= old(out)@.len(),
        final(out)@.take(old(out)@.len() as int) == old(out)@,
        dec_species(final(out)@, old(out)@.len() as int) == Some::<(SpeciesView, int)>(
            (sp@, final(out)@.len() as int),
        ),
{
    let ghost pre = out@;
    proof {
        vstd::std_specs::vec::axiom_spec_len(&sp.members);
    }
    push_genome(out, &sp.representative);
    let ghost mid = out@;
    push_members(out, &sp.members);
    proof {
        reveal(dec_species);
        let more = out@.skip(mid.len() as int);
        assert(out@ =~= mid + more);
        lemma_dec_genome_extend(mid, more, pre.len() as int);
        assert(out@.take(pre.len() as int) =~= pre);
    }
}

/// Append a counted genome block.
fn push_genomes(out: &mut Vec<u8>, nets: &Vec<NeuralNetwork>)
    ensures
        final(out)@.len() >= old(out)@.len() + 8,
        final(out)@.take(old(out)@.len() as int) == old(out)@,
        dec_u64(final(out)@, old(out)@.len() as int) == Some::<(u64, int)>(
            (nets@.len() as u64, old(out)@.len() as int + 8),
        ),
        dec_genomes(final(out)@, old(out)@.len() as int + 8, nets@.len()) == Some::<
            (Seq<GenomeView>, int),
        >((genome_views(nets@), final(out)@.len() as int)),
{
    let ghost pre = out@;
    push_u64(out, nets.len() as u64);
    let ghost p0 = out@.len() as int;
    let mut k: usize = 0;
    while k < nets.len()
        invariant
            k <= nets@.len(),
            nets@.len() <= usize::MAX,
            out@.len() >= p0 == pre.len() + 8,
            out@.take(pre.len() as int) == pre,
            dec_u64(out@, pre.len() as int) == Some::<(u64, int)>((nets@.len() as u64, p0)),
            dec_genomes(out@, p0, k as nat) == Some::<(Seq<GenomeView>, int)>(
                (genome_views(nets@).take(k as int), out@.len() as int),
            ),
        decreases nets@.len() - k,
    {
        let ghost mid = out@;
        push_genome(out, &nets[k]);
        k = k + 1;
        proof {
            let more = out@.skip(mid.len() as int);
            assert(out@ =~= mid + more);
            lemma_dec_u64_extend(mid, more, pre.len() as int);
            lemma_dec_genomes_extend(mid, more, p0, (k - 1) as nat);
            lemma_dec_genomes_snoc(out@, p0, (k - 1) as nat);
            assert(genome_views(nets@).take(k - 1).push(nets@[k - 1]@) =~= genome_views(
                nets@,
            ).take(k as int));
            assert(out@.take(pre.len() as int) =~= pre);
        }
    }
    proof {
        assert(genome_views(nets@).take(nets@.len() as int) =~= genome_views(nets@));
    }
}

/// Append a counted species block.
fn push_species_seq(out: &mut Vec<u8>, species: &Vec<Species>)
    ensures
        final(out)@.len() >= old(out)@.len() + 8,
        final(out)@.take(old(out)@.len() as int) == old(out)@,
        dec_u64(final(out)@, old(out)@.len() as int) == Some::<(u64, int)>(
            (species@.len() as u64, old(out)@.len() as int + 8),
        ),
        dec_species_seq(final(out)@, old(out)@.len() as int + 8, species@.len()) == Some::<
            (Seq<SpeciesView>, int),
        >((species_views(species@), final(out)@.len() as int)),
{
    let ghost pre = out@;
    push_u64(out, species.len() as u64);
    let ghost p0 = out@.len() as int;
    let mut k: usize = 0;
    while k < species.len()
        invariant
            k <= species@.len(),
            species@.len() <= usize::MAX,
            out@.len() >= p0 == pre.len() + 8,
            out@.take(pre.len() as int) == pre,
            dec_u64(out@, pre.len() as int) == Some::<(u64, int)>(
                (species@.len() as u64, p0),
            ),
            dec_species_seq(out@, p0, k as nat) == Some::<(Seq<SpeciesView>, int)>(
                (species_views(species@).take(k as int), out@.len() as int),
            ),
        decreases species@.len() - k,
    {
        let ghost mid = out@;
        push_species(out, &species[k]);
        k = k + 1;
        proof {
            let more = out@.skip(mid.len() as int);
            assert(out@ =~= mid + more);
            lemma_dec_u64_extend(mid, more, pre.len() as int);
            lemma_dec_species_seq_extend(mid, more, p0, (k - 1) as nat);
            lemma_dec_species_seq_snoc(out@, p0, (k - 1) as nat);
            assert(species_views(species@).take(k - 1).push(species@[k - 1]@) =~= species_views(
                species@,
            ).take(k as int));
            assert(out@.take(pre.len() as int) =~= pre);
        }
    }
    proof {
        assert(species_views(species@).take(species@.len() as int) =~= species_views(species@));
    }
}

/// A solver decodes from its parts.
proof fn lemma_dec_solver_assemble(
    bytes: Seq<u8>,
    pos: int,
    p_nets: int,
    p_after_nets: int,
    p_species: int,
    p_after_species: int,
    v: SolverView,
    pend: int,
)
    requires
        v.networks.len() <= usize::MAX,
        v.species.len() <= usize::MAX,
        dec_u64(bytes, pos) == Some::<(u64, int)>((v.networks.len() as u64, p_nets)),
        dec_genomes(bytes, p_nets, v.networks.len()) == Some::<(Seq<GenomeView>, int)>(
            (v.networks, p_after_nets),
        ),
        dec_u64(bytes, p_after_nets) == Some::<(u64, int)>(
            (v.network_size.0 as u64, p_after_nets + 8),
        ),
        dec_u64(bytes, p_after_nets + 8) == Some::<(u64, int)>(
            (v.network_size.1 as u64, p_after_nets + 16),
        ),
        dec_u64(bytes, p_after_nets + 16) == Some::<(u64, int)>(
            (v.generation_size as u64, p_after_nets + 24),
        ),
        dec_u64(bytes, p_after_nets + 24) == Some::<(u64, int)>(
            (v.generation as u64, p_after_nets + 32),
        ),
        dec_u64(bytes, p_after_nets + 32) == Some::<(u64, int)>(
            (v.species.len() as u64, p_species),
        ),
        dec_species_seq(bytes, p_species, v.species.len()) == Some::<(Seq<SpeciesView>, int)>(
            (v.species, p_after_species),
        ),
        dec_u64(bytes, p_after_species) == Some::<(u64, int)>(
            (v.distance_threshold as u64, p_after_species + 8),
        ),
        dec_u64(bytes, p_after_species + 8) == Some::<(u64, int)>(
            (v.config.c1 as u64, p_after_species + 16),
        ),
        dec_u64(bytes, p_after_species + 16) == Some::<(u64, int)>(
            (v.config.c2 as u64, p_after_species + 24),
        ),
        dec_u64(bytes, p_after_species + 24) == Some::<(u64, int)>((v.config.c3 as u64, pend)),
    ensures
        dec_solver(bytes, pos) == Some::<(SolverView, int)>((v, pend)),
{
    reveal(dec_solver);
    assert(v.network_size == (v.network_size.0, v.network_size.1));
    assert(v.config == (Config { c1: v.config.c1, c2: v.config.c2, c3: v.config.c3 }));
}

impl Solver {
    /// The encoded byte representation of the solver, used to store the
    /// whole training state on disk. What is returned decodes back to this
    /// solver's data, which is the persistence round trip; phenotype caches
    /// are not stored.
    #[verifier::spinoff_prover]
    pub fn as_byte_representation(&self) -> (r: Vec<u8>)
        ensures
            dec_solver(r@, 0) == Some::<(SolverView, int)>((self@, r@.len() as int)),
    {
        proof {
            vstd::std_specs::vec::axiom_spec_len(&self.networks);
            vstd::std_specs::vec::axiom_spec_len(&self.species);
        }
        let mut out: Vec<u8> = Vec::new();
        push_genomes(&mut out, &self.networks);
        let ghost m_nets = out@;
        let ghost p_nets = 8int;
        let ghost p_after_nets = m_nets.len() as int;
        push4(
            &mut out,
            self.network_size.0 as u64,
            self.network_size.1 as u64,
            self.generation_size as u64,
            self.generation as u64,
        );
        let ghost m4 = out@;
        proof {
            let more = m4.skip(m_nets.len() as int);
            assert(m4 =~= m_nets + more);
            lemma_dec_u64_extend(m_nets, more, 0);
            lemma_dec_genomes_extend(m_nets, more, p_nets, self.networks@.len());
        }
        push_species_seq(&mut out, &self.species);
        let ghost m_sp = out@;
        let ghost p_species = p_after_nets + 40;
        let ghost p_after_species = m_sp.len() as int;
        proof {
            let more = m_sp.skip(m4.len() as int);
            assert(m_sp =~= m4 + more);
            lemma_dec_u64_extend(m4, more, 0);
            lemma_dec_genomes_extend(m4, more, p_nets, self.networks@.len());
            lemma_dec_u64_extend(m4, more, p_after_nets);
            lemma_dec_u64_extend(m4, more, p_after_nets + 8);
            lemma_dec_u64_extend(m4, more, p_after_nets + 16);
            lemma_dec_u64_extend(m4, more, p_after_nets + 24);
        }
        push4(
            &mut out,
            self.distance_threshold as u64,
            self.config.c1 as u64,
            self.config.c2 as u64,
            self.config.c3 as u64,
        );
        proof {
            let more = out@.skip(m_sp.len() as int);
            assert(out@ =~= m_sp + more);
            lemma_dec_u64_extend(m_sp, more, 0);
            lemma_dec_genomes_extend(m_sp, more, p_nets, self.networks@.len());
            lemma_dec_u64_extend(m_sp, more, p_after_nets);
            lemma_dec_u64_extend(m_sp, more, p_after_nets + 8);
            lemma_dec_u64_extend(m_sp, more, p_after_nets + 16);
            lemma_dec_u64_extend(m_sp, more, p_after_nets + 24);
            lemma_dec_u64_extend(m_sp, more, p_after_nets + 32);
            lemma_dec_species_seq_extend(m_sp, more, p_species, self.species@.len());
            lemma_dec_solver_assemble(
                out@,
                0,
                p_nets,
                p_after_nets,
                p_species,
                p_after_species,
                self@,
                out@.len() as int,
            );
        }
        out
    }
}

/// Read `n` member ids.
fn read_members(bytes: &Vec<u8>, pos: usize, n: usize) -> (r: Option<(Vec<usize>, usize)>)
    ensures
        match r {
            Some((v, p)) => dec_members(bytes@, pos as int, n as nat) == Some::<(Seq<usize>, int)>(
                (v@, p as int),
            ),
            None => dec_members(bytes@, pos as int, n as nat) is None,
        },
{
    let mut acc: Vec<usize> = Vec::new();
    let mut cur: usize = pos;
    let mut k: usize = 0;
    while k < n
        invariant
            k <= n,
            dec_members(bytes@, pos as int, n as nat) == (match dec_members(
                bytes@,
                cur as int,
                (n - k) as nat,
            ) {
                Some((s, p)) => Some::<(Seq<usize>, int)>((acc@ + s, p)),
                None => None,
            }),
        decreases n - k,
    {
        match read_usize(bytes, cur) {
            Some((m, p)) => {
                let ghost pre_acc = acc@;
                acc.push(m);
                proof {
                    assert forall|s: Seq<usize>| true implies pre_acc + (seq![m] + s) =~= acc@
                        + s by {}
                }
                cur = p;
                k = k + 1;
            },
            None => {
                return None;
            },
        }
    }
    proof {
        assert(dec_members(bytes@, cur as int, 0) == Some::<(Seq<usize>, int)>(
            (Seq::empty(), cur as int),
        ));
        assert(acc@ + Seq::<usize>::empty() =~= acc@);
    }
    Some((acc, cur))
}

/// Read one species; its representative's phenotype cache starts empty.
fn read_species(bytes: &Vec<u8>, pos: usize) -> (r: Option<(Species, usize)>)
    ensures
        match r {
            Some((sp, p)) => dec_species(bytes@, pos as int) == Some::<(SpeciesView, int)>(
                (sp@, p as int),
            ) && sp.representative.pt is None,
            None => dec_species(bytes@, pos as int) is None,
        },
{
    proof {
        reveal(dec_species);
    }
    match read_genome(bytes, pos) {
        Some((rep, p1)) => match read_usize(bytes, p1) {
            Some((n, p2)) => match read_members(bytes, p2, n) {
                Some((members, p3)) => Some((Species { representative: rep, members }, p3)),
                None => None,
            },
            None => None,
        },
        None => None,
    }
}

/// Read `n` genomes; every phenotype cache starts empty.
fn read_genomes(bytes: &Vec<u8>, pos: usize, n: usize) -> (r: Option<(Vec<NeuralNetwork>, usize)>)
    ensures
        match r {
            Some((v, p)) => dec_genomes(bytes@, pos as int, n as nat) == Some::<
                (Seq<GenomeView>, int),
            >((genome_views(v@), p as int)) && (forall|i: int|
                0 <= i < v@.len() ==> (#[trigger] v@[i]).pt is None),
            None => dec_genomes(bytes@, pos as int, n as nat) is None,
        },
{
    let mut acc: Vec<NeuralNetwork> = Vec::new();
    let mut cur: usize = pos;
    let mut k: usize = 0;
    while k < n
        invariant
            k <= n,
            dec_genomes(bytes@, pos as int, n as nat) == (match dec_genomes(
                bytes@,
                cur as int,
                (n - k) as nat,
            ) {
                Some((s, p)) => Some::<(Seq<GenomeView>, int)>((genome_views(acc@) + s, p)),
                None => None,
            }),
            forall|i: int| 0 <= i < acc@.len() ==> (#[trigger] acc@[i]).pt is None,
        decreases n - k,
    {
        match read_genome(bytes, cur) {
            Some((g, p)) => {
                let ghost pre_acc = acc@;
                acc.push(g);
                proof {
                    assert(genome_views(acc@).drop_last() =~= genome_views(pre_acc));
                    assert(genome_views(acc@) =~= genome_views(pre_acc).push(g@));
                    assert forall|s: Seq<GenomeView>| true implies genome_views(pre_acc) + (seq![
                        g@,
                    ] + s) =~= genome_views(acc@) + s by {}
                }
                cur = p;
                k = k + 1;
            },
            None => {
                return None;
            },
        }
    }
    proof {
        assert(dec_genomes(bytes@, cur as int, 0) == Some::<(Seq<GenomeView>, int)>(
            (Seq::empty(), cur as int),
        ));
        assert(genome_views(acc@) + Seq::<GenomeView>::empty() =~= genome_views(acc@));
    }
    Some((acc, cur))
}

/// Read `n` species; every representative's phenotype cache starts empty.
fn read_species_seq(bytes: &Vec<u8>, pos: usize, n: usize) -> (r: Option<(Vec<Species>, usize)>)
    ensures
        match r {
            Some((v, p)) => dec_species_seq(bytes@, pos as int, n as nat) == Some::<
                (Seq<SpeciesView>, int),
            >((species_views(v@), p as int)) && (forall|i: int|
                0 <= i < v@.len() ==> (#[trigger] v@[i]).representative.pt is None),
            None => dec_species_seq(bytes@, pos as int, n as nat) is None,
        },
{
    let mut acc: Vec<Species> = Vec::new();
    let mut cur: usize = pos;
    let mut k: usize = 0;
    while k < n
        invariant
            k <= n,
            dec_species_seq(bytes@, pos as int, n as nat) == (match dec_species_seq(
                bytes@,
                cur as int,
                (n - k) as nat,
            ) {
                Some((s, p)) => Some::<(Seq<SpeciesView>, int)>((species_views(acc@) + s, p)),
                None => None,
            }),
            forall|i: int| 0 <= i < acc@.len() ==> (#[trigger] acc@[i]).representative.pt is None,
        decreases n - k,
    {
        match read_species(bytes, cur) {
            Some((sp, p)) => {
                let ghost pre_acc = acc@;
                acc.push(sp);
                proof {
                    assert(species_views(acc@).drop_last() =~= species_views(pre_acc));
                    assert(species_views(acc@) =~= species_views(pre_acc).push(sp@));
                    assert forall|s: Seq<SpeciesView>| true implies species_views(pre_acc) + (seq![
                        sp@,
                    ] + s) =~= species_views(acc@) + s by {}
                }
                cur = p;
                k = k + 1;
            },
            None => {
                return None;
            },
        }
    }
    proof {
        assert(dec_species_seq(bytes@, cur as int, 0) == Some::<(Seq<SpeciesView>, int)>(
            (Seq::empty(), cur as int),
        ));
        assert(species_views(acc@) + Seq::<SpeciesView>::empty() =~= species_views(acc@));
    }
    Some((acc, cur))
}

/// Read one solver; every phenotype cache starts empty.
fn read_solver(bytes: &Vec<u8>, pos: usize) -> (r: Option<(Solver, usize)>)
    ensures
        match r {
            Some((s, p)) => dec_solver(bytes@, pos as int) == Some::<(SolverView, int)>(
                (s@, p as int),
            ) && p <= bytes@.len() && (forall|i: int|
                0 <= i < s.networks@.len() ==> (#[trigger] s.networks@[i]).pt is None) && (
            forall|i: int|
                0 <= i < s.species@.len() ==> (#[trigger] s.species@[i]).representative.pt
                    is None),
            None => dec_solver(bytes@, pos as int) is None,
        },
{
    proof {
        reveal(dec_solver);
    }
    match read_usize(bytes, pos) {
        Some((n_nets, p1)) => match read_genomes(bytes, p1, n_nets) {
            Some((networks, p2)) => match read_usize(bytes, p2) {
                Some((s0, p3)) => match read_usize(bytes, p3) {
                    Some((s1, p4)) => match read_usize(bytes, p4) {
                        Some((gen_size, p5)) => match read_usize(bytes, p5) {
                            Some((generation, p6)) => match read_usize(bytes, p6) {
                                Some((n_species, p7)) => match read_species_seq(
                                    bytes,
                                    p7,
                                    n_species,
                                ) {
                                    Some((species, p8)) => match read_u32(bytes, p8) {
                                        Some((thr, p9)) => match read_u32(bytes, p9) {
                                            Some((c1, p10)) => match read_u32(bytes, p10) {
                                                Some((c2, p11)) => match read_u32(bytes, p11) {
                                                    Some((c3, p12)) => Some(
                                                        (
                                                            Solver {
                                                                networks,
                                                                network_size: (s0, s1),
                                                                generation_size: gen_size,
                                                                generation,
                                                                species,
                                                                distance_threshold: thr,
                                                                config: Config { c1, c2, c3 },
                                                            },
                                                            p12,
                                                        ),
                                                    ),
                                                    None => None,
                                                },
                                                None => None,
                                            },
                                            None => None,
                                        },
                                        None => None,
                                    },
                                    None => None,
                                },
                                None => None,
                            },
                            None => None,
                        },
                        None => None,
                    },
                    None => None,
                },
                None => None,
            },
            None => None,
        },
        None => None,
    }
}

/// Whether a solver is well formed, checked at load time.
fn solver_wf_check(s: &Solver) -> (r: bool)
    ensures
        r == solver_view_wf(s@),
{
    if s.networks.len() != s.generation_size || s.networks.len() == 0 {
        return false;
    }
    let mut i: usize = 0;
    while i < s.networks.len()
        invariant
            i <= s.networks@.len(),
            forall|j: int|
                0 <= j < i ==> {
                    &&& genome_wf((#[trigger] s@.networks[j]))
                    &&& s@.networks[j].id == j
                    &&& s@.networks[j].size == s.network_size
                    &&& s@.networks[j].edges.len() <= EDGE_BOUND
                },
        decreases s.networks@.len() - i,
    {
        if !genome_wf_check(&s.networks[i]) || s.networks[i].id != i || s.networks[i].size.0
            != s.network_size.0 || s.networks[i].size.1 != s.network_size.1 || s.networks[i].edges.len()
            > EDGE_BOUND {
            proof {
                assert(s@.networks[i as int] == s.networks@[i as int]@);
                assert(s.network_size == (s.network_size.0, s.network_size.1));
                assert(s@.networks[i as int].size == (s.networks@[i as int].size.0, s.networks@[
                i as int].size.1));
            }
            return false;
        }
        i = i + 1;
        proof {
            assert(s@.networks[i - 1] == s.networks@[i - 1]@);
            assert(s.network_size == (s.network_size.0, s.network_size.1));
            assert(s@.networks[i - 1].size == (s.networks@[i - 1].size.0, s.networks@[i
                - 1].size.1));
        }
    }
    let mut k: usize = 0;
    while k < s.species.len()
        invariant
            k <= s.species@.len(),
            forall|j: int|
                0 <= j < k ==> {
                    &&& genome_wf((#[trigger] s@.species[j]).representative)
                    &&& s@.species[j].representative.edges.len() <= EDGE_BOUND
                },
        decreases s.species@.len() - k,
    {
        if !genome_wf_check(&s.species[k].representative) || s.species[k].representative.edges.len()
            > EDGE_BOUND {
            proof {
                assert(s@.species[k as int] == s.species@[k as int]@);
            }
            return false;
        }
        k = k + 1;
        proof {
            assert(s@.species[k - 1] == s.species@[k - 1]@);
        }
    }
    true
}

impl Solver {
    /// Rebuild a solver from its encoded byte representation. Loading either
    /// fully succeeds, returning a well-formed solver with empty phenotype
    /// caches, or fails atomically with a decode error: on trailing bytes,
    /// on ill-formed words, and on a structure that no well-formed solver
    /// has.
    pub fn create_from_bytes(bytes: &Vec<u8>) -> (r: Result<Solver, NeatError>)
        ensures
            match r {
                Ok(s) => {
                    &&& dec_solver(bytes@, 0) == Some::<(SolverView, int)>(
                        (s@, bytes@.len() as int),
                    )
                    &&& s.wf()
                },
                Err(e) => {
                    &&& e == NeatError::DecodeError
                    &&& match dec_solver(bytes@, 0) {
                        Some((v, end)) => end != bytes@.len() || !solver_view_wf(v),
                        None => true,
                    }
                },
            },
    {
        match read_solver(bytes, 0) {
            Some((s, p)) => {
                if p != bytes.len() {
                    return Err(NeatError::DecodeError);
                }
                if !solver_wf_check(&s) {
                    return Err(NeatError::DecodeError);
                }
                proof {
                    assert forall|i: int| 0 <= i < s.networks@.len() implies (
                    #[trigger] s.networks@[i]).wf() && s.networks@[i].id == i
                        && s.networks@[i].size == s.network_size && s.networks@[i].edges@.len()
                        <= EDGE_BOUND by {
                        assert(s@.networks[i] == s.networks@[i]@);
                        assert(genome_wf(s.networks@[i]@));
                        assert(s@.networks[i].size == (s.networks@[i].size.0, s.networks@[
                        i].size.1));
                    }
                    assert forall|j: int| 0 <= j < s.species@.len() implies (
                    #[trigger] s.species@[j]).representative.wf_structure() && s.species@[
                    j].representative.edges@.len() <= EDGE_BOUND by {
                        assert(s@.species[j] == s.species@[j]@);
                    }
                }
                Ok(s)
            },
            None => Err(NeatError::DecodeError),
        }
    }
}

/// Persistence round trip for genomes: the bytes a well-formed network
/// stores (`as_byte_representation` ensures they decode to its data) decode
/// to exactly that data, fully consumed and well formed, so
/// `create_from_bytes` on them cannot fail and returns a network with the
/// same data.
pub proof fn lemma_genome_roundtrip(nn: NeuralNetwork, bytes: Seq<u8>)
    requires
        nn.wf_structure(),
        dec_genome(bytes, 0) == Some::<(GenomeView, int)>((nn@, bytes.len() as int)),
    ensures
        match dec_genome(bytes, 0) {
            Some((v, end)) => v == nn@ && end == bytes.len() && genome_wf(v),
            None => false,
        },
{
}

/// Persistence round trip for solvers: the bytes a well-formed solver stores
/// decode to exactly its data, fully consumed and well formed, so
/// `create_from_bytes` on them cannot fail and returns a solver with the
/// same data.
pub proof fn lemma_solver_roundtrip(sv: Solver, bytes: Seq<u8>)
    requires
        sv.wf(),
        dec_solver(bytes, 0) == Some::<(SolverView, int)>((sv@, bytes.len() as int)),
    ensures
        match dec_solver(bytes, 0) {
            Some((v, end)) => v == sv@ && end == bytes.len() && solver_view_wf(v),
            None => false,
        },
{
    assert forall|i: int| 0 <= i < sv@.networks.len() implies genome_wf(
        #[trigger] sv@.networks[i],
    ) && sv@.networks[i].id == i && sv@.networks[i].size == sv@.network_size
        && sv@.networks[i].edges.len() <= EDGE_BOUND by {
        assert(sv@.networks[i] == sv.networks@[i]@);
        assert(sv.networks@[i].wf());
    }
    assert forall|j: int| 0 <= j < sv@.species.len() implies genome_wf(
        (#[trigger] sv@.species[j]).representative,
    ) && sv@.species[j].representative.edges.len() <= EDGE_BOUND by {
        assert(sv@.species[j] == sv.species@[j]@);
    }
}

} // verus!
