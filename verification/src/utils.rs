//! Random graph generation: a simple undirected graph with a drawn number
//! of nodes, random payloads, and random distinct-endpoint edges.

use vstd::prelude::*;

use rand::Rng;

use crate::graph::Graph;

verus! {

/// Relies on rand's `Rng::gen_range` on a thread-local generator: a sample
/// from a nonempty half-open range lies in that range. Nothing more is
/// promised of the draw.
#[verifier::external_body]
fn gen_range_i32(lo: i32, hi: i32) -> (r: i32)
    requires
        lo < hi,
    ensures
        lo <= r < hi,
{
    rand::thread_rng().gen_range(lo..hi)
}

/// Build a random simple graph: the node count is drawn from
/// `min_nodes..max_nodes` (one less node than the draw is created, with
/// identifiers counted from zero), every node payload is drawn from
/// `min_node_data..max_node_data`, and twice the drawn count of edge
/// attempts are made, each joining two distinct nodes not yet connected,
/// with a weight drawn from `min_weight..max_weight`.
pub fn create_random_graph(
    min_nodes: i32,
    max_nodes: i32,
    min_weight: i32,
    max_weight: i32,
    min_node_data: i32,
    max_node_data: i32,
) -> (g: Graph<i32, i32>)
    requires
        3 <= min_nodes < max_nodes,
        max_nodes <= i32::MAX / 2,
        min_weight < max_weight,
        min_node_data < max_node_data,
    ensures
        g.wf(),
        g.has_node(0),
        forall|k: u64| #[trigger] g.has_node(k) ==> (k as int) < max_nodes - 2,
        forall|k1: u64, k2: u64| #[trigger] g.has_node(k1) && k2 < k1 ==> #[trigger] g.has_node(
            k2,
        ),
        forall|k: u64|
            #[trigger] g.has_node(k) ==> min_node_data <= g.nodes@[k].data < max_node_data,
        forall|e: u64|
            #[trigger] g.has_edge(e) ==> g.edges@[e].left != g.edges@[e].right && min_weight
                <= g.edges@[e].data < max_weight,
        forall|e1: u64, e2: u64|
            #![trigger g.edges@[e1], g.edges@[e2]]
            g.has_edge(e1) && g.has_edge(e2) && e1 != e2 ==> !g.edges@[e1].links(
                g.edges@[e2].left,
                g.edges@[e2].right,
            ),
{
    let mut g: Graph<i32, i32> = Graph::new();
    let nodes = gen_range_i32(min_nodes, max_nodes);
    let mut x: i32 = 0;
    while x < nodes - 1
        invariant
            0 <= x <= nodes - 1,
            3 <= nodes < max_nodes,
            min_node_data < max_node_data,
            g.wf(),
            g.edges@ == Map::<u64, crate::graph::Edge<i32>>::empty(),
            forall|k: u64| #[trigger] g.has_node(k) <==> (k as int) < x,
            forall|k: u64|
                #[trigger] g.has_node(k) ==> min_node_data <= g.nodes@[k].data < max_node_data,
        decreases nodes - x,
    {
        let data = gen_range_i32(min_node_data, max_node_data);
        let ghost g_before = g;
        g.add_node(x as u64, data);
        proof {
            assert forall|k: u64| #[trigger] g.has_node(k) <==> (k as int) < x + 1 by {
                if k != (x as u64) {
                    assert(g.nodes@.dom().contains(k) <==> g_before.nodes@.dom().contains(k));
                    assert(g_before.has_node(k) <==> g.has_node(k));
                } else {
                    assert(g.nodes@.dom().contains(k));
                }
            }
            assert forall|k: u64| #[trigger] g.has_node(k) implies min_node_data
                <= g.nodes@[k].data < max_node_data by {
                if k != (x as u64) {
                    assert(g_before.has_node(k));
                    assert(g.nodes@[k] == g_before.nodes@[k]);
                }
            }
        }
        x += 1;
    }
    let edges = 2 * nodes;
    let mut ix: i32 = 0;
    while ix < edges
        invariant
            0 <= ix <= edges,
            edges == 2 * nodes,
            3 <= nodes < max_nodes,
            min_weight < max_weight,
            g.wf(),
            forall|k: u64| #[trigger] g.has_node(k) <==> (k as int) < nodes - 1,
            forall|k: u64|
                #[trigger] g.has_node(k) ==> min_node_data <= g.nodes@[k].data < max_node_data,
            forall|e: u64|
                #[trigger] g.has_edge(e) ==> g.edges@[e].left != g.edges@[e].right && min_weight
                    <= g.edges@[e].data < max_weight,
            forall|e1: u64, e2: u64|
                #![trigger g.edges@[e1], g.edges@[e2]]
                g.has_edge(e1) && g.has_edge(e2) && e1 != e2 ==> !g.edges@[e1].links(
                    g.edges@[e2].left,
                    g.edges@[e2].right,
                ),
        decreases edges - ix,
    {
        let l = gen_range_i32(0, nodes - 1);
        // Draw the second endpoint from one fewer value and step over `l`,
        // so the pair is always distinct.
        let r0 = gen_range_i32(0, nodes - 2);
        let r = if r0 >= l {
            r0 + 1
        } else {
            r0
        };
        let w = gen_range_i32(min_weight, max_weight);
        let lu = l as u64;
        let ru = r as u64;
        if !g.connected(&lu, &ru) {
            let ghost g_before = g;
            let res = g.add_edge(ix as u64, lu, ru, w);
            proof {
                assert(res is Ok);
                assert forall|e1: u64, e2: u64|
                    #![trigger g.edges@[e1], g.edges@[e2]]
                    g.has_edge(e1) && g.has_edge(e2) && e1 != e2 implies !g.edges@[e1].links(
                    g.edges@[e2].left,
                    g.edges@[e2].right,
                ) by {
                    if e1 == ix as u64 || e2 == ix as u64 {
                        assert(!g_before.adjacent(lu, ru));
                        if e1 == ix as u64 && e2 != ix as u64 {
                            assert(g_before.edges@[e2] == g.edges@[e2]);
                            if g.edges@[e1].links(g.edges@[e2].left, g.edges@[e2].right) {
                                assert(g_before.edges@[e2].links(lu, ru));
                            }
                        }
                        if e2 == ix as u64 && e1 != ix as u64 {
                            assert(g_before.edges@[e1] == g.edges@[e1]);
                            if g.edges@[e1].links(g.edges@[e2].left, g.edges@[e2].right) {
                                assert(g_before.edges@[e1].links(lu, ru));
                            }
                        }
                    } else {
                        assert(g_before.edges@[e1] == g.edges@[e1]);
                        assert(g_before.edges@[e2] == g.edges@[e2]);
                    }
                }
                assert forall|k: u64| #[trigger] g.has_node(k) <==> (k as int) < nodes - 1 by {
                    assert(g.nodes@.dom().contains(k) <==> g_before.nodes@.dom().contains(k));
                    assert(g_before.has_node(k) <==> g.has_node(k));
                }
                assert forall|k: u64| #[trigger] g.has_node(k) implies min_node_data
                    <= g.nodes@[k].data < max_node_data by {
                    assert(g_before.has_node(k));
                }
                assert forall|e: u64| #[trigger] g.has_edge(e) implies g.edges@[e].left
                    != g.edges@[e].right && min_weight <= g.edges@[e].data < max_weight by {
                    if e != ix as u64 {
                        assert(g_before.edges@.dom().contains(e));
                        assert(g_before.has_edge(e));
                        assert(g.edges@[e] == g_before.edges@[e]);
                    }
                }
            }
        }
        ix += 1;
    }
    g
}

/// A fixed fixture: nodes 1 through 22, joined by a hand-picked set of
/// edges, with every payload zero.
pub fn test_graph() -> (g: Graph<i32, i32>)
    ensures
        g.wf(),
        forall|k: u64| #[trigger] g.has_node(k) <==> (1 <= k < 23),
{
    let mut g: Graph<i32, i32> = Graph::new();
    let mut n: u64 = 1;
    while n < 23
        invariant
            1 <= n <= 23,
            g.wf(),
            g.edges@ == Map::<u64, crate::graph::Edge<i32>>::empty(),
            forall|k: u64| #[trigger] g.has_node(k) <==> (1 <= k < n),
        decreases 23 - n,
    {
        let ghost g_before = g;
        g.add_node(n, 0);
        proof {
            assert forall|k: u64| #[trigger] g.has_node(k) <==> (1 <= k < n + 1) by {
                if k != n {
                    assert(g.nodes@.dom().contains(k) <==> g_before.nodes@.dom().contains(k));
                    assert(g_before.has_node(k) <==> g.has_node(k));
                } else {
                    assert(g.nodes@.dom().contains(k));
                }
            }
        }
        n += 1;
    }
    let mut triples: Vec<(u64, u64, u64)> = Vec::new();
    triples.push((1, 1, 2));
    triples.push((2, 11, 3));
    triples.push((3, 15, 11));
    triples.push((4, 15, 1));
    triples.push((5, 15, 19));
    triples.push((6, 16, 1));
    triples.push((7, 16, 14));
    triples.push((8, 17, 16));
    triples.push((10, 17, 19));
    triples.push((11, 19, 22));
    triples.push((12, 19, 18));
    triples.push((13, 17, 18));
    triples.push((14, 17, 20));
    triples.push((15, 18, 22));
    triples.push((16, 18, 20));
    triples.push((17, 20, 21));
    triples.push((18, 20, 13));
    triples.push((19, 22, 21));
    triples.push((20, 21, 7));
    triples.push((21, 13, 14));
    triples.push((22, 22, 12));
    triples.push((23, 12, 6));
    triples.push((24, 8, 9));
    triples.push((25, 13, 8));
    triples.push((26, 7, 8));
    triples.push((27, 7, 6));
    triples.push((28, 6, 5));
    triples.push((29, 10, 9));
    triples.push((30, 10, 2));
    triples.push((31, 4, 9));
    triples.push((32, 3, 5));
    triples.push((33, 4, 5));
    triples.push((34, 2, 4));
    triples.push((35, 2, 3));
    triples.push((36, 10, 4));
    triples.push((37, 14, 10));
    triples.push((38, 11, 12));
    let mut i: usize = 0;
    while i < triples.len()
        invariant
            i <= triples@.len(),
            g.wf(),
            forall|k: u64| #[trigger] g.has_node(k) <==> (1 <= k < 23),
        decreases triples@.len() - i,
    {
        let (eid, l, r) = triples[i];
        let ghost g_before = g;
        let _ = g.add_edge(eid, l, r, 0);
        proof {
            assert forall|k: u64| #[trigger] g.has_node(k) <==> (1 <= k < 23) by {
                assert(g.nodes@.dom().contains(k) <==> g_before.nodes@.dom().contains(k));
                assert(g_before.has_node(k) <==> g.has_node(k));
            }
        }
        i += 1;
    }
    g
}

} // verus!
