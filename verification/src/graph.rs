//! The graph store: nodes and edges keyed by `u64` identifiers, with
//! neighbor lookup, a connectivity test and validated edge insertion.

use vstd::prelude::*;

use std::collections::HashMap;
use std::collections::HashSet;

verus! {

broadcast use vstd::std_specs::hash::group_hash_axioms;

/// A node: identifier, caller-supplied payload, and the identifiers of the
/// edges incident to it.
#[derive(Debug)]
pub struct Node<T> {
    pub id: u64,
    pub data: T,
    pub edges: Vec<u64>,
}

/// An undirected edge between the nodes `left` and `right`, carrying a
/// caller-supplied payload. Which endpoint is stored first carries no
/// meaning: all queries treat the pair symmetrically.
#[derive(Debug)]
pub struct Edge<E> {
    pub id: u64,
    pub data: E,
    pub left: u64,
    pub right: u64,
}

/// The reason a graph operation failed.
#[derive(Clone, Copy, Debug, PartialEq, Eq, Structural)]
pub enum GraphErrorKind {
    /// The `from` endpoint handed to `add_edge`, or the start of a path
    /// query, is not a node of the graph.
    MissingFrom,
    /// The `to` endpoint handed to `add_edge`, or the end of a path query,
    /// is not a node of the graph.
    MissingTo,
    /// The node a query was asked about is not in the graph.
    NodeNotFound,
    /// Both endpoints of a path query exist, but no path connects them.
    Unreachable,
}

/// An error value returned by the graph operations: a kind that callers can
/// inspect, and a human-readable message.
#[derive(Debug)]
pub struct GraphError {
    pub kind: GraphErrorKind,
    pub message: String,
}

impl GraphError {
    pub fn new(kind: GraphErrorKind, m: &str) -> (r: Self)
        ensures
            r.kind == kind,
            r.message@ == m@,
    {
        GraphError { kind, message: m.to_owned() }
    }

    /// A copy of the message text.
    pub fn message(&self) -> (r: String)
        ensures
            r@ == self.message@,
    {
        self.message.as_str().to_owned()
    }
}

/// Payloads that can report an integer weight.
pub trait Weighted {
    fn weight(&self) -> i32;
}

impl Weighted for i32 {
    fn weight(&self) -> (w: i32)
        ensures
            w == *self,
    {
        *self
    }
}

impl<E> Edge<E> {
    /// Does this edge have `n` as one of its endpoints?
    pub open spec fn touches(self, n: u64) -> bool {
        self.left == n || self.right == n
    }

    /// Does this edge join `a` and `b` (in either orientation)?
    pub open spec fn links(self, a: u64, b: u64) -> bool {
        (self.left == a && self.right == b) || (self.left == b && self.right == a)
    }

    pub fn new(id: u64, data: E, l: u64, r: u64) -> (e: Self)
        ensures
            e.id == id,
            e.data == data,
            e.left == l,
            e.right == r,
    {
        Self { id, data, left: l, right: r }
    }
}

impl<T> Node<T> {
    pub fn new(id: u64, data: T) -> (n: Self)
        ensures
            n.id == id,
            n.data == data,
            n.edges@ == Seq::<u64>::empty(),
    {
        Self { data, id, edges: Vec::new() }
    }
}

/// An undirected graph. Nodes and edges are owned by the graph and addressed
/// by `u64` identifiers; the node and edge identifier namespaces are
/// independent. The insertion order of identifiers is kept so that the graph
/// can be enumerated deterministically.
#[derive(Debug)]
pub struct Graph<T, E> {
    pub nodes: HashMap<u64, Node<T>>,
    pub edges: HashMap<u64, Edge<E>>,
    pub node_order: Vec<u64>,
    pub edge_order: Vec<u64>,
}

impl<T, E> Graph<T, E> {
    /// Is `n` a node of the graph?
    pub open spec fn has_node(self, n: u64) -> bool {
        self.nodes@.contains_key(n)
    }

    /// Is `e` an edge of the graph?
    pub open spec fn has_edge(self, e: u64) -> bool {
        self.edges@.contains_key(e)
    }

    /// Some edge of the graph joins `a` and `b`.
    pub open spec fn adjacent(self, a: u64, b: u64) -> bool {
        exists|e: u64| self.has_edge(e) && (#[trigger] self.edges@[e]).links(a, b)
    }

    /// The neighbor set of `n`: every node joined to `n` by some edge,
    /// except `n` itself (a self-loop never makes a node its own neighbor).
    pub open spec fn nbrs(self, n: u64) -> Set<u64> {
        Set::new(|v: u64| v != n && self.adjacent(n, v))
    }

    /// The incident-edge list of node `n` holds exactly the identifiers of
    /// the edges that have `n` as an endpoint, each once.
    pub open spec fn incident_list_ok(self, n: u64) -> bool {
        let lst = self.nodes@[n].edges@;
        &&& lst.no_duplicates()
        &&& (forall|e: u64|
            #[trigger] lst.contains(e) ==> self.has_edge(e) && self.edges@[e].touches(n))
        &&& (forall|e: u64|
            self.has_edge(e) && (#[trigger] self.edges@[e]).touches(n) ==> lst.contains(e))
    }

    /// Well-formedness: the order lists enumerate the key sets without
    /// duplicates, records carry their own key, every edge endpoint is a
    /// node, and every incident-edge list is exact.
    pub open spec fn wf(self) -> bool {
        &&& self.node_order@.no_duplicates()
        &&& self.node_order@.to_set() == self.nodes@.dom()
        &&& self.edge_order@.no_duplicates()
        &&& self.edge_order@.to_set() == self.edges@.dom()
        &&& (forall|n: u64| self.has_node(n) ==> (#[trigger] self.nodes@[n]).id == n)
        &&& (forall|e: u64| self.has_edge(e) ==> (#[trigger] self.edges@[e]).id == e)
        &&& (forall|e: u64|
            self.has_edge(e) ==> self.has_node((#[trigger] self.edges@[e]).left) && self.has_node(
                self.edges@[e].right,
            ))
        &&& (forall|n: u64| self.has_node(n) ==> self.incident_list_ok(n))
    }

    /// An empty graph.
    pub fn new() -> (g: Self)
        ensures
            g.wf(),
            g.nodes@ == Map::<u64, Node<T>>::empty(),
            g.edges@ == Map::<u64, Edge<E>>::empty(),
    {
        let g = Self {
            nodes: HashMap::new(),
            edges: HashMap::new(),
            node_order: Vec::new(),
            edge_order: Vec::new(),
        };
        proof {
            assert(g.node_order@.to_set() =~= g.nodes@.dom());
            assert(g.edge_order@.to_set() =~= g.edges@.dom());
        }
        g
    }

    /// Insert a node. If the identifier is already present the call is a
    /// no-op: the existing node keeps its payload and its edges.
    pub fn add_node(&mut self, id: u64, data: T)
        requires
            old(self).wf(),
        ensures
            final(self).wf(),
            final(self).edges@ == old(self).edges@,
            old(self).has_node(id) ==> *final(self) == *old(self),
            !old(self).has_node(id) ==> {
                &&& final(self).nodes@.dom() == old(self).nodes@.dom().insert(id)
                &&& (forall|k: u64|
                    k != id && old(self).has_node(k) ==> final(self).nodes@[k] == old(
                        self,
                    ).nodes@[k])
                &&& final(self).nodes@[id].id == id
                &&& final(self).nodes@[id].data == data
                &&& final(self).nodes@[id].edges@ == Seq::<u64>::empty()
            },
    {
        if !self.nodes.contains_key(&id) {
            let node = Node::new(id, data);
            self.nodes.insert(id, node);
            self.node_order.push(id);
            proof {
                broadcast use vstd::seq_lib::group_seq_properties;

                assert(self.node_order@ == old(self).node_order@.push(id));
                assert(self.node_order@.to_set() =~= self.nodes@.dom());
                assert(self.nodes@.dom() =~= old(self).nodes@.dom().insert(id));
                assert(old(self).node_order@.to_set() == old(self).nodes@.dom());
                assert(!old(self).node_order@.contains(id));
                assert forall|n: u64| self.has_node(n) implies self.incident_list_ok(n) by {
                    if n != id {
                        assert(old(self).incident_list_ok(n));
                        assert(self.nodes@[n] == old(self).nodes@[n]);
                    } else {
                        assert(self.nodes@[id].edges@.len() == 0);
                    }
                }
            }
        }
    }

    /// Insert an undirected edge between two existing nodes, keyed by
    /// `edge_id`. Both endpoints are validated first: if one is absent the
    /// call fails with an error naming the missing side and the graph is
    /// left unchanged. On success the edge record is stored (an edge that
    /// already used `edge_id` is replaced, and unlinked from its former
    /// endpoints) and `edge_id` is listed once with each distinct endpoint.
    pub fn add_edge(&mut self, edge_id: u64, from: u64, to: u64, edge_data: E) -> (r: Result<
        (),
        GraphError,
    >)
        requires
            old(self).wf(),
        ensures
            final(self).wf(),
            r is Ok <==> old(self).has_node(from) && old(self).has_node(to),
            match r {
                Ok(_) => {
                    &&& final(self).edges@ == old(self).edges@.insert(
                        edge_id,
                        (Edge { id: edge_id, data: edge_data, left: from, right: to }),
                    )
                    &&& final(self).nodes@.dom() == old(self).nodes@.dom()
                    &&& (forall|k: u64|
                        old(self).has_node(k) ==> (#[trigger] final(self).nodes@[k]).data == old(
                            self,
                        ).nodes@[k].data && final(self).nodes@[k].id == old(self).nodes@[k].id)
                },
                Err(e) => {
                    &&& *final(self) == *old(self)
                    &&& (e.kind == GraphErrorKind::MissingFrom <==> !old(self).has_node(from))
                    &&& (e.kind == GraphErrorKind::MissingTo <==> old(self).has_node(from)
                        && !old(self).has_node(to))
                },
            },
    {
        if !self.nodes.contains_key(&from) {
            return Err(GraphError::new(GraphErrorKind::MissingFrom, "'from' not in nodes."));
        }
        if !self.nodes.contains_key(&to) {
            return Err(GraphError::new(GraphErrorKind::MissingTo, "'to' not in nodes."));
        }
        let ghost g0 = *self;
        let ghost replaced = g0.has_edge(edge_id);
        let ghost ol = if replaced {
            g0.edges@[edge_id].left
        } else {
            0u64
        };
        let ghost orr = if replaced {
            g0.edges@[edge_id].right
        } else {
            0u64
        };
        if self.edges.contains_key(&edge_id) {
            // Replacing an existing edge: unlink its identifier from the
            // incident lists of its former endpoints.
            let (old_left, old_right) = {
                let e = self.edges.get(&edge_id).unwrap();
                (e.left, e.right)
            };
            let mut n = self.nodes.remove(&old_left).unwrap();
            n.edges = without_value(&n.edges, edge_id);
            self.nodes.insert(old_left, n);
            if old_right != old_left {
                let mut n2 = self.nodes.remove(&old_right).unwrap();
                n2.edges = without_value(&n2.edges, edge_id);
                self.nodes.insert(old_right, n2);
            }
        } else {
            proof {
                assert(!g0.edge_order@.contains(edge_id)) by {
                    if g0.edge_order@.contains(edge_id) {
                        assert(g0.edge_order@.to_set().contains(edge_id));
                    }
                }
                lemma_push_no_duplicates(g0.edge_order@, edge_id);
            }
            self.edge_order.push(edge_id);
        }
        let ghost mid = *self;
        proof {
            assert(mid.edges@ == g0.edges@);
            assert(mid.nodes@.dom() =~= g0.nodes@.dom());
            assert forall|n: u64|
                g0.nodes@.contains_key(n) implies relates_detached(
                g0,
                mid,
                n,
                edge_id,
                replaced,
                ol,
                orr,
            ) by {
                assert(g0.incident_list_ok(n));
                if !(replaced && (n == ol || n == orr))  {
                    assert(mid.nodes@[n] == g0.nodes@[n]);
                    if mid.nodes@[n].edges@.contains(edge_id) {
                        assert(g0.edges@[edge_id].touches(n));
                    }
                }
            }
        }
        let edge = Edge::new(edge_id, edge_data, from, to);
        self.edges.insert(edge_id, edge);

        let mut nf = self.nodes.remove(&from).unwrap();
        nf.edges.push(edge_id);
        self.nodes.insert(from, nf);
        if to != from {
            let mut nt = self.nodes.remove(&to).unwrap();
            nt.edges.push(edge_id);
            self.nodes.insert(to, nt);
        }
        proof {
            broadcast use vstd::seq_lib::group_seq_properties;

            let new_edge = Edge { id: edge_id, data: edge_data, left: from, right: to };
            assert(self.edges@ =~= g0.edges@.insert(edge_id, new_edge));
            assert(self.nodes@.dom() =~= g0.nodes@.dom());
            assert(self.nodes@[from].edges@ == mid.nodes@[from].edges@.push(edge_id));
            if to != from {
                assert(self.nodes@[to].edges@ == mid.nodes@[to].edges@.push(edge_id));
            }
            if replaced {
                assert(self.edge_order@ == g0.edge_order@);
                assert(self.edge_order@.to_set() =~= self.edges@.dom());
            } else {
                assert(self.edge_order@ == g0.edge_order@.push(edge_id));
                g0.edge_order@.lemma_push_to_set_commute(edge_id);
                assert(self.edge_order@.to_set() =~= self.edges@.dom());
            }
            assert forall|n: u64| self.has_node(n) implies self.incident_list_ok(n) by {
                assert(relates_detached(g0, mid, n, edge_id, replaced, ol, orr));
                assert(g0.incident_list_ok(n));
                let base = mid.nodes@[n].edges@;
                if n == from || n == to {
                    let lst = self.nodes@[n].edges@;
                    assert(lst == base.push(edge_id));
                    lemma_push_no_duplicates(base, edge_id);
                    assert forall|e: u64| #[trigger] lst.contains(e) implies self.has_edge(e)
                        && self.edges@[e].touches(n) by {
                        if e != edge_id {
                            assert(base.contains(e));
                            assert(g0.nodes@[n].edges@.contains(e));
                        }
                    }
                    assert forall|e: u64|
                        self.has_edge(e) && (#[trigger] self.edges@[e]).touches(
                            n,
                        ) implies lst.contains(e) by {
                        if e == edge_id {
                            assert(lst[lst.len() - 1] == edge_id);
                        } else {
                            assert(g0.edges@[e].touches(n));
                            assert(g0.nodes@[n].edges@.contains(e));
                            assert(base.contains(e));
                        }
                    }
                } else {
                    let lst = self.nodes@[n].edges@;
                    assert(self.nodes@[n] == mid.nodes@[n]);
                    assert forall|e: u64| #[trigger] lst.contains(e) implies self.has_edge(e)
                        && self.edges@[e].touches(n) by {
                        assert(g0.nodes@[n].edges@.contains(e));
                        assert(e != edge_id);
                    }
                    assert forall|e: u64|
                        self.has_edge(e) && (#[trigger] self.edges@[e]).touches(
                            n,
                        ) implies lst.contains(e) by {
                        assert(e != edge_id);
                        assert(g0.edges@[e].touches(n));
                        assert(g0.nodes@[n].edges@.contains(e));
                    }
                }
            }
        }
        Ok(())
    }

    /// Scan all edges: true exactly when some edge joins `first` and
    /// `second`, in either orientation.
    pub fn connected(&self, first: &u64, second: &u64) -> (r: bool)
        requires
            self.wf(),
        ensures
            r == self.adjacent(*first, *second),
    {
        let mut i: usize = 0;
        while i < self.edge_order.len()
            invariant
                self.wf(),
                i <= self.edge_order.len(),
                forall|j: int|
                    0 <= j < i ==> !self.edges@[#[trigger] self.edge_order@[j]].links(
                        *first,
                        *second,
                    ),
            decreases self.edge_order.len() - i,
        {
            let eid = self.edge_order[i];
            proof {
                assert(self.edge_order@.to_set().contains(eid));
            }
            let e = self.edges.get(&eid).unwrap();
            if (e.left == *first && e.right == *second) || (e.right == *first && e.left
                == *second) {
                return true;
            }
            i += 1;
        }
        proof {
            if self.adjacent(*first, *second) {
                let e = choose|e: u64|
                    self.has_edge(e) && (#[trigger] self.edges@[e]).links(*first, *second);
                assert(self.edge_order@.to_set().contains(e));
                assert(self.edge_order@.contains(e));
                let j = choose|j: int|
                    0 <= j < self.edge_order@.len() && self.edge_order@[j] == e;
                assert(!self.edges@[self.edge_order@[j]].links(*first, *second));
                assert(false);
            }
        }
        false
    }

    /// The neighbor set of `id`: for every incident edge both endpoints are
    /// collected, and `id` itself is then removed, so a self-loop never
    /// reports the node as its own neighbor. Fails when `id` is not a node.
    pub fn neighbors(&self, id: u64) -> (r: Result<HashSet<u64>, GraphError>)
        requires
            self.wf(),
        ensures
            match r {
                Ok(s) => self.has_node(id) && s@ == self.nbrs(id),
                Err(e) => !self.has_node(id) && e.kind == GraphErrorKind::NodeNotFound,
            },
    {
        match self.nodes.get(&id) {
            None => Err(
                GraphError::new(GraphErrorKind::NodeNotFound, "Supplied node id is not in graph."),
            ),
            Some(node) => {
                let mut neighs: HashSet<u64> = HashSet::new();
                let n_edges = node.edges.len();
                let mut i: usize = 0;
                while i < n_edges
                    invariant
                        self.wf(),
                        self.has_node(id),
                        *node == self.nodes@[id],
                        n_edges == node.edges@.len(),
                        i <= n_edges,
                        forall|v: u64|
                            #[trigger] neighs@.contains(v) <==> exists|j: int|
                                0 <= j < i && (#[trigger] self.edges@[node.edges@[j]]).touches(v),
                    decreases n_edges - i,
                {
                    let eid = node.edges[i];
                    proof {
                        assert(node.edges@.contains(eid)) by {
                            assert(node.edges@[i as int] == eid);
                        }
                    }
                    let e = self.edges.get(&eid).unwrap();
                    let l = e.left;
                    let rgt = e.right;
                    neighs.insert(l);
                    neighs.insert(rgt);
                    proof {
                        assert forall|v: u64| #[trigger] neighs@.contains(v) implies exists|j: int|
                            0 <= j < i + 1 && (#[trigger] self.edges@[node.edges@[j]]).touches(
                                v,
                            ) by {
                            if v == l || v == rgt {
                                assert(self.edges@[node.edges@[i as int]].touches(v));
                            }
                        }
                        assert forall|v: u64|
                            (exists|j: int|
                                0 <= j < i + 1 && (#[trigger] self.edges@[node.edges@[j]]).touches(
                                    v,
                                )) implies neighs@.contains(v) by {
                            let j = choose|j: int|
                                0 <= j < i + 1 && (#[trigger] self.edges@[node.edges@[j]]).touches(
                                    v,
                                );
                            if j == i {
                                assert(v == l || v == rgt);
                            }
                        }
                    }
                    i += 1;
                }
                neighs.remove(&id);
                proof {
                    assert forall|v: u64| #[trigger] neighs@.contains(v) implies self.nbrs(
                        id,
                    ).contains(v) by {
                        let j = choose|j: int|
                            0 <= j < node.edges@.len() && (#[trigger] self.edges@[node.edges@[j]]).touches(
                                v,
                            );
                        let e = node.edges@[j];
                        assert(node.edges@.contains(e));
                        assert(self.has_edge(e) && self.edges@[e].touches(id));
                        assert(self.edges@[e].links(id, v));
                    }
                    assert forall|v: u64| self.nbrs(id).contains(v) implies neighs@.contains(
                        v,
                    ) by {
                        let e = choose|e: u64|
                            self.has_edge(e) && (#[trigger] self.edges@[e]).links(id, v);
                        assert(self.edges@[e].touches(id));
                        assert(node.edges@.contains(e));
                        let j = choose|j: int|
                            0 <= j < node.edges@.len() && node.edges@[j] == e;
                        assert(self.edges@[node.edges@[j]].touches(v));
                    }
                    assert(neighs@ =~= self.nbrs(id));
                }
                Ok(neighs)
            },
        }
    }

    /// Replace every node's payload by `f` applied to the old payload.
    /// Identifiers and topology are untouched; every node is visited
    /// exactly once, in no promised order.
    pub fn apply_to_nodes<F: Fn(&T) -> T>(&mut self, f: F)
        requires
            old(self).wf(),
            forall|t: &T| #[trigger] f.requires((t,)),
        ensures
            final(self).wf(),
            final(self).edges@ == old(self).edges@,
            final(self).nodes@.dom() == old(self).nodes@.dom(),
            forall|k: u64|
                #[trigger] old(self).nodes@.contains_key(k) ==> {
                    &&& final(self).nodes@[k].id == old(self).nodes@[k].id
                    &&& final(self).nodes@[k].edges@ == old(self).nodes@[k].edges@
                    &&& f.ensures((&old(self).nodes@[k].data,), final(self).nodes@[k].data)
                },
    {
        let ghost g0 = *self;
        let n = self.node_order.len();
        let mut i: usize = 0;
        while i < n
            invariant
                old(self).wf(),
                forall|t: &T| #[trigger] f.requires((t,)),
                g0 == *old(self),
                i <= n,
                n == g0.node_order@.len(),
                self.node_order@ == g0.node_order@,
                self.edge_order@ == g0.edge_order@,
                self.edges@ == g0.edges@,
                self.nodes@.dom() == g0.nodes@.dom(),
                forall|j: int|
                    #![trigger g0.node_order@[j]]
                    0 <= j < i ==> {
                        let k = g0.node_order@[j];
                        &&& self.nodes@[k].id == g0.nodes@[k].id
                        &&& self.nodes@[k].edges@ == g0.nodes@[k].edges@
                        &&& f.ensures((&g0.nodes@[k].data,), self.nodes@[k].data)
                    },
                forall|j: int|
                    #![trigger g0.node_order@[j]]
                    i <= j < n ==> self.nodes@[g0.node_order@[j]] == g0.nodes@[g0.node_order@[j]],
            decreases n - i,
        {
            let id = self.node_order[i];
            proof {
                assert(g0.node_order@.to_set().contains(id));
            }
            let mut node = self.nodes.remove(&id).unwrap();
            let d2 = f(&node.data);
            node.data = d2;
            self.nodes.insert(id, node);
            proof {
                assert(self.nodes@.dom() =~= g0.nodes@.dom());
                assert forall|j: int| #![trigger g0.node_order@[j]] 0 <= j < n && j
                    != i implies g0.node_order@[j] != id by {
                    assert(g0.node_order@.no_duplicates());
                    assert(g0.node_order@[i as int] == id);
                }
            }
            i += 1;
        }
        proof {
            assert forall|k: u64| #[trigger] g0.nodes@.contains_key(k) implies {
                &&& self.nodes@[k].id == g0.nodes@[k].id
                &&& self.nodes@[k].edges@ == g0.nodes@[k].edges@
                &&& f.ensures((&g0.nodes@[k].data,), self.nodes@[k].data)
            } by {
                assert(g0.node_order@.to_set().contains(k));
                assert(g0.node_order@.contains(k));
                let j = choose|j: int| 0 <= j < g0.node_order@.len() && g0.node_order@[j] == k;
                assert(g0.node_order@[j] == k);
            }
            assert(self.node_order@.to_set() =~= self.nodes@.dom());
            assert forall|m: u64| self.has_node(m) implies self.incident_list_ok(m) by {
                assert(g0.nodes@.contains_key(m));
                assert(g0.incident_list_ok(m));
                assert(self.nodes@[m].edges@ == g0.nodes@[m].edges@);
            }
        }
    }

    /// Replace every edge's payload by `f` applied to the old payload.
    /// Identifiers and endpoints are untouched; every edge is visited
    /// exactly once, in no promised order.
    pub fn apply_to_edges<F: Fn(&E) -> E>(&mut self, f: F)
        requires
            old(self).wf(),
            forall|t: &E| #[trigger] f.requires((t,)),
        ensures
            final(self).wf(),
            final(self).nodes@ == old(self).nodes@,
            final(self).edges@.dom() == old(self).edges@.dom(),
            forall|k: u64|
                #[trigger] old(self).edges@.contains_key(k) ==> {
                    &&& final(self).edges@[k].id == old(self).edges@[k].id
                    &&& final(self).edges@[k].left == old(self).edges@[k].left
                    &&& final(self).edges@[k].right == old(self).edges@[k].right
                    &&& f.ensures((&old(self).edges@[k].data,), final(self).edges@[k].data)
                },
    {
        let ghost g0 = *self;
        let n = self.edge_order.len();
        let mut i: usize = 0;
        while i < n
            invariant
                old(self).wf(),
                forall|t: &E| #[trigger] f.requires((t,)),
                g0 == *old(self),
                i <= n,
                n == g0.edge_order@.len(),
                self.node_order@ == g0.node_order@,
                self.edge_order@ == g0.edge_order@,
                self.nodes@ == g0.nodes@,
                self.edges@.dom() == g0.edges@.dom(),
                forall|j: int|
                    #![trigger g0.edge_order@[j]]
                    0 <= j < i ==> {
                        let k = g0.edge_order@[j];
                        &&& self.edges@[k].id == g0.edges@[k].id
                        &&& self.edges@[k].left == g0.edges@[k].left
                        &&& self.edges@[k].right == g0.edges@[k].right
                        &&& f.ensures((&g0.edges@[k].data,), self.edges@[k].data)
                    },
                forall|j: int|
                    #![trigger g0.edge_order@[j]]
                    i <= j < n ==> self.edges@[g0.edge_order@[j]] == g0.edges@[g0.edge_order@[j]],
            decreases n - i,
        {
            let id = self.edge_order[i];
            proof {
                assert(g0.edge_order@.to_set().contains(id));
            }
            let mut edge = self.edges.remove(&id).unwrap();
            let d2 = f(&edge.data);
            edge.data = d2;
            self.edges.insert(id, edge);
            proof {
                assert(self.edges@.dom() =~= g0.edges@.dom());
                assert forall|j: int| #![trigger g0.edge_order@[j]] 0 <= j < n && j
                    != i implies g0.edge_order@[j] != id by {
                    assert(g0.edge_order@.no_duplicates());
                    assert(g0.edge_order@[i as int] == id);
                }
            }
            i += 1;
        }
        proof {
            assert forall|k: u64| #[trigger] g0.edges@.contains_key(k) implies {
                &&& self.edges@[k].id == g0.edges@[k].id
                &&& self.edges@[k].left == g0.edges@[k].left
                &&& self.edges@[k].right == g0.edges@[k].right
                &&& f.ensures((&g0.edges@[k].data,), self.edges@[k].data)
            } by {
                assert(g0.edge_order@.to_set().contains(k));
                assert(g0.edge_order@.contains(k));
                let j = choose|j: int| 0 <= j < g0.edge_order@.len() && g0.edge_order@[j] == k;
                assert(g0.edge_order@[j] == k);
            }
            assert(self.edge_order@.to_set() =~= self.edges@.dom());
            assert forall|m: u64| self.has_node(m) implies self.incident_list_ok(m) by {
                assert(g0.incident_list_ok(m));
                assert forall|e: u64|
                    #[trigger] self.nodes@[m].edges@.contains(e) implies self.has_edge(e)
                    && self.edges@[e].touches(m) by {
                    assert(g0.has_edge(e) && g0.edges@[e].touches(m));
                }
                assert forall|e: u64|
                    self.has_edge(e) && (#[trigger] self.edges@[e]).touches(
                        m,
                    ) implies self.nodes@[m].edges@.contains(e) by {
                    assert(g0.edges@[e].touches(m));
                }
            }
        }
    }

    /// The node identifiers, in insertion order, each exactly once.
    pub fn node_ids(&self) -> (r: Vec<u64>)
        requires
            self.wf(),
        ensures
            r@ == self.node_order@,
            r@.to_set() == self.nodes@.dom(),
            r@.no_duplicates(),
    {
        copy_ids(&self.node_order)
    }

    /// The edge identifiers, in insertion order, each exactly once.
    pub fn edge_ids(&self) -> (r: Vec<u64>)
        requires
            self.wf(),
        ensures
            r@ == self.edge_order@,
            r@.to_set() == self.edges@.dom(),
            r@.no_duplicates(),
    {
        copy_ids(&self.edge_order)
    }

    /// The payload of node `id`, if the node exists.
    pub fn node_data(&self, id: u64) -> (r: Option<&T>)
        requires
            self.wf(),
        ensures
            match r {
                Some(d) => self.has_node(id) && *d == self.nodes@[id].data,
                None => !self.has_node(id),
            },
    {
        match self.nodes.get(&id) {
            Some(n) => Some(&n.data),
            None => None,
        }
    }

    /// The payload of edge `id`, if the edge exists.
    pub fn edge_data(&self, id: u64) -> (r: Option<&E>)
        requires
            self.wf(),
        ensures
            match r {
                Some(d) => self.has_edge(id) && *d == self.edges@[id].data,
                None => !self.has_edge(id),
            },
    {
        match self.edges.get(&id) {
            Some(e) => Some(&e.data),
            None => None,
        }
    }

    /// The node identifiers in ascending order: the stable iteration order
    /// that deterministic passes over the graph (such as a layout run)
    /// should use.
    pub fn sorted_node_ids(&self) -> (r: Vec<u64>)
        requires
            self.wf(),
        ensures
            r@.to_set() == self.nodes@.dom(),
            r@.no_duplicates(),
            forall|i: int, j: int| 0 <= i <= j < r@.len() ==> r@[i] <= r@[j],
    {
        let r = sorted_ids(&self.node_order);
        proof {
            broadcast use vstd::seq_lib::group_seq_properties;

            self.node_order@.lemma_multiset_has_no_duplicates();
            assert forall|x: u64|
                self.node_order@.to_multiset().contains(x) implies self.node_order@.to_multiset().count(
                x,
            ) == 1 by {}
            r@.lemma_multiset_has_no_duplicates_conv();
            assert forall|x: u64| r@.contains(x) <==> self.node_order@.contains(x) by {
                assert(r@.contains(x) <==> r@.to_multiset().count(x) > 0);
                assert(self.node_order@.contains(x) <==> self.node_order@.to_multiset().count(x)
                    > 0);
            }
            assert(r@.to_set() =~= self.nodes@.dom());
        }
        r
    }

    /// Law: the connectivity test is symmetric. For every graph and every
    /// pair of identifiers, `a` is adjacent to `b` exactly when `b` is
    /// adjacent to `a`.
    pub proof fn lemma_connected_symmetric(self, a: u64, b: u64)
        ensures
            self.adjacent(a, b) == self.adjacent(b, a),
    {
        if self.adjacent(a, b) {
            let e = choose|e: u64| self.has_edge(e) && (#[trigger] self.edges@[e]).links(a, b);
            assert(self.edges@[e].links(b, a));
        }
        if self.adjacent(b, a) {
            let e = choose|e: u64| self.has_edge(e) && (#[trigger] self.edges@[e]).links(b, a);
            assert(self.edges@[e].links(a, b));
        }
    }

    /// Law: a node is never its own neighbor, even when a self-loop edge is
    /// present.
    pub proof fn lemma_never_own_neighbor(self, n: u64)
        ensures
            !self.nbrs(n).contains(n),
    {
    }

    /// Law: an edge joining two distinct nodes makes each a neighbor of the
    /// other. (A self-loop is the one exception: by the previous law a node
    /// never appears in its own neighbor set.)
    pub proof fn lemma_edge_makes_neighbors(self, e: u64, u: u64, v: u64)
        requires
            self.has_edge(e),
            self.edges@[e].links(u, v),
            u != v,
        ensures
            self.nbrs(u).contains(v),
            self.nbrs(v).contains(u),
    {
        assert(self.edges@[e].links(v, u));
    }
}

/// After the unlink phase of `add_edge`: node `n`'s record in `mid` keeps
/// its identity and payload from `g0`, its incident list no longer holds
/// `edge_id`, and it holds every other identifier exactly as before.
spec fn relates_detached<T, E>(
    g0: Graph<T, E>,
    mid: Graph<T, E>,
    n: u64,
    edge_id: u64,
    replaced: bool,
    ol: u64,
    orr: u64,
) -> bool {
    g0.nodes@.contains_key(n) ==> {
        let b = g0.nodes@[n].edges@;
        let m = mid.nodes@[n].edges@;
        &&& m.no_duplicates()
        &&& mid.nodes@[n].data == g0.nodes@[n].data
        &&& mid.nodes@[n].id == g0.nodes@[n].id
        &&& !m.contains(edge_id)
        &&& (forall|y: u64| y != edge_id ==> (m.contains(y) <==> b.contains(y)))
    }
}

proof fn lemma_push_no_duplicates(s: Seq<u64>, e: u64)
    requires
        s.no_duplicates(),
        !s.contains(e),
    ensures
        s.push(e).no_duplicates(),
{
    let t = s.push(e);
    assert forall|i: int, j: int| 0 <= i < t.len() && 0 <= j < t.len() && i != j implies t[i]
        != t[j] by {
        if i < s.len() && j < s.len() {
            assert(s[i] == t[i] && s[j] == t[j]);
        } else if i < s.len() {
            assert(s.contains(s[i]));
        } else {
            assert(s.contains(s[j]));
        }
    }
}

/// An element-for-element copy of an identifier list.
fn copy_ids(v: &Vec<u64>) -> (r: Vec<u64>)
    ensures
        r@ == v@,
{
    let mut r: Vec<u64> = Vec::new();
    let mut i: usize = 0;
    while i < v.len()
        invariant
            i <= v@.len(),
            r@ == v@.subrange(0, i as int),
        decreases v@.len() - i,
    {
        r.push(v[i]);
        proof {
            assert(r@ =~= v@.subrange(0, i + 1));
        }
        i += 1;
    }
    proof {
        assert(r@ =~= v@);
    }
    r
}

/// Relies on itertools::sorted, which collects the elements into a vector
/// and sorts it: the result is the same identifiers, in ascending order.
#[verifier::external_body]
fn sorted_ids(v: &Vec<u64>) -> (r: Vec<u64>)
    ensures
        r@.to_multiset() == v@.to_multiset(),
        forall|i: int, j: int| 0 <= i <= j < r@.len() ==> r@[i] <= r@[j],
{
    itertools::sorted(v.iter().copied()).collect()
}

/// A copy of `v` with every occurrence of `x` left out; the order of the
/// other elements is kept.
fn without_value(v: &Vec<u64>, x: u64) -> (r: Vec<u64>)
    requires
        v@.no_duplicates(),
    ensures
        r@.no_duplicates(),
        !r@.contains(x),
        forall|y: u64| y != x ==> (r@.contains(y) <==> v@.contains(y)),
{
    let mut r: Vec<u64> = Vec::new();
    let mut i: usize = 0;
    while i < v.len()
        invariant
            v@.no_duplicates(),
            i <= v@.len(),
            r@.no_duplicates(),
            !r@.contains(x),
            forall|y: u64| y != x ==> (r@.contains(y) <==> v@.subrange(0, i as int).contains(y)),
        decreases v@.len() - i,
    {
        proof {
            broadcast use vstd::seq_lib::group_seq_properties;

            assert(v@.subrange(0, i + 1) == v@.subrange(0, i as int).push(v@[i as int]));
        }
        if v[i] != x {
            proof {
                if r@.contains(v@[i as int]) {
                    assert(v@.subrange(0, i as int).contains(v@[i as int]));
                    let j = choose|j: int|
                        0 <= j < i && v@.subrange(0, i as int)[j] == v@[i as int];
                    assert(v@[j] == v@[i as int]);
                    assert(false);
                }
            }
            r.push(v[i]);
        }
        i += 1;
    }
    proof {
        assert(v@.subrange(0, v@.len() as int) == v@);
    }
    r
}

} // verus!
