//! Traversal over the graph store: breadth-first shortest paths by edge
//! count, and depth-first reachability.

use vstd::prelude::*;

use std::collections::HashMap;
use std::collections::HashSet;

use crate::graph::Graph;
use crate::graph::GraphError;
use crate::graph::GraphErrorKind;

verus! {

broadcast use vstd::std_specs::hash::group_hash_axioms;

/// No element of `p` lies in `avoid`.
pub open spec fn seq_avoids(p: Seq<u64>, avoid: Set<u64>) -> bool {
    forall|i: int| 0 <= i < p.len() ==> !avoid.contains(#[trigger] p[i])
}

impl<T, E> Graph<T, E> {
    /// `p` is a path from `a` to `b`: nonempty, starts at `a`, ends at `b`,
    /// every element is a node of the graph, and consecutive elements are
    /// joined by an edge.
    pub open spec fn is_path(self, p: Seq<u64>, a: u64, b: u64) -> bool {
        &&& p.len() >= 1
        &&& p[0] == a
        &&& p[p.len() - 1] == b
        &&& (forall|i: int| 0 <= i < p.len() ==> self.has_node(#[trigger] p[i]))
        &&& (forall|i: int| 0 <= i < p.len() - 1 ==> self.adjacent(#[trigger] p[i], p[i + 1]))
    }

    /// Some path of the graph leads from `a` to `b`. Every node of the
    /// graph reaches itself.
    pub open spec fn reachable(self, a: u64, b: u64) -> bool {
        exists|p: Seq<u64>| self.is_path(p, a, b)
    }

    /// Some path of the graph leads from `a` to `b` without touching any
    /// element of `avoid`.
    pub open spec fn reachable_avoiding(self, a: u64, b: u64, avoid: Set<u64>) -> bool {
        exists|p: Seq<u64>| self.is_path(p, a, b) && seq_avoids(p, avoid)
    }

    /// Every node on a path from `a` to `b` that keeps clear of `avoid`
    /// lands in any set `s` that contains `a` and is closed under stepping
    /// along edges between nodes outside `avoid`.
    proof fn lemma_avoiding_path_reaches_closed_set(
        self,
        p: Seq<u64>,
        a: u64,
        b: u64,
        avoid: Set<u64>,
        s: Set<u64>,
    )
        requires
            self.is_path(p, a, b),
            seq_avoids(p, avoid),
            s.contains(a),
            forall|u: u64, v: u64|
                #![trigger s.contains(u), self.adjacent(u, v)]
                s.contains(u) && !avoid.contains(u) && self.adjacent(u, v) && !avoid.contains(v)
                    ==> s.contains(v),
        ensures
            s.contains(b),
        decreases p.len(),
    {
        if p.len() > 1 {
            let q = p.subrange(0, p.len() - 1);
            let b2 = p[p.len() - 2];
            assert(self.is_path(q, a, b2));
            assert(seq_avoids(q, avoid));
            self.lemma_avoiding_path_reaches_closed_set(q, a, b2, avoid, s);
            assert(self.adjacent(p[p.len() - 2], p[p.len() - 1]));
        }
    }

    /// Distance lower bound: if the map `d` starts at 0 on `a` and can grow
    /// by at most 1 along every edge out of its domain, then any path from
    /// `a` to `b` ends inside the domain and `d[b]` is at most the path's
    /// edge count.
    proof fn lemma_path_bounds_layer(self, p: Seq<u64>, a: u64, b: u64, d: Map<u64, nat>)
        requires
            self.is_path(p, a, b),
            d.dom().contains(a),
            d[a] == 0,
            forall|u: u64, v: u64|
                #![trigger d.dom().contains(u), self.adjacent(u, v)]
                d.dom().contains(u) && self.adjacent(u, v) ==> d.dom().contains(v) && d[v] <= d[u]
                    + 1,
        ensures
            d.dom().contains(b),
            d[b] <= p.len() - 1,
        decreases p.len(),
    {
        if p.len() > 1 {
            let q = p.subrange(0, p.len() - 1);
            let b2 = p[p.len() - 2];
            assert(self.is_path(q, a, b2));
            self.lemma_path_bounds_layer(q, a, b2, d);
            assert(self.adjacent(p[p.len() - 2], p[p.len() - 1]));
        }
    }

    /// Both endpoints of every incident edge of `id`, in one list. Every
    /// entry is a node; every neighbor of `id` (and possibly `id` itself)
    /// appears.
    fn neighbor_list(&self, id: u64) -> (r: Vec<u64>)
        requires
            self.wf(),
            self.has_node(id),
        ensures
            forall|i: int|
                0 <= i < r@.len() ==> self.has_node(#[trigger] r@[i]) && (r@[i] == id
                    || self.adjacent(id, r@[i])),
            forall|v: u64| #[trigger] self.adjacent(id, v) ==> r@.contains(v),
    {
        let node = self.nodes.get(&id).unwrap();
        let mut r: Vec<u64> = Vec::new();
        let n_edges = node.edges.len();
        let mut i: usize = 0;
        while i < n_edges
            invariant
                self.wf(),
                self.has_node(id),
                *node == self.nodes@[id],
                n_edges == node.edges@.len(),
                i <= n_edges,
                forall|k: int|
                    0 <= k < r@.len() ==> self.has_node(#[trigger] r@[k]) && (r@[k] == id
                        || self.adjacent(id, r@[k])),
                forall|j: int|
                    0 <= j < i ==> r@.contains(
                        (#[trigger] self.edges@[node.edges@[j]]).left,
                    ) && r@.contains(self.edges@[node.edges@[j]].right),
            decreases n_edges - i,
        {
            let eid = node.edges[i];
            proof {
                assert(node.edges@.contains(eid)) by {
                    assert(node.edges@[i as int] == eid);
                }
            }
            let e = self.edges.get(&eid).unwrap();
            let l = e.left;
            let rgt = e.right;
            proof {
                if l != id {
                    assert(self.edges@[eid].links(id, l));
                }
                if rgt != id {
                    assert(self.edges@[eid].links(id, rgt));
                }
                broadcast use vstd::seq_lib::lemma_seq_contains_after_push;

            }
            r.push(l);
            r.push(rgt);
            i += 1;
        }
        proof {
            assert forall|v: u64| #[trigger] self.adjacent(id, v) implies r@.contains(v) by {
                let e = choose|e: u64|
                    self.has_edge(e) && (#[trigger] self.edges@[e]).links(id, v);
                assert(self.edges@[e].touches(id));
                assert(node.edges@.contains(e));
                let j = choose|j: int| 0 <= j < node.edges@.len() && node.edges@[j] == e;
                assert(r@.contains(self.edges@[node.edges@[j]].left));
                assert(r@.contains(self.edges@[node.edges@[j]].right));
            }
        }
        r
    }

    /// The breadth-first scan from `p`. Returns the predecessor map, and
    /// (as ghost information) the breadth-first layer of every discovered
    /// node: `p` sits in layer 0, and following a predecessor steps one
    /// layer down. The layer map can grow by at most one along any edge out
    /// of a discovered node, which makes each layer the exact shortest
    /// distance from `p`.
    #[verifier::loop_isolation(false)]
    fn solve(&self, p: &u64) -> (res: (HashMap<u64, u64>, Ghost<Map<u64, nat>>))
        requires
            self.wf(),
            self.has_node(*p),
        ensures
            ({
                let prev = res.0@;
                let d = res.1@;
                &&& d.dom().contains(*p) && d[*p] == 0
                &&& (forall|u: u64| #[trigger] d.dom().contains(u) ==> self.has_node(u))
                &&& (forall|u: u64|
                    #![trigger prev.contains_key(u)]
                    #![trigger d.dom().contains(u)]
                    prev.contains_key(u) <==> (d.dom().contains(u) && u != *p))
                &&& (forall|u: u64|
                    #[trigger] prev.contains_key(u) ==> d.dom().contains(prev[u]) && d[u] == d[prev[u]]
                        + 1 && self.adjacent(prev[u], u))
                &&& (forall|u: u64, v: u64|
                    #![trigger d.dom().contains(u), self.adjacent(u, v)]
                    d.dom().contains(u) && self.adjacent(u, v) ==> d.dom().contains(v) && d[v]
                        <= d[u] + 1)
            }),
    {
        broadcast use vstd::set::group_set_axioms;

        let mut q: Vec<u64> = Vec::new();
        let mut head: usize = 0;
        let mut visited: HashSet<u64> = HashSet::new();
        let mut path: HashMap<u64, u64> = HashMap::new();
        let ghost mut d: Map<u64, nat> = Map::empty().insert(*p, 0nat);
        q.push(*p);
        visited.insert(*p);
        proof {
            broadcast use vstd::seq_lib::group_seq_properties;

            assert(visited@ =~= d.dom());
            Seq::<u64>::empty().lemma_push_to_set_commute(*p);
            assert(Seq::<u64>::empty().to_set() =~= Set::<u64>::empty());
            assert(q@.to_set() =~= d.dom());
            assert(d.dom() =~= Set::<u64>::empty().insert(*p));
            assert(d.dom().len() == 1);
            vstd::set_lib::lemma_len_subset(d.dom(), self.nodes@.dom());
        }
        while head < q.len()
            invariant
                head <= q@.len(),
                visited@ == d.dom(),
                d.dom() == q@.to_set(),
                q@.len() == d.dom().len(),
                d.dom().finite(),
                d.dom().len() <= self.nodes@.dom().len(),
                d.dom().contains(*p) && d[*p] == 0,
                forall|u: u64| #[trigger] d.dom().contains(u) ==> self.has_node(u),
                forall|u: u64|
                    #![trigger path@.contains_key(u)]
                    #![trigger d.dom().contains(u)]
                    path@.contains_key(u) <==> (d.dom().contains(u) && u != *p),
                forall|u: u64|
                    #[trigger] path@.contains_key(u) ==> d.dom().contains(path@[u]) && d[u]
                        == d[path@[u]] + 1 && self.adjacent(path@[u], u),
                forall|i: int, v: u64|
                    #![trigger self.adjacent(q@[i], v)]
                    0 <= i < head && self.adjacent(q@[i], v) ==> d.dom().contains(v) && d[v]
                        <= d[q@[i]] + 1,
                forall|i: int, j: int|
                    #![trigger q@[i], q@[j]]
                    0 <= i <= j < q@.len() ==> d[q@[i]] <= d[q@[j]],
                forall|j: int|
                    0 <= j < q@.len() && head < q@.len() ==> d[#[trigger] q@[j]]
                        <= d[q@[head as int]] + 1,
            decreases self.nodes@.dom().len() - d.dom().len() + q@.len() - head,
        {
            let node = q[head];
            let ghost dn = d[node];
            proof {
                assert(q@.to_set().contains(node));
            }
            let ns = self.neighbor_list(node);
            let mut j: usize = 0;
            while j < ns.len()
                invariant
                    head < q@.len(),
                    node == q@[head as int],
                    dn == d[node],
                    j <= ns@.len(),
                    visited@ == d.dom(),
                    d.dom() == q@.to_set(),
                    q@.len() == d.dom().len(),
                    d.dom().finite(),
                    d.dom().len() <= self.nodes@.dom().len(),
                    d.dom().contains(*p) && d[*p] == 0,
                    forall|u: u64| #[trigger] d.dom().contains(u) ==> self.has_node(u),
                    forall|u: u64|
                        #![trigger path@.contains_key(u)]
                        #![trigger d.dom().contains(u)]
                        path@.contains_key(u) <==> (d.dom().contains(u) && u != *p),
                    forall|u: u64|
                        #[trigger] path@.contains_key(u) ==> d.dom().contains(path@[u]) && d[u]
                            == d[path@[u]] + 1 && self.adjacent(path@[u], u),
                    forall|i: int, v: u64|
                        #![trigger self.adjacent(q@[i], v)]
                        0 <= i < head && self.adjacent(q@[i], v) ==> d.dom().contains(v) && d[v]
                            <= d[q@[i]] + 1,
                    forall|i: int, jx: int|
                        #![trigger q@[i], q@[jx]]
                        0 <= i <= jx < q@.len() ==> d[q@[i]] <= d[q@[jx]],
                    forall|jx: int|
                        0 <= jx < q@.len() ==> d[#[trigger] q@[jx]] <= d[q@[head as int]] + 1,
                    forall|jj: int|
                        0 <= jj < j ==> d.dom().contains(#[trigger] ns@[jj]) && d[ns@[jj]] <= dn
                            + 1,
                decreases ns@.len() - j,
            {
                let v = ns[j];
                if !visited.contains(&v) {
                    proof {
                        assert(ns@[j as int] == v);
                        assert(v != node);
                        assert(self.adjacent(node, v));
                    }
                    let ghost old_q = q@;
                    let ghost old_d = d;
                    q.push(v);
                    visited.insert(v);
                    path.insert(v, node);
                    proof {
                        d = d.insert(v, (dn + 1) as nat);
                        old_q.lemma_push_to_set_commute(v);
                        assert(d.dom() =~= old_d.dom().insert(v));
                        assert(q@.to_set() == d.dom());
                        vstd::set_lib::lemma_len_subset(d.dom(), self.nodes@.dom());
                        assert forall|i: int, jx: int|
                            #![trigger q@[i], q@[jx]]
                            0 <= i <= jx < q@.len() implies d[q@[i]] <= d[q@[jx]] by {
                            if jx < q@.len() - 1 {
                                assert(q@[i] == old_q[i] && q@[jx] == old_q[jx]);
                            } else {
                                assert(q@[jx] == v);
                                if i < q@.len() - 1 {
                                    assert(d[old_q[i]] <= d[old_q[head as int]] + 1);
                                }
                            }
                        }
                    }
                }
                j += 1;
            }
            head += 1;
            proof {
                assert forall|i: int, v: u64|
                    #![trigger self.adjacent(q@[i], v)]
                    0 <= i < head && self.adjacent(q@[i], v) implies d.dom().contains(v) && d[v]
                    <= d[q@[i]] + 1 by {
                    if i == head - 1 {
                        assert(ns@.contains(v));
                        let jj = choose|jj: int| 0 <= jj < ns@.len() && ns@[jj] == v;
                        assert(d.dom().contains(ns@[jj]) && d[ns@[jj]] <= dn + 1);
                    }
                }
            }
        }
        proof {
            assert forall|u: u64, v: u64|
                #![trigger d.dom().contains(u), self.adjacent(u, v)]
                d.dom().contains(u) && self.adjacent(u, v) implies d.dom().contains(v) && d[v]
                <= d[u] + 1 by {
                assert(q@.to_set().contains(u));
                assert(q@.contains(u));
                let i = choose|i: int| 0 <= i < q@.len() && q@[i] == u;
                assert(self.adjacent(q@[i], v));
            }
        }
        (path, Ghost(d))
    }

    /// Walk the predecessor map backward from `end` until `start` is
    /// reached: one node per layer, from `end`'s layer down to layer zero.
    #[verifier::loop_isolation(false)]
    fn walk_back(&self, start: &u64, end: &u64, links: &HashMap<u64, u64>, Ghost(d): Ghost<
        Map<u64, nat>,
    >) -> (r: Vec<u64>)
        requires
            self.wf(),
            d.dom().contains(*start),
            d[*start] == 0,
            d.dom().contains(*end),
            *end != *start,
            forall|u: u64|
                #![trigger links@.contains_key(u)]
                #![trigger d.dom().contains(u)]
                links@.contains_key(u) <==> (d.dom().contains(u) && u != *start),
            forall|u: u64|
                #[trigger] links@.contains_key(u) ==> d.dom().contains(links@[u]) && d[u]
                    == d[links@[u]] + 1 && self.adjacent(links@[u], u),
        ensures
            r@.len() == d[*end] + 1,
            r@[0] == *end,
            r@[r@.len() - 1] == *start,
            forall|i: int|
                0 <= i < r@.len() ==> d.dom().contains(#[trigger] r@[i]) && d[r@[i]] == d[*end]
                    - i,
            forall|i: int| 0 <= i < r@.len() - 1 ==> self.adjacent(r@[i + 1], #[trigger] r@[i]),
    {
        let mut path: Vec<u64> = Vec::new();
        path.push(*end);
        let mut cur: u64 = *end;
        while cur != *start
            invariant
                1 <= path@.len() <= d[*end] + 1,
                path@[0] == *end,
                path@[path@.len() - 1] == cur,
                d.dom().contains(cur),
                d[cur] == d[*end] - (path@.len() - 1),
                forall|i: int|
                    0 <= i < path@.len() ==> d.dom().contains(#[trigger] path@[i]) && d[path@[i]]
                        == d[*end] - i,
                forall|i: int|
                    0 <= i < path@.len() - 1 ==> self.adjacent(path@[i + 1], #[trigger] path@[i]),
            decreases d[cur],
        {
            let nxt = *links.get(&cur).unwrap();
            path.push(nxt);
            cur = nxt;
        }
        path
    }

    /// The walked-back layer sequence, reversed, is a duplicate-free
    /// shortest witness path from `s` to `e`.
    proof fn lemma_reversed_walk_is_path(
        self,
        back: Seq<u64>,
        fwd: Seq<u64>,
        s: u64,
        e: u64,
        d: Map<u64, nat>,
    )
        requires
            back.len() >= 1,
            fwd.len() == back.len(),
            forall|k: int| 0 <= k < fwd.len() ==> fwd[k] == back[back.len() - 1 - k],
            back[0] == e,
            back[back.len() - 1] == s,
            forall|i: int|
                0 <= i < back.len() ==> d.dom().contains(#[trigger] back[i]) && d[back[i]] == d[e]
                    - i,
            forall|u: u64| #[trigger] d.dom().contains(u) ==> self.has_node(u),
            forall|i: int| 0 <= i < back.len() - 1 ==> self.adjacent(back[i + 1], #[trigger] back[i]),
        ensures
            self.is_path(fwd, s, e),
            fwd.no_duplicates(),
    {
        let n = back.len();
        assert(fwd[0] == s);
        assert(fwd[fwd.len() - 1] == e);
        assert forall|k: int| 0 <= k < fwd.len() implies self.has_node(#[trigger] fwd[k]) by {
            assert(fwd[k] == back[n - 1 - k]);
        }
        assert forall|k: int| 0 <= k < fwd.len() - 1 implies self.adjacent(
            #[trigger] fwd[k],
            fwd[k + 1],
        ) by {
            assert(fwd[k] == back[n - 1 - k]);
            assert(fwd[k + 1] == back[n - 2 - k]);
            assert(self.adjacent(back[(n - 2 - k) + 1], back[n - 2 - k]));
            self.lemma_connected_symmetric(back[n - 2 - k], back[n - 1 - k]);
        }
        assert forall|i1: int, i2: int|
            0 <= i1 < fwd.len() && 0 <= i2 < fwd.len() && i1 != i2 implies fwd[i1] != fwd[i2] by {
            assert(fwd[i1] == back[n - 1 - i1]);
            assert(fwd[i2] == back[n - 1 - i2]);
            assert(d[back[n - 1 - i1]] == d[e] - (n - 1 - i1));
            assert(d[back[n - 1 - i2]] == d[e] - (n - 1 - i2));
        }
    }

    /// Walk the predecessor map backward from `end` until `start`, then
    /// reverse. Succeeds exactly when `end` was discovered by the scan that
    /// produced `links`; the result then has one node per layer, so its
    /// length is `end`'s layer plus one.
    fn reconstruct_path(
        &self,
        start: &u64,
        end: &u64,
        links: HashMap<u64, u64>,
        Ghost(d): Ghost<Map<u64, nat>>,
    ) -> (r: Result<Vec<u64>, GraphError>)
        requires
            self.wf(),
            d.dom().contains(*start),
            d[*start] == 0,
            forall|u: u64| #[trigger] d.dom().contains(u) ==> self.has_node(u),
            forall|u: u64|
                #![trigger links@.contains_key(u)]
                #![trigger d.dom().contains(u)]
                links@.contains_key(u) <==> (d.dom().contains(u) && u != *start),
            forall|u: u64|
                #[trigger] links@.contains_key(u) ==> d.dom().contains(links@[u]) && d[u]
                    == d[links@[u]] + 1 && self.adjacent(links@[u], u),
        ensures
            match r {
                Ok(p) => {
                    &&& d.dom().contains(*end)
                    &&& self.is_path(p@, *start, *end)
                    &&& p@.len() == d[*end] + 1
                    &&& p@.no_duplicates()
                },
                Err(e) => !d.dom().contains(*end) && e.kind == GraphErrorKind::Unreachable,
            },
    {
        if *end == *start {
            let mut single: Vec<u64> = Vec::new();
            single.push(*start);
            return Ok(single);
        }
        if !links.contains_key(end) {
            return Err(GraphError::new(GraphErrorKind::Unreachable, "End point can't be reached."));
        }
        let path = self.walk_back(start, end, &links, Ghost(d));
        let mut fwd: Vec<u64> = Vec::new();
        let mut i: usize = path.len();
        while i > 0
            invariant
                i <= path@.len(),
                fwd@.len() == path@.len() - i,
                forall|k: int| 0 <= k < fwd@.len() ==> fwd@[k] == path@[path@.len() - 1 - k],
            decreases i,
        {
            i -= 1;
            let x = path[i];
            fwd.push(x);
        }
        proof {
            self.lemma_reversed_walk_is_path(path@, fwd@, *start, *end, d);
        }
        Ok(fwd)
    }

    /// Breadth-first shortest path by edge count, inclusive of both
    /// endpoints. Fails when `s` or `e` is not a node, or when no path
    /// joins them; otherwise the result starts at `s`, ends at `e`, steps
    /// along edges, and no path between the two is shorter.
    pub fn bfs_path(&self, s: &u64, e: &u64) -> (r: Result<Vec<u64>, GraphError>)
        requires
            self.wf(),
        ensures
            r is Ok <==> (self.has_node(*s) && self.has_node(*e) && self.reachable(*s, *e)),
            match r {
                Ok(p) => {
                    &&& self.is_path(p@, *s, *e)
                    &&& p@.no_duplicates()
                    &&& (forall|q: Seq<u64>| self.is_path(q, *s, *e) ==> p@.len() <= q.len())
                },
                Err(err) => {
                    &&& (err.kind == GraphErrorKind::MissingFrom <==> !self.has_node(*s))
                    &&& (err.kind == GraphErrorKind::MissingTo <==> (self.has_node(*s)
                        && !self.has_node(*e)))
                    &&& (err.kind == GraphErrorKind::Unreachable <==> (self.has_node(*s)
                        && self.has_node(*e) && !self.reachable(*s, *e)))
                },
            },
    {
        if !self.nodes.contains_key(s) {
            return Err(GraphError::new(GraphErrorKind::MissingFrom, "'start' not in nodes."));
        }
        if !self.nodes.contains_key(e) {
            return Err(GraphError::new(GraphErrorKind::MissingTo, "'end' not in nodes."));
        }
        let (prev, ghost_d) = self.solve(s);
        let path = self.reconstruct_path(s, e, prev, ghost_d);
        proof {
            let d = ghost_d@;
            if self.reachable(*s, *e) {
                let q0 = choose|q0: Seq<u64>| self.is_path(q0, *s, *e);
                self.lemma_path_bounds_layer(q0, *s, *e, d);
                assert(d.dom().contains(*e));
            }
        }
        match &path {
            Ok(pv) => {
                proof {
                    let d = ghost_d@;
                    assert(self.is_path(pv@, *s, *e));
                    assert(self.reachable(*s, *e));
                    assert forall|q: Seq<u64>| self.is_path(q, *s, *e) implies pv@.len()
                        <= q.len() by {
                        self.lemma_path_bounds_layer(q, *s, *e, d);
                    }
                }
            },
            Err(_) => {},
        }
        path
    }

    /// The set of all nodes reachable from `node`, by iterative depth-first
    /// expansion over the neighbor relation.
    pub fn dfs(&self, node: &u64) -> (r: HashSet<u64>)
        requires
            self.wf(),
            self.has_node(*node),
        ensures
            r@ == Set::new(|v: u64| self.reachable(*node, v)),
    {
        let mut v: HashSet<u64> = HashSet::new();
        self.depth_first(node, &mut v);
        proof {
            assert forall|x: u64| #[trigger] v@.contains(x) implies self.reachable(
                *node,
                x,
            ) by {
                assert(self.reachable_avoiding(*node, x, Set::<u64>::empty()));
                let p = choose|p: Seq<u64>|
                    self.is_path(p, *node, x) && seq_avoids(p, Set::<u64>::empty());
                assert(self.is_path(p, *node, x));
            }
            assert forall|x: u64| self.reachable(*node, x) implies v@.contains(x) by {
                let p = choose|p: Seq<u64>| self.is_path(p, *node, x);
                assert(seq_avoids(p, Set::<u64>::empty()));
                assert(self.reachable_avoiding(*node, x, Set::<u64>::empty()));
            }
            assert(v@ =~= Set::new(|x: u64| self.reachable(*node, x)));
        }
        v
    }

    /// One step along an edge extends a path that keeps clear of `avoid`.
    proof fn lemma_path_step(self, p: Seq<u64>, a: u64, b: u64, c: u64, avoid: Set<u64>)
        requires
            self.is_path(p, a, b),
            seq_avoids(p, avoid),
            self.adjacent(b, c),
            self.has_node(c),
            !avoid.contains(c),
        ensures
            self.is_path(p.push(c), a, c),
            seq_avoids(p.push(c), avoid),
    {
        let p2 = p.push(c);
        assert forall|i: int| 0 <= i < p2.len() implies self.has_node(#[trigger] p2[i])
            && !avoid.contains(p2[i]) by {
            if i < p.len() {
                assert(p2[i] == p[i]);
            }
        }
        assert forall|i: int| 0 <= i < p2.len() - 1 implies self.adjacent(
            #[trigger] p2[i],
            p2[i + 1],
        ) by {
            if i < p.len() - 1 {
                assert(p2[i] == p[i] && p2[i + 1] == p[i + 1]);
            } else {
                assert(p2[i] == b && p2[i + 1] == c);
            }
        }
    }

    /// Expand depth-first from `node`, marking every node reached. Nodes
    /// already marked in `visited` are treated as walls: the scan adds
    /// exactly the nodes that some path from `node` reaches while keeping
    /// clear of the prior marks.
    #[verifier::loop_isolation(false)]
    pub fn depth_first(&self, node: &u64, visited: &mut HashSet<u64>)
        requires
            self.wf(),
            self.has_node(*node) || old(visited)@.contains(*node),
        ensures
            final(visited)@ == old(visited)@.union(
                Set::new(|x: u64| self.reachable_avoiding(*node, x, old(visited)@)),
            ),
    {
        broadcast use vstd::set::group_set_axioms;
        broadcast use vstd::seq_lib::lemma_seq_contains_after_push;

        let ghost avoid = visited@;
        if visited.contains(node) {
            proof {
                assert forall|x: u64| !self.reachable_avoiding(*node, x, avoid) by {
                    if self.reachable_avoiding(*node, x, avoid) {
                        let p = choose|p: Seq<u64>|
                            self.is_path(p, *node, x) && seq_avoids(p, avoid);
                        assert(!avoid.contains(p[0]));
                    }
                }
                assert(visited@ =~= avoid.union(
                    Set::new(|x: u64| self.reachable_avoiding(*node, x, avoid)),
                ));
            }
            return ;
        }
        let mut stack: Vec<u64> = Vec::new();
        stack.push(*node);
        proof {
            assert(seq_avoids(seq![*node], avoid));
            assert(self.is_path(seq![*node], *node, *node));
            assert(self.reachable_avoiding(*node, *node, avoid));
            vstd::set_lib::lemma_len_subset(
                self.nodes@.dom().difference(visited@),
                self.nodes@.dom(),
            );
        }
        while stack.len() > 0
            invariant
                avoid.subset_of(visited@),
                !avoid.contains(*node),
                self.nodes@.dom().difference(visited@).finite(),
                self.nodes@.dom().difference(visited@).len() <= self.nodes@.dom().len(),
                forall|x: u64|
                    #[trigger] visited@.contains(x) ==> avoid.contains(x) || (self.has_node(x)
                        && self.reachable_avoiding(*node, x, avoid)),
                forall|i: int|
                    0 <= i < stack@.len() ==> visited@.contains(#[trigger] stack@[i]) || (
                    self.has_node(stack@[i]) && self.reachable_avoiding(*node, stack@[i], avoid)),
                forall|u: u64, w: u64|
                    #![trigger visited@.contains(u), self.adjacent(u, w)]
                    visited@.contains(u) && !avoid.contains(u) && self.adjacent(u, w)
                        ==> visited@.contains(w) || stack@.contains(w),
                visited@.contains(*node) || stack@.contains(*node),
            decreases self.nodes@.dom().difference(visited@).len(), stack@.len(),
        {
            let ghost pre_stack = stack@;
            let x = stack.pop().unwrap();
            proof {
                assert(pre_stack =~= stack@.push(x));
                assert(pre_stack[pre_stack.len() - 1] == x);
            }
            if !visited.contains(&x) {
                proof {
                    assert(self.has_node(x) && self.reachable_avoiding(*node, x, avoid));
                    assert(!avoid.contains(x));
                }
                let ghost pre_visited = visited@;
                visited.insert(x);
                let ns = self.neighbor_list(x);
                let mut j: usize = 0;
                proof {
                    assert(self.nodes@.dom().difference(visited@) =~= self.nodes@.dom().difference(
                        pre_visited,
                    ).remove(x));
                    vstd::set_lib::lemma_len_subset(
                        self.nodes@.dom().difference(visited@),
                        self.nodes@.dom(),
                    );
                }
                while j < ns.len()
                    invariant
                        j <= ns@.len(),
                        visited@.contains(x),
                        !avoid.contains(x),
                        self.reachable_avoiding(*node, x, avoid),
                        avoid.subset_of(visited@),
                        forall|y: u64|
                            #[trigger] visited@.contains(y) ==> avoid.contains(y) || (
                            self.has_node(y) && self.reachable_avoiding(*node, y, avoid)),
                        forall|i: int|
                            0 <= i < stack@.len() ==> visited@.contains(#[trigger] stack@[i]) || (
                            self.has_node(stack@[i]) && self.reachable_avoiding(
                                *node,
                                stack@[i],
                                avoid,
                            )),
                        forall|u: u64, w: u64|
                            #![trigger visited@.contains(u), self.adjacent(u, w)]
                            visited@.contains(u) && !avoid.contains(u) && self.adjacent(u, w) && u
                                != x ==> visited@.contains(w) || stack@.contains(w),
                        forall|k: int|
                            0 <= k < j ==> visited@.contains(#[trigger] ns@[k])
                                || stack@.contains(ns@[k]),
                        visited@.contains(*node) || stack@.contains(*node),
                    decreases ns@.len() - j,
                {
                    let w = ns[j];
                    proof {
                        assert(ns@[j as int] == w);
                        if !visited@.contains(w) && !avoid.contains(w) && w != x {
                            let p = choose|p: Seq<u64>|
                                self.is_path(p, *node, x) && seq_avoids(p, avoid);
                            self.lemma_path_step(p, *node, x, w, avoid);
                            assert(self.reachable_avoiding(*node, w, avoid));
                        }
                    }
                    stack.push(w);
                    proof {
                        assert(stack@[stack@.len() - 1] == w);
                    }
                    j += 1;
                }
                proof {
                    assert forall|u: u64, w: u64|
                        #![trigger visited@.contains(u), self.adjacent(u, w)]
                        visited@.contains(u) && !avoid.contains(u) && self.adjacent(
                            u,
                            w,
                        ) implies visited@.contains(w) || stack@.contains(w) by {
                        if u == x {
                            assert(ns@.contains(w));
                            let k = choose|k: int| 0 <= k < ns@.len() && ns@[k] == w;
                            assert(visited@.contains(ns@[k]) || stack@.contains(ns@[k]));
                        }
                    }
                }
            }
        }
        proof {
            let reach = Set::new(|x: u64| self.reachable_avoiding(*node, x, avoid));
            assert forall|x: u64| reach.contains(x) implies visited@.contains(x) by {
                let p = choose|p: Seq<u64>| self.is_path(p, *node, x) && seq_avoids(p, avoid);
                self.lemma_avoiding_path_reaches_closed_set(p, *node, x, avoid, visited@);
            }
            assert(visited@ =~= avoid.union(reach));
        }
    }
}

} // verus!
