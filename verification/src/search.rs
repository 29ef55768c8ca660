use vstd::prelude::*;
use crate::vertex::{Vertex, distance_fits, heuristic_fits};
use crate::node::Node;
use crate::graph::Graph;

verus! {

/// The search engine; `find_path` runs one full search.
pub struct AStar;

/// The error returned when a vertex the search must look up is not a key of
/// the supplied graph.
#[derive(Clone, Copy, PartialEq, Eq, Structural, Debug)]
pub enum PathError {
    InvalidVertex,
}

/// Every consecutive pair of `w` is an edge of `g`, walking forward.
pub open spec fn is_walk(g: Map<Vertex, Seq<Vertex>>, w: Seq<Vertex>) -> bool {
    &&& w.len() >= 1
    &&& forall|i: int|
        0 <= i < w.len() - 1 ==> g.contains_key(#[trigger] w[i]) && g[w[i]].contains(w[i + 1])
}

/// Some walk through `g` leads from `from` to `to`.
pub open spec fn reachable(g: Map<Vertex, Seq<Vertex>>, from: Vertex, to: Vertex) -> bool {
    exists|w: Seq<Vertex>| #[trigger] is_walk(g, w) && w[0] == from && w[w.len() - 1] == to
}

/// Every neighbor named by an adjacency list is itself a key.
pub open spec fn graph_closed(g: Map<Vertex, Seq<Vertex>>) -> bool {
    forall|k: Vertex, v: Vertex|
        g.contains_key(k) && #[trigger] g[k].contains(v) ==> g.contains_key(v)
}

/// Every cost and heuristic the search can compute over `g` fits its
/// machine type.
pub open spec fn costs_fit(g: Map<Vertex, Seq<Vertex>>, goal: Vertex) -> bool {
    &&& forall|k: Vertex| #[trigger] g.contains_key(k) ==> heuristic_fits(k, goal)
    &&& forall|k: Vertex, v: Vertex|
        g.contains_key(k) && #[trigger] g[k].contains(v) ==> distance_fits(k, v)
}

/// `p` is a returned path: goal-first, ending at `start`, and each
/// consecutive pair is connected by an edge of `g` read backwards.
pub open spec fn path_ok(g: Map<Vertex, Seq<Vertex>>, p: Seq<Vertex>, start: Vertex, goal: Vertex) -> bool {
    &&& p.len() >= 1
    &&& p[0] == goal
    &&& p[p.len() - 1] == start
    &&& forall|i: int|
        0 <= i < p.len() - 1 ==> g.contains_key(#[trigger] p[i + 1]) && g[p[i + 1]].contains(p[i])
}

/// Some index of `idxs` points at a pool node standing for `v`.
pub(crate) open spec fn seq_has_pos(pool: Seq<Node>, idxs: Seq<usize>, v: Vertex) -> bool {
    exists|t: int| 0 <= t < idxs.len() && pool[(#[trigger] idxs[t]) as int].pos == v
}

/// Some pool node stands for `k`.
pub(crate) open spec fn pool_has(pool: Seq<Node>, k: Vertex) -> bool {
    exists|i: int| 0 <= i < pool.len() && (#[trigger] pool[i]).pos == k
}

/// The node is on a predecessor chain: it has a predecessor, or it is the
/// start node itself.
pub(crate) open spec fn linked(pool: Seq<Node>, start: Vertex, i: int) -> bool {
    pool[i].prev is Some || pool[i].pos == start
}

/// What must hold of a predecessor reference from pool slot `i` to slot `p`.
pub(crate) open spec fn prev_ok(
    g: Map<Vertex, Seq<Vertex>>,
    pool: Seq<Node>,
    i: int,
    p: usize,
) -> bool {
    &&& (p as int) < pool.len()
    &&& g.contains_key(pool[p as int].pos)
    &&& g[pool[p as int].pos].contains(pool[i].pos)
    &&& pool[p as int].property.1 < pool[i].property.1
}

/// The pool's predecessor references form well-founded chains that follow
/// graph edges and strictly decrease in accumulated cost toward `start`.
pub(crate) open spec fn rec_wf(g: Map<Vertex, Seq<Vertex>>, pool: Seq<Node>, start: Vertex) -> bool {
    &&& forall|i: int| 0 <= i < pool.len() ==> 0 <= (#[trigger] pool[i]).property.1
    &&& forall|i: int|
        0 <= i < pool.len() ==> ((#[trigger] pool[i]).prev matches Some(p) ==> prev_ok(
            g,
            pool,
            i,
            p,
        ) && linked(pool, start, p as int))
}

/// Every predecessor reference stays inside the pool and strictly decreases
/// the accumulated cost: exactly what makes a predecessor chain finite.
pub(crate) open spec fn chain_wf(pool: Seq<Node>) -> bool {
    &&& forall|i: int| 0 <= i < pool.len() ==> 0 <= (#[trigger] pool[i]).property.1
    &&& forall|i: int|
        0 <= i < pool.len() ==> ((#[trigger] pool[i]).prev matches Some(p) ==> (p as int)
            < pool.len() && pool[p as int].property.1 < pool[i].property.1)
}

/// The sequence of vertices along the predecessor chain from pool slot `i`:
/// the slot's own vertex, then the chain from its predecessor, until a slot
/// with no predecessor ends it.
pub(crate) open spec fn chain_of(pool: Seq<Node>, i: int) -> Seq<Vertex>
    decreases pool[i].property.1
        when 0 <= i < pool.len() && chain_wf(pool)
{
    match pool[i].prev {
        None => seq![pool[i].pos],
        Some(p) => seq![pool[i].pos] + chain_of(pool, p as int),
    }
}

impl AStar {
    /// One fresh zeroed node per key of the graph, in key order.
    fn get_nodes_list(graph: &Graph) -> (pool: Vec<Node>)
        requires
            graph.wf(),
        ensures
            pool@.len() == graph.key_seq().len(),
            forall|i: int|
                0 <= i < pool@.len() ==> {
                    let nd = #[trigger] pool@[i];
                    &&& nd.pos == graph.key_seq()[i]
                    &&& nd.property.0 == 0 && nd.property.1 == 0 && nd.property.2 == 0
                    &&& nd.prev is None
                },
    {
        proof {
            graph.lemma_wf_facts();
        }
        let n = graph.len();
        let mut pool: Vec<Node> = Vec::new();
        let mut i: usize = 0;
        while i < n
            invariant
                i <= n,
                graph.wf(),
                n == graph.key_seq().len(),
                n == graph@.dom().len(),
                pool@.len() == i,
                forall|t: int|
                    0 <= t < pool@.len() ==> {
                        let nd = #[trigger] pool@[t];
                        &&& nd.pos == graph.key_seq()[t]
                        &&& nd.property.0 == 0 && nd.property.1 == 0 && nd.property.2 == 0
                        &&& nd.prev is None
                    },
            decreases n - i,
        {
            let k = graph.key_at(i);
            pool.push(Node::new(k));
            i = i + 1;
        }
        pool
    }

    /// The pool index of the node standing for `v`, when one exists.
    fn get_node_index(pool: &Vec<Node>, v: &Vertex) -> (r: Option<usize>)
        ensures
            match r {
                Some(i) => (i as int) < pool@.len() && pool@[i as int].pos == *v,
                None => !pool_has(pool@, *v),
            },
    {
        let n = pool.len();
        let mut i: usize = 0;
        while i < n
            invariant
                i <= n,
                n == pool@.len(),
                forall|j: int| 0 <= j < i ==> (#[trigger] pool@[j]).pos != *v,
            decreases n - i,
        {
            if pool[i].pos == *v {
                return Some(i);
            }
            i = i + 1;
        }
        proof {
            if pool_has(pool@, *v) {
                let w = choose|w: int| 0 <= w < pool@.len() && (#[trigger] pool@[w]).pos == *v;
                assert(pool@[w].pos != *v);
            }
        }
        None
    }

    /// Whether `x` occurs in a list of pool indices.
    fn contains_idx(list: &Vec<usize>, x: usize) -> (r: bool)
        ensures
            r == list@.contains(x),
    {
        let n = list.len();
        let mut i: usize = 0;
        while i < n
            invariant
                i <= n,
                n == list@.len(),
                forall|j: int| 0 <= j < i ==> (#[trigger] list@[j]) != x,
            decreases n - i,
        {
            if list[i] == x {
                return true;
            }
            i = i + 1;
        }
        proof {
            if list@.contains(x) {
                let w = choose|w: int| 0 <= w < list@.len() && (#[trigger] list@[w]) == x;
                assert(list@[w] != x);
            }
        }
        false
    }

    /// Walk the predecessor references back from the node at `idx`, emitting
    /// each vertex met: exactly the vertices along the predecessor chain, so
    /// the result runs goal-first and ends at the start vertex, following
    /// graph edges backwards at every step.
    fn reconstruction_path(
        pool: &Vec<Node>,
        idx: usize,
        Ghost(g): Ghost<Map<Vertex, Seq<Vertex>>>,
        Ghost(start): Ghost<Vertex>,
    ) -> (r: Vec<Vertex>)
        requires
            rec_wf(g, pool@, start),
            (idx as int) < pool@.len(),
            linked(pool@, start, idx as int),
        ensures
            r@ == chain_of(pool@, idx as int),
            r@.len() >= 1,
            r@[0] == pool@[idx as int].pos,
            r@[r@.len() - 1] == start,
            forall|i: int|
                0 <= i < r@.len() - 1 ==> g.contains_key(#[trigger] r@[i + 1]) && g[r@[i
                    + 1]].contains(r@[i]),
            pool@[idx as int].prev is None ==> r@ == seq![pool@[idx as int].pos],
    {
        proof {
            assert(chain_wf(pool@)) by {
                assert forall|i: int|
                    0 <= i < pool@.len() implies ((#[trigger] pool@[i]).prev matches Some(p) ==> (p
                    as int) < pool@.len() && pool@[p as int].property.1
                    < pool@[i].property.1) by {
                    if pool@[i].prev is Some {
                        let p = pool@[i].prev->Some_0;
                        assert(prev_ok(g, pool@, i, p));
                    }
                }
            }
        }
        let mut path: Vec<Vertex> = Vec::new();
        path.push(pool[idx].pos);
        let mut cur: Option<usize> = pool[idx].prev;
        let ghost mut last_i: int = idx as int;
        proof {
            assert(path@ =~= seq![pool@[idx as int].pos]);
            assert(chain_of(pool@, idx as int) == path@ + (match cur {
                Some(p) => chain_of(pool@, p as int),
                None => Seq::<Vertex>::empty(),
            })) by {
                if cur is None {
                    assert(chain_of(pool@, idx as int) == seq![pool@[idx as int].pos]);
                    assert(path@ + Seq::<Vertex>::empty() =~= path@);
                }
            }
        }
        while cur.is_some()
            invariant
                rec_wf(g, pool@, start),
                chain_wf(pool@),
                0 <= last_i < pool@.len(),
                path@.len() >= 1,
                path@[path@.len() - 1] == pool@[last_i].pos,
                path@[0] == pool@[idx as int].pos,
                cur == pool@[last_i].prev,
                linked(pool@, start, last_i),
                last_i == idx as int || path@.len() >= 2,
                pool@[idx as int].prev is None ==> path@.len() == 1,
                chain_of(pool@, idx as int) == path@ + (match cur {
                    Some(p) => chain_of(pool@, p as int),
                    None => Seq::<Vertex>::empty(),
                }),
                forall|i: int|
                    0 <= i < path@.len() - 1 ==> g.contains_key(#[trigger] path@[i + 1])
                        && g[path@[i + 1]].contains(path@[i]),
            decreases pool@[last_i].property.1,
        {
            let p = cur.unwrap();
            proof {
                assert(pool@[last_i].prev matches Some(q) && q == p);
                assert(prev_ok(g, pool@, last_i, p));
            }
            let ghost path_b = path@;
            path.push(pool[p].pos);
            proof {
                last_i = p as int;
            }
            cur = pool[p].prev;
            proof {
                assert(chain_of(pool@, p as int) == seq![pool@[p as int].pos] + (match cur {
                    Some(q) => chain_of(pool@, q as int),
                    None => Seq::<Vertex>::empty(),
                })) by {
                    if cur is None {
                        assert(chain_of(pool@, p as int) == seq![pool@[p as int].pos]);
                        assert(seq![pool@[p as int].pos] + Seq::<Vertex>::empty() =~= seq![
                            pool@[p as int].pos,
                        ]);
                    }
                }
                assert(path@ =~= path_b + seq![pool@[p as int].pos]);
                assert(path_b + (seq![pool@[p as int].pos] + (match cur {
                    Some(q) => chain_of(pool@, q as int),
                    None => Seq::<Vertex>::empty(),
                })) =~= path@ + (match cur {
                    Some(q) => chain_of(pool@, q as int),
                    None => Seq::<Vertex>::empty(),
                }));
            }
        }
        proof {
            assert(path@ + Seq::<Vertex>::empty() =~= path@);
            if pool@[idx as int].prev is None {
                assert(path@ =~= seq![pool@[idx as int].pos]);
            }
        }
        path
    }

    /// The position in `open` of an entry whose node has the smallest total
    /// score `f`.
    fn best_index(pool: &Vec<Node>, open: &Vec<usize>) -> (k: usize)
        requires
            open@.len() > 0,
            forall|t: int| 0 <= t < open@.len() ==> ((#[trigger] open@[t]) as int) < pool@.len(),
        ensures
            (k as int) < open@.len(),
            forall|t: int|
                0 <= t < open@.len() ==> pool@[open@[k as int] as int].property.0 <= pool@[(
                #[trigger] open@[t]) as int].property.0,
    {
        let n = open.len();
        let mut k: usize = 0;
        let mut i: usize = 1;
        while i < n
            invariant
                1 <= i <= n,
                k < i,
                n == open@.len(),
                forall|t: int| 0 <= t < open@.len() ==> ((#[trigger] open@[t]) as int) < pool@.len(),
                forall|t: int|
                    0 <= t < i ==> pool@[open@[k as int] as int].property.0 <= pool@[(
                    #[trigger] open@[t]) as int].property.0,
            decreases n - i,
        {
            if pool[open[i]].property.0 < pool[open[k]].property.0 {
                k = i;
            }
            i = i + 1;
        }
        k
    }

    /// Search for a lowest-cost path from `start` to `goal`.
    ///
    /// Returns `Err(InvalidVertex)` exactly when a vertex the search must
    /// look up — `start`, or a neighbor met during expansion — is not a key
    /// of `graph`. Otherwise returns `Ok(Some(path))`, the path listed
    /// goal-first, if and only if `goal` can be reached from `start` along
    /// the graph's edges, and `Ok(None)` when it cannot.
    #[verifier::rlimit(100)]
    pub fn find_path(graph: &Graph, start: Vertex, goal: Vertex) -> (r: Result<
        Option<Vec<Vertex>>,
        PathError,
    >)
        requires
            graph.wf(),
            costs_fit(graph@, goal),
            graph@.dom().len() <= 0x7fff_ffff,
        ensures
            !graph@.contains_key(start) ==> r == Err::<Option<Vec<Vertex>>, PathError>(
                PathError::InvalidVertex,
            ),
            r is Err ==> !(graph@.contains_key(start) && graph_closed(graph@)),
            graph@.contains_key(start) && start == goal ==> (r matches Ok(Some(p)) && p@ == seq![
                start,
            ]),
            graph@.contains_key(start) && start != goal && graph@[start].len() == 0 ==> r
                == Ok::<Option<Vec<Vertex>>, PathError>(None),
            r matches Ok(Some(p)) ==> path_ok(graph@, p@, start, goal) && reachable(
                graph@,
                start,
                goal,
            ),
            r matches Ok(None) ==> !reachable(graph@, start, goal),
            graph@.contains_key(start) && graph_closed(graph@) && reachable(graph@, start, goal)
                ==> (r matches Ok(Some(p)) && path_ok(graph@, p@, start, goal)),
    {
        let ghost g = graph@;
        proof {
            graph.lemma_wf_facts();
        }
        let mut pool = Self::get_nodes_list(graph);
        let start_idx = match Self::get_node_index(&pool, &start) {
            Some(i) => i,
            None => {
                proof {
                    if g.contains_key(start) {
                        assert(graph.key_seq().contains(start));
                        let t = choose|t: int|
                            0 <= t < graph.key_seq().len() && graph.key_seq()[t] == start;
                        assert(pool@[t].pos == start);
                        assert(false);
                    }
                }
                return Err(PathError::InvalidVertex);
            }
        };
        proof {
            assert(g.contains_key(start));
            assert(heuristic_fits(start, goal));
        }
        let h0 = start.hdistance(&goal);
        let mut st: Node = pool[start_idx];
        st.update(0, h0 as i64);
        let ghost pool0 = pool@;
        pool[start_idx] = st;
        let mut open: Vec<usize> = Vec::new();
        open.push(start_idx);
        let mut closed: Vec<usize> = Vec::new();
        proof {
            assert(pool@ == pool0.update(start_idx as int, st));
            assert forall|i: int| 0 <= i < pool@.len() implies (#[trigger] pool@[i]).pos
                == pool0[i].pos by {}
            assert(open@.len() == 1 && open@[0] == start_idx);
            assert(open@.contains(start_idx));
            assert(closed@.len() == 0);
            assert(!seq_has_pos(pool@, closed@, goal)) by {
                if seq_has_pos(pool@, closed@, goal) {
                    let t = choose|t: int|
                        0 <= t < closed@.len() && pool@[(#[trigger] closed@[t]) as int].pos
                            == goal;
                }
            }
            assert forall|kv: Vertex| #[trigger] g.contains_key(kv) implies pool_has(
                pool@,
                kv,
            ) by {
                assert(graph.key_seq().contains(kv));
                let t = choose|t: int| 0 <= t < graph.key_seq().len() && graph.key_seq()[t] == kv;
                assert(pool0[t].pos == kv);
                assert(pool@[t].pos == kv);
            }
            assert forall|i: int, j2: int|
                0 <= i < pool@.len() && 0 <= j2 < pool@.len() && i != j2 implies (
            #[trigger] pool@[i]).pos != (#[trigger] pool@[j2]).pos by {
                assert(pool0[i].pos == graph.key_seq()[i]);
                assert(pool0[j2].pos == graph.key_seq()[j2]);
            }
            assert(inv_core(g, pool@, open@, closed@, start, goal, start_idx));
            assert forall|c: Vertex, v: Vertex|
                seq_has_pos(pool@, closed@, c) && g.contains_key(c) && #[trigger] g[c].contains(
                    v,
                ) implies seq_has_pos(pool@, closed@, v) || seq_has_pos(pool@, open@, v) by {
                let t = choose|t: int|
                    0 <= t < closed@.len() && pool@[(#[trigger] closed@[t]) as int].pos == c;
            }
        }
        while open.len() > 0
            invariant
                g == graph@,
                graph.wf(),
                costs_fit(g, goal),
                inv_core(g, pool@, open@, closed@, start, goal, start_idx),
                closure_ok(g, pool@, open@, closed@),
                g.contains_key(start) && start == goal ==> closed@.len() == 0 && open@.len() == 1
                    && open@[0] == start_idx && pool@[start_idx as int].prev is None,
                g.contains_key(start) && start != goal && g[start].len() == 0 ==> (closed@.len()
                    == 0 && open@.len() == 1 && open@[0] == start_idx) || open@.len() == 0,
            decreases 2 * pool@.len() - 2 * closed@.len() - open@.len(),
        {
            let k = Self::best_index(&pool, &open);
            let x_idx: usize = open[k];
            let ghost open_b = open@;
            let _removed = open.remove(k);
            proof {
                assert(open_b[k as int] == x_idx);
                assert(open@ == open_b.remove(k as int));
                lemma_remove_facts(open_b, k as int);
                assert(linked(pool@, start, (#[trigger] open_b[k as int]) as int));
            }
            let x_pos = pool[x_idx].pos;
            if x_pos == goal {
                proof {
                    lemma_inv_rec_wf(g, pool@, open_b, closed@, start, goal, start_idx);
                }
                let p = Self::reconstruction_path(&pool, x_idx, Ghost(g), Ghost(start));
                proof {
                    assert(path_ok(g, p@, start, goal));
                    lemma_path_reachable(g, p@, start, goal);
                    if g.contains_key(start) && start == goal {
                        assert(x_idx == start_idx);
                        assert(p@ == seq![pool@[x_idx as int].pos]);
                        assert(p@ =~= seq![start]);
                    }
                    if g.contains_key(start) && start != goal && g[start].len() == 0 {
                        assert(x_idx == start_idx);
                        assert(x_pos == start);
                        assert(false);
                    }
                }
                return Ok(Some(p));
            }
            let ghost closed_b = closed@;
            closed.push(x_idx);
            proof {
                assert(closed@ == closed_b.push(x_idx));
                lemma_close_step_inv(g, pool@, open_b, k as int, closed_b, start, goal, start_idx);
                lemma_close_step_closure(
                    g,
                    pool@,
                    open_b,
                    k as int,
                    closed_b,
                    start,
                    goal,
                    start_idx,
                );
                assert(closed@[closed@.len() - 1] == x_idx);
            }
            let nbrs = match graph.neighbors(&x_pos) {
                Some(nb) => nb,
                None => {
                    proof {
                        assert(false);
                    }
                    return Err(PathError::InvalidVertex);
                }
            };
            let nlen = nbrs.len();
            let mut j: usize = 0;
            proof {
                if g.contains_key(start) && start == goal {
                    assert(x_idx == start_idx);
                    assert(x_pos == start);
                    assert(false);
                }
                if g.contains_key(start) && start != goal && g[start].len() == 0 {
                    assert(open_b.len() == 1 && open_b[0] == start_idx);
                    assert(x_idx == start_idx);
                    assert(x_pos == start);
                    assert(nbrs@.len() == 0);
                    assert(open@.len() == 0);
                }
            }
            while j < nlen
                invariant
                    g == graph@,
                    graph.wf(),
                    costs_fit(g, goal),
                    inv_core(g, pool@, open@, closed@, start, goal, start_idx),
                    closure_ok_except(g, pool@, open@, closed@, x_pos),
                    nbrs_seen(pool@, open@, closed@, nbrs@, j as int),
                    nbrs@ == g[x_pos],
                    nlen == nbrs@.len(),
                    j <= nlen,
                    g.contains_key(x_pos),
                    (x_idx as int) < pool@.len(),
                    pool@[x_idx as int].pos == x_pos,
                    closed@.len() >= 1,
                    closed@[closed@.len() - 1] == x_idx,
                    x_pos != goal,
                    !(g.contains_key(start) && start == goal),
                    (g.contains_key(start) && start != goal && g[start].len() == 0) ==> (
                    nbrs@.len() == 0 && open@.len() == 0),
                    open@.len() >= open_b.len() - 1,
                decreases nlen - j,
            {
                let y: Vertex = nbrs[j];
                proof {
                    assert(nbrs@[j as int] == y);
                    assert(g[x_pos].contains(y));
                    assert(distance_fits(x_pos, y));
                }
                let y_idx = match Self::get_node_index(&pool, &y) {
                    Some(yi) => yi,
                    None => {
                        proof {
                            assert(!g.contains_key(y));
                            assert(!graph_closed(g)) by {
                                if graph_closed(g) {
                                    assert(g.contains_key(y));
                                }
                            }
                        }
                        return Err(PathError::InvalidVertex);
                    }
                };
                if !Self::contains_idx(&closed, y_idx) {
                    proof {
                        assert(g.contains_key(y));
                        assert(closed@.contains(closed@[closed@.len() - 1]));
                        assert(y_idx != x_idx);
                        assert(x_pos != y);
                    }
                    let xn: Node = pool[x_idx];
                    let d: i32 = xn.pos.distance(&y);
                    proof {
                        let c = closed@.len() as int;
                        assert(xn.property.1 <= (c - 1) * 0x7fff_ffff);
                        assert(c <= pool@.len());
                        assert((0x7fff_ffff as int) * 0x7fff_ffff < 0x4000_0000_0000_0000)
                            by (nonlinear_arith);
                        assert(c * 0x7fff_ffff <= 0x7fff_ffff * 0x7fff_ffff) by (nonlinear_arith)
                            requires 0 <= c <= 0x7fff_ffff;
                    }
                    let new_g: i64 = xn.property.1 + (d as i64);
                    let in_open = Self::contains_idx(&open, y_idx);
                    let mut better = true;
                    if in_open {
                        better = new_g < pool[y_idx].property.1;
                    }
                    let ghost pool_b = pool@;
                    if better {
                        proof {
                            assert(heuristic_fits(y, goal));
                        }
                        let hy: i32 = y.hdistance(&goal);
                        let mut yn: Node = pool[y_idx];
                        yn.prev = Some(x_idx);
                        yn.update(new_g, hy as i64);
                        pool[y_idx] = yn;
                        proof {
                            assert(pool@ == pool_b.update(y_idx as int, yn));
                            lemma_update_step(
                                g,
                                pool_b,
                                yn,
                                open@,
                                closed@,
                                start,
                                goal,
                                start_idx,
                                x_idx,
                                y_idx,
                                d as int,
                                x_pos,
                                nbrs@,
                                j as int,
                            );
                            assert(pool@[x_idx as int].pos == x_pos);
                        }
                    }
                    if !in_open {
                        let ghost open_c = open@;
                        open.push(y_idx);
                        proof {
                            assert(open@ == open_c.push(y_idx));
                            assert(pool@[y_idx as int].prev is Some);
                            lemma_push_step(
                                g,
                                pool@,
                                open_c,
                                closed@,
                                y_idx,
                                start,
                                goal,
                                start_idx,
                                x_pos,
                                nbrs@,
                                j as int,
                            );
                        }
                    }
                    proof {
                        assert(seq_has_pos(pool@, open@, y)) by {
                            if in_open {
                                let t = choose|t: int| 0 <= t < open@.len() && open@[t] == y_idx;
                                assert(pool@[(#[trigger] open@[t]) as int].pos == y);
                            } else {
                                assert(open@[open@.len() - 1] == y_idx);
                                assert(pool@[(#[trigger] open@[open@.len() - 1]) as int].pos
                                    == y);
                            }
                        }
                        assert forall|jj: int| 0 <= jj < j as int + 1 implies seq_has_pos(
                            pool@,
                            closed@,
                            #[trigger] nbrs@[jj],
                        ) || seq_has_pos(pool@, open@, nbrs@[jj]) by {
                            if jj == j as int {
                                assert(seq_has_pos(pool@, open@, y));
                            }
                        }
                    }
                } else {
                    proof {
                        assert(seq_has_pos(pool@, closed@, y)) by {
                            let t = choose|t: int| 0 <= t < closed@.len() && closed@[t] == y_idx;
                            assert(pool@[(#[trigger] closed@[t]) as int].pos == y);
                        }
                        assert forall|jj: int| 0 <= jj < j as int + 1 implies seq_has_pos(
                            pool@,
                            closed@,
                            #[trigger] nbrs@[jj],
                        ) || seq_has_pos(pool@, open@, nbrs@[jj]) by {
                            if jj == j as int {
                                assert(seq_has_pos(pool@, closed@, y));
                            }
                        }
                    }
                }
                j = j + 1;
            }
            proof {
                assert forall|c: Vertex, v: Vertex|
                    seq_has_pos(pool@, closed@, c) && g.contains_key(c) && #[trigger] g[c].contains(
                        v,
                    ) implies seq_has_pos(pool@, closed@, v) || seq_has_pos(pool@, open@, v) by {
                    if c == x_pos {
                        let jj = choose|jj: int| 0 <= jj < nbrs@.len() && nbrs@[jj] == v;
                        assert(seq_has_pos(pool@, closed@, #[trigger] nbrs@[jj]) || seq_has_pos(
                            pool@,
                            open@,
                            nbrs@[jj],
                        ));
                    }
                }
            }
        }
        proof {
            lemma_no_path(g, pool@, open@, closed@, start, goal, start_idx);
        }
        Ok(None)
    }
}

/// The search's central state invariant, over the node pool, the open list
/// (indices of candidate nodes) and the closed list (indices of expanded
/// nodes): the pool mirrors the key set one-to-one; open and closed hold
/// valid, distinct, disjoint indices; every node on a chain has a closed
/// predecessor one graph edge away with strictly smaller accumulated cost;
/// scores satisfy `f == g + h` with `g` bounded by the expansion count; and
/// the goal vertex is never expanded.
pub(crate) open spec fn inv_core(
    g: Map<Vertex, Seq<Vertex>>,
    pool: Seq<Node>,
    open: Seq<usize>,
    closed: Seq<usize>,
    start: Vertex,
    goal: Vertex,
    start_idx: usize,
) -> bool {
    &&& pool.len() == g.dom().len()
    &&& pool.len() <= 0x7fff_ffff
    &&& forall|i: int| 0 <= i < pool.len() ==> g.contains_key((#[trigger] pool[i]).pos)
    &&& forall|i: int, j: int|
        0 <= i < pool.len() && 0 <= j < pool.len() && i != j ==> (#[trigger] pool[i]).pos != (
        #[trigger] pool[j]).pos
    &&& forall|k: Vertex| #[trigger] g.contains_key(k) ==> pool_has(pool, k)
    &&& forall|t: int| 0 <= t < open.len() ==> ((#[trigger] open[t]) as int) < pool.len()
    &&& open.no_duplicates()
    &&& forall|t: int| 0 <= t < closed.len() ==> ((#[trigger] closed[t]) as int) < pool.len()
    &&& closed.no_duplicates()
    &&& forall|t: int| 0 <= t < open.len() ==> !closed.contains(#[trigger] open[t])
    &&& closed.len() + open.len() <= pool.len()
    &&& (start_idx as int) < pool.len()
    &&& pool[start_idx as int].pos == start
    &&& open.contains(start_idx) || closed.contains(start_idx)
    &&& forall|t: int| 0 <= t < open.len() ==> linked(pool, start, (#[trigger] open[t]) as int)
    &&& forall|t: int| 0 <= t < closed.len() ==> linked(pool, start, (#[trigger] closed[t]) as int)
    &&& forall|i: int|
        0 <= i < pool.len() ==> ((#[trigger] pool[i]).prev matches Some(p) ==> prev_ok(
            g,
            pool,
            i,
            p,
        ) && closed.contains(p))
    &&& forall|i: int|
        0 <= i < pool.len() ==> {
            let nd = #[trigger] pool[i];
            &&& nd.property.0 == nd.property.1 + nd.property.2
            &&& 0 <= nd.property.1
            &&& 0 <= nd.property.2
            &&& nd.property.1 <= closed.len() * 0x7fff_ffff
        }
    &&& forall|t: int|
        0 <= t < closed.len() ==> pool[(#[trigger] closed[t]) as int].property.1 <= t * 0x7fff_ffff
    &&& !seq_has_pos(pool, closed, goal)
}

/// Every neighbor of an expanded vertex has been seen: it is expanded
/// itself or waits in the open list.
pub(crate) open spec fn closure_ok(
    g: Map<Vertex, Seq<Vertex>>,
    pool: Seq<Node>,
    open: Seq<usize>,
    closed: Seq<usize>,
) -> bool {
    forall|c: Vertex, v: Vertex|
        seq_has_pos(pool, closed, c) && g.contains_key(c) && #[trigger] g[c].contains(v)
            ==> seq_has_pos(pool, closed, v) || seq_has_pos(pool, open, v)
}

/// `closure_ok` for every expanded vertex but `xv`, whose neighbors are
/// still being worked through.
pub(crate) open spec fn closure_ok_except(
    g: Map<Vertex, Seq<Vertex>>,
    pool: Seq<Node>,
    open: Seq<usize>,
    closed: Seq<usize>,
    xv: Vertex,
) -> bool {
    forall|c: Vertex, v: Vertex|
        c != xv && seq_has_pos(pool, closed, c) && g.contains_key(c) && #[trigger] g[c].contains(v)
            ==> seq_has_pos(pool, closed, v) || seq_has_pos(pool, open, v)
}

/// Two duplicate-free, disjoint lists of indices below `n` cannot together
/// hold more than `n` entries.
proof fn lemma_disjoint_card(a: Seq<usize>, b: Seq<usize>, n: int)
    requires
        a.no_duplicates(),
        b.no_duplicates(),
        forall|t: int| 0 <= t < a.len() ==> ((#[trigger] a[t]) as int) < n,
        forall|t: int| 0 <= t < b.len() ==> ((#[trigger] b[t]) as int) < n,
        forall|t: int| 0 <= t < a.len() ==> !b.contains(#[trigger] a[t]),
        0 <= n,
    ensures
        a.len() + b.len() <= n,
{
    broadcast use vstd::seq_lib::group_seq_properties;

    let c = a + b;
    assert forall|i: int, j: int| 0 <= i < a.len() && 0 <= j < b.len() implies a[i] != b[j] by {
        if a[i] == b[j] {
            assert(b.contains(a[i]));
        }
    }
    vstd::seq_lib::lemma_no_dup_in_concat(a, b);
    let ci = c.map_values(|u: usize| u as int);
    assert(ci.no_duplicates()) by {
        assert forall|i: int, j: int|
            0 <= i < ci.len() && 0 <= j < ci.len() && i != j implies ci[i] != ci[j] by {
            assert(c[i] != c[j]);
        }
    }
    ci.unique_seq_to_set();
    let rng = vstd::set_lib::set_int_range(0, n);
    vstd::set_lib::lemma_int_range(0, n);
    assert(ci.to_set().subset_of(rng)) by {
        assert forall|x: int| ci.to_set().contains(x) implies rng.contains(x) by {
            assert(ci.contains(x));
            let t = choose|t: int| 0 <= t < ci.len() && ci[t] == x;
            assert(c[t] == if t < a.len() { a[t] } else { b[t - a.len()] });
        }
    }
    vstd::set_lib::lemma_len_subset(ci.to_set(), rng);
}

/// A walk that starts among the expanded vertices, in a state where every
/// neighbor of an expanded vertex is itself expanded, never leaves them.
proof fn lemma_walk_stays(
    g: Map<Vertex, Seq<Vertex>>,
    pool: Seq<Node>,
    closed: Seq<usize>,
    w: Seq<Vertex>,
    i: int,
)
    requires
        is_walk(g, w),
        seq_has_pos(pool, closed, w[0]),
        forall|c: Vertex, v: Vertex|
            seq_has_pos(pool, closed, c) && g.contains_key(c) && #[trigger] g[c].contains(v)
                ==> seq_has_pos(pool, closed, v),
        0 <= i < w.len(),
    ensures
        seq_has_pos(pool, closed, w[i]),
    decreases i,
{
    if i > 0 {
        lemma_walk_stays(g, pool, closed, w, i - 1);
        assert(g.contains_key(w[i - 1]) && g[w[i - 1]].contains(w[i]));
    }
}

/// A returned goal-first path witnesses that the goal is reachable: its
/// reversal is a start-to-goal walk.
proof fn lemma_path_reachable(g: Map<Vertex, Seq<Vertex>>, p: Seq<Vertex>, start: Vertex, goal: Vertex)
    requires
        path_ok(g, p, start, goal),
    ensures
        reachable(g, start, goal),
{
    let n = p.len();
    let w = Seq::new(n, |i: int| p[n - 1 - i]);
    assert forall|i: int| 0 <= i < w.len() - 1 implies g.contains_key(#[trigger] w[i])
        && g[w[i]].contains(w[i + 1]) by {
        assert(p[(n - 2 - i) + 1] == w[i]);
        assert(p[n - 2 - i] == w[i + 1]);
    }
    assert(is_walk(g, w) && w[0] == start && w[w.len() - 1] == goal);
}


/// The first `j` neighbors of the vertex being expanded have each been
/// seen: expanded already, or waiting in the open list.
pub(crate) open spec fn nbrs_seen(
    pool: Seq<Node>,
    open: Seq<usize>,
    closed: Seq<usize>,
    nbrs: Seq<Vertex>,
    j: int,
) -> bool {
    forall|jj: int|
        0 <= jj < j ==> seq_has_pos(pool, closed, #[trigger] nbrs[jj]) || seq_has_pos(
            pool,
            open,
            nbrs[jj],
        )
}

/// What removing position `k` from a duplicate-free list leaves: one
/// occurrence fewer of that entry and everything else kept.
proof fn lemma_remove_facts(s: Seq<usize>, k: int)
    requires
        0 <= k < s.len(),
        s.no_duplicates(),
    ensures
        s.remove(k).len() == s.len() - 1,
        s.remove(k).no_duplicates(),
        !s.remove(k).contains(s[k]),
        forall|u: usize| #[trigger] s.remove(k).contains(u) ==> s.contains(u),
        forall|u: usize| s.contains(u) && u != s[k] ==> #[trigger] s.remove(k).contains(u),
{
    s.remove_ensures(k);
    let r = s.remove(k);
    assert forall|u: usize| #[trigger] r.contains(u) implies s.contains(u) by {
        let t = choose|t: int| 0 <= t < r.len() && r[t] == u;
        if t < k {
            assert(s[t] == u);
        } else {
            assert(s[t + 1] == u);
        }
    }
    assert forall|u: usize| s.contains(u) && u != s[k] implies #[trigger] r.contains(u) by {
        let t = choose|t: int| 0 <= t < s.len() && s[t] == u;
        if t < k {
            assert(r[t] == u);
        } else {
            assert(t != k);
            assert(r[t - 1] == u);
        }
    }
    assert(r.no_duplicates()) by {
        assert forall|i: int, j: int|
            0 <= i < r.len() && 0 <= j < r.len() && i != j implies r[i] != r[j] by {
            let i0: int = if i < k { i } else { i + 1 };
            let j0: int = if j < k { j } else { j + 1 };
            assert(r[i] == s[i0] && r[j] == s[j0]);
        }
    }
    assert(!r.contains(s[k])) by {
        if r.contains(s[k]) {
            let t = choose|t: int| 0 <= t < r.len() && r[t] == s[k];
            let t0: int = if t < k { t } else { t + 1 };
            assert(r[t] == s[t0] && t0 != k);
        }
    }
}

/// The search invariant gives the reconstruction exactly the chain
/// well-formedness it asks for.
proof fn lemma_inv_rec_wf(
    g: Map<Vertex, Seq<Vertex>>,
    pool: Seq<Node>,
    open: Seq<usize>,
    closed: Seq<usize>,
    start: Vertex,
    goal: Vertex,
    start_idx: usize,
)
    requires
        inv_core(g, pool, open, closed, start, goal, start_idx),
    ensures
        rec_wf(g, pool, start),
{
    assert forall|i: int|
        0 <= i < pool.len() implies ((#[trigger] pool[i]).prev matches Some(p) ==> prev_ok(
        g,
        pool,
        i,
        p,
    ) && linked(pool, start, p as int)) by {
        if pool[i].prev is Some {
            let p = pool[i].prev->Some_0;
            assert(closed.contains(p));
            let t = choose|t: int| 0 <= t < closed.len() && closed[t] == p;
            assert(linked(pool, start, (#[trigger] closed[t]) as int));
        }
    }
}

/// Moving the popped node from the open list onto the closed list keeps
/// the search invariant, and keeps the neighbor-closure for every expanded
/// vertex but the one just popped.
#[verifier::rlimit(100)]
#[verifier::spinoff_prover]
proof fn lemma_close_step_inv(
    g: Map<Vertex, Seq<Vertex>>,
    pool: Seq<Node>,
    open_b: Seq<usize>,
    k: int,
    closed_b: Seq<usize>,
    start: Vertex,
    goal: Vertex,
    start_idx: usize,
)
    requires
        inv_core(g, pool, open_b, closed_b, start, goal, start_idx),
        0 <= k < open_b.len(),
        pool[(open_b[k]) as int].pos != goal,
    ensures
        inv_core(g, pool, open_b.remove(k), closed_b.push(open_b[k]), start, goal, start_idx),
{
    let x_idx = open_b[k];
    let open_a = open_b.remove(k);
    let closed_a = closed_b.push(x_idx);
    let c0 = closed_b.len() as int;
    lemma_remove_facts(open_b, k);
    assert(open_b.contains(x_idx));
    assert(!closed_b.contains(#[trigger] open_b[k]));
    assert(closed_a[c0] == x_idx);
    assert(closed_a.contains(closed_a[c0]));
    assert(closed_a.no_duplicates()) by {
        assert forall|i: int, j: int|
            0 <= i < closed_a.len() && 0 <= j < closed_a.len() && i != j implies closed_a[i]
            != closed_a[j] by {
            if i < c0 && j < c0 {
            } else if i < c0 {
                if closed_a[i] == closed_a[j] {
                    assert(closed_b.contains(closed_b[i]));
                }
            } else if j < c0 {
                if closed_a[i] == closed_a[j] {
                    assert(closed_b.contains(closed_b[j]));
                }
            }
        }
    }
    assert forall|t: int| 0 <= t < open_a.len() implies !closed_a.contains(
        #[trigger] open_a[t]) by {
        assert(open_a.contains(open_a[t]));
        assert(open_b.contains(open_a[t]));
        assert(open_a[t] != x_idx) by {
            if open_a[t] == x_idx {
                assert(open_a.contains(x_idx));
            }
        }
        if closed_a.contains(open_a[t]) {
            let u = choose|u: int| 0 <= u < closed_a.len() && closed_a[u] == open_a[t];
            if u < c0 {
                let w = choose|w: int| 0 <= w < open_b.len() && open_b[w] == open_a[t];
                assert(!closed_b.contains(#[trigger] open_b[w]));
                assert(closed_b.contains(closed_b[u]));
            }
        }
    }
    assert forall|t: int|
        0 <= t < open_a.len() implies ((#[trigger] open_a[t]) as int) < pool.len() && linked(
        pool,
        start,
        open_a[t] as int,
    ) by {
        assert(open_a.contains(open_a[t]));
        assert(open_b.contains(open_a[t]));
        let w = choose|w: int| 0 <= w < open_b.len() && open_b[w] == open_a[t];
        assert(((#[trigger] open_b[w]) as int) < pool.len());
        assert(linked(pool, start, open_b[w] as int));
    }
    assert(open_a.contains(start_idx) || closed_a.contains(start_idx)) by {
        if open_b.contains(start_idx) {
            if start_idx == x_idx {
                assert(closed_a.contains(closed_a[c0]));
            } else {
                assert(open_a.contains(start_idx));
            }
        } else {
            assert(closed_b.contains(start_idx));
            let u = choose|u: int| 0 <= u < closed_b.len() && closed_b[u] == start_idx;
            assert(closed_a[u] == start_idx);
            assert(closed_a.contains(closed_a[u]));
        }
    }
    assert forall|t: int|
        0 <= t < closed_a.len() implies ((#[trigger] closed_a[t]) as int) < pool.len() && linked(
        pool,
        start,
        closed_a[t] as int,
    ) && pool[(closed_a[t]) as int].property.1 <= t * 0x7fff_ffff by {
        if t < c0 {
            assert(closed_a[t] == closed_b[t]);
            assert(((#[trigger] closed_b[t]) as int) < pool.len());
            assert(linked(pool, start, closed_b[t] as int));
            assert(pool[(closed_b[t]) as int].property.1 <= t * 0x7fff_ffff);
        } else {
            assert(closed_a[t] == x_idx);
            assert(linked(pool, start, (#[trigger] open_b[k]) as int));
            assert(pool[x_idx as int].property.1 <= c0 * 0x7fff_ffff);
        }
    }
    assert forall|i: int|
        0 <= i < pool.len() implies ((#[trigger] pool[i]).prev matches Some(p) ==> prev_ok(
        g,
        pool,
        i,
        p,
    ) && closed_a.contains(p)) by {
        if pool[i].prev is Some {
            let p = pool[i].prev->Some_0;
            assert(closed_b.contains(p));
            let u = choose|u: int| 0 <= u < closed_b.len() && closed_b[u] == p;
            assert(closed_a[u] == p);
            assert(closed_a.contains(closed_a[u]));
        }
    }
    assert forall|i: int|
        0 <= i < pool.len() implies (#[trigger] pool[i]).property.1 <= closed_a.len()
        * 0x7fff_ffff by {
        assert(pool[i].property.1 <= closed_b.len() * 0x7fff_ffff);
    }
    lemma_disjoint_card(open_a, closed_a, pool.len() as int);
    assert(!seq_has_pos(pool, closed_a, goal)) by {
        if seq_has_pos(pool, closed_a, goal) {
            let t = choose|t: int|
                0 <= t < closed_a.len() && pool[(#[trigger] closed_a[t]) as int].pos == goal;
            if t < c0 {
                assert(pool[(#[trigger] closed_b[t]) as int].pos == goal);
                assert(seq_has_pos(pool, closed_b, goal));
            }
        }
    }
    assert(inv_core(g, pool, open_a, closed_a, start, goal, start_idx));
}

/// The neighbor-closure survives the pop-and-close move, for every expanded
/// vertex but the one just popped.
#[verifier::rlimit(100)]
#[verifier::spinoff_prover]
proof fn lemma_close_step_closure(
    g: Map<Vertex, Seq<Vertex>>,
    pool: Seq<Node>,
    open_b: Seq<usize>,
    k: int,
    closed_b: Seq<usize>,
    start: Vertex,
    goal: Vertex,
    start_idx: usize,
)
    requires
        inv_core(g, pool, open_b, closed_b, start, goal, start_idx),
        closure_ok(g, pool, open_b, closed_b),
        0 <= k < open_b.len(),
    ensures
        closure_ok_except(
            g,
            pool,
            open_b.remove(k),
            closed_b.push(open_b[k]),
            pool[(open_b[k]) as int].pos,
        ),
{
    let x_idx = open_b[k];
    let open_a = open_b.remove(k);
    let closed_a = closed_b.push(x_idx);
    let c0 = closed_b.len() as int;
    lemma_remove_facts(open_b, k);
    assert(closed_a[c0] == x_idx);
    assert forall|c: Vertex, v: Vertex|
        c != pool[x_idx as int].pos && seq_has_pos(pool, closed_a, c) && g.contains_key(c)
            && #[trigger] g[c].contains(v) implies seq_has_pos(pool, closed_a, v) || seq_has_pos(
        pool,
        open_a,
        v,
    ) by {
        let t = choose|t: int|
            0 <= t < closed_a.len() && pool[(#[trigger] closed_a[t]) as int].pos == c;
        assert(t < c0);
        assert(pool[(#[trigger] closed_b[t]) as int].pos == c);
        assert(seq_has_pos(pool, closed_b, c));
        assert(seq_has_pos(pool, closed_b, v) || seq_has_pos(pool, open_b, v));
        if seq_has_pos(pool, closed_b, v) {
            let u = choose|u: int|
                0 <= u < closed_b.len() && pool[(#[trigger] closed_b[u]) as int].pos == v;
            assert(pool[(#[trigger] closed_a[u]) as int].pos == v);
        } else {
            let u = choose|u: int|
                0 <= u < open_b.len() && pool[(#[trigger] open_b[u]) as int].pos == v;
            if open_b[u] == x_idx {
                assert(pool[(#[trigger] closed_a[c0]) as int].pos == v);
            } else {
                assert(open_b.contains(open_b[u]));
                assert(open_a.contains(open_b[u]));
                let w = choose|w: int| 0 <= w < open_a.len() && open_a[w] == open_b[u];
                assert(pool[(#[trigger] open_a[w]) as int].pos == v);
            }
        }
    }
}

/// Rewriting one unexpanded node's scores and predecessor — to hang off the
/// node just expanded, one edge and a strictly positive cost away — keeps
/// the search invariant and everything already seen.
proof fn lemma_update_step(
    g: Map<Vertex, Seq<Vertex>>,
    pool_b: Seq<Node>,
    yn: Node,
    open: Seq<usize>,
    closed: Seq<usize>,
    start: Vertex,
    goal: Vertex,
    start_idx: usize,
    x_idx: usize,
    y_idx: usize,
    d: int,
    xv: Vertex,
    nbrs: Seq<Vertex>,
    j: int,
)
    requires
        inv_core(g, pool_b, open, closed, start, goal, start_idx),
        closure_ok_except(g, pool_b, open, closed, xv),
        nbrs_seen(pool_b, open, closed, nbrs, j),
        (y_idx as int) < pool_b.len(),
        !closed.contains(y_idx),
        closed.len() >= 1,
        closed[closed.len() - 1] == x_idx,
        yn.pos == pool_b[y_idx as int].pos,
        yn.prev == Some(x_idx),
        g[pool_b[x_idx as int].pos].contains(yn.pos),
        yn.property.0 == yn.property.1 + yn.property.2,
        0 <= yn.property.2,
        yn.property.1 == pool_b[x_idx as int].property.1 + d,
        1 <= d <= 0x7fff_ffff,
    ensures
        inv_core(g, pool_b.update(y_idx as int, yn), open, closed, start, goal, start_idx),
        closure_ok_except(g, pool_b.update(y_idx as int, yn), open, closed, xv),
        nbrs_seen(pool_b.update(y_idx as int, yn), open, closed, nbrs, j),
{
    let pool_a = pool_b.update(y_idx as int, yn);
    let c = closed.len() as int;
    assert(closed.contains(closed[c - 1]));
    assert((x_idx as int) < pool_b.len());
    assert(x_idx != y_idx);
    assert forall|i: int| 0 <= i < pool_a.len() implies (#[trigger] pool_a[i]).pos
        == pool_b[i].pos by {}
    assert forall|v: Vertex| #[trigger] seq_has_pos(pool_b, open, v) implies seq_has_pos(
        pool_a,
        open,
        v,
    ) by {
        let t = choose|t: int| 0 <= t < open.len() && pool_b[(#[trigger] open[t]) as int].pos == v;
        assert(pool_a[(#[trigger] open[t]) as int].pos == v);
    }
    assert forall|v: Vertex| #[trigger] seq_has_pos(pool_a, open, v) implies seq_has_pos(
        pool_b,
        open,
        v,
    ) by {
        let t = choose|t: int| 0 <= t < open.len() && pool_a[(#[trigger] open[t]) as int].pos == v;
        assert(pool_b[(#[trigger] open[t]) as int].pos == v);
    }
    assert forall|v: Vertex| #[trigger] seq_has_pos(pool_b, closed, v) implies seq_has_pos(
        pool_a,
        closed,
        v,
    ) by {
        let t = choose|t: int|
            0 <= t < closed.len() && pool_b[(#[trigger] closed[t]) as int].pos == v;
        assert(pool_a[(#[trigger] closed[t]) as int].pos == v);
    }
    assert forall|v: Vertex| #[trigger] seq_has_pos(pool_a, closed, v) implies seq_has_pos(
        pool_b,
        closed,
        v,
    ) by {
        let t = choose|t: int|
            0 <= t < closed.len() && pool_a[(#[trigger] closed[t]) as int].pos == v;
        assert(pool_b[(#[trigger] closed[t]) as int].pos == v);
    }
    assert forall|kv: Vertex| #[trigger] g.contains_key(kv) implies pool_has(pool_a, kv) by {
        let i = choose|i: int| 0 <= i < pool_b.len() && (#[trigger] pool_b[i]).pos == kv;
        assert(pool_a[i].pos == kv);
    }
    assert forall|i: int|
        0 <= i < pool_a.len() implies ((#[trigger] pool_a[i]).prev matches Some(p) ==> prev_ok(
        g,
        pool_a,
        i,
        p,
    ) && closed.contains(p)) by {
        if pool_a[i].prev is Some {
            let p = pool_a[i].prev->Some_0;
            if i == y_idx as int {
                assert(p == x_idx);
                assert(pool_a[x_idx as int] == pool_b[x_idx as int]);
                assert(pool_a[x_idx as int].property.1 < yn.property.1);
            } else {
                assert(pool_a[i] == pool_b[i]);
                assert(pool_b[i].prev is Some && pool_b[i].prev->Some_0 == p);
                assert(prev_ok(g, pool_b, i, p) && closed.contains(p));
                assert(p != y_idx);
                assert(pool_a[p as int] == pool_b[p as int]);
            }
        }
    }
    assert(pool_b[x_idx as int].property.1 <= (c - 1) * 0x7fff_ffff);
    assert forall|i: int|
        0 <= i < pool_a.len() implies {
        let nd = #[trigger] pool_a[i];
        &&& nd.property.0 == nd.property.1 + nd.property.2
        &&& 0 <= nd.property.1
        &&& 0 <= nd.property.2
        &&& nd.property.1 <= closed.len() * 0x7fff_ffff
    } by {
        if i != y_idx as int {
            assert(pool_a[i] == pool_b[i]);
        }
    }
    assert forall|t: int|
        0 <= t < closed.len() implies pool_a[(#[trigger] closed[t]) as int].property.1 <= t
        * 0x7fff_ffff by {
        assert(closed.contains(closed[t]));
        assert(closed[t] != y_idx);
        assert(pool_a[(closed[t]) as int] == pool_b[(closed[t]) as int]);
        assert(pool_b[(#[trigger] closed[t]) as int].property.1 <= t * 0x7fff_ffff);
    }
    assert(!seq_has_pos(pool_a, closed, goal)) by {
        if seq_has_pos(pool_a, closed, goal) {
            assert(seq_has_pos(pool_b, closed, goal));
        }
    }
    assert forall|t: int| 0 <= t < open.len() implies linked(
        pool_a,
        start,
        (#[trigger] open[t]) as int,
    ) by {
        if open[t] == y_idx {
            assert(pool_a[y_idx as int].prev is Some);
        } else {
            assert(pool_a[(open[t]) as int] == pool_b[(open[t]) as int]);
            assert(linked(pool_b, start, open[t] as int));
        }
    }
    assert forall|t: int| 0 <= t < closed.len() implies linked(
        pool_a,
        start,
        (#[trigger] closed[t]) as int,
    ) by {
        assert(closed.contains(closed[t]));
        assert(closed[t] != y_idx);
        assert(pool_a[(closed[t]) as int] == pool_b[(closed[t]) as int]);
        assert(linked(pool_b, start, closed[t] as int));
    }
    assert(inv_core(g, pool_a, open, closed, start, goal, start_idx));
    assert forall|cv: Vertex, v: Vertex|
        cv != xv && seq_has_pos(pool_a, closed, cv) && g.contains_key(cv)
            && #[trigger] g[cv].contains(v) implies seq_has_pos(pool_a, closed, v) || seq_has_pos(
            pool_a,
            open,
            v,
        ) by {
        assert(seq_has_pos(pool_b, closed, cv));
        assert(seq_has_pos(pool_b, closed, v) || seq_has_pos(pool_b, open, v));
    }
    assert forall|jj: int| 0 <= jj < j implies seq_has_pos(pool_a, closed, #[trigger] nbrs[jj])
        || seq_has_pos(pool_a, open, nbrs[jj]) by {
        assert(seq_has_pos(pool_b, closed, nbrs[jj]) || seq_has_pos(pool_b, open, nbrs[jj]));
    }
}

/// Appending a newly reached node to the open list keeps the search
/// invariant and everything already seen.
proof fn lemma_push_step(
    g: Map<Vertex, Seq<Vertex>>,
    pool: Seq<Node>,
    open_c: Seq<usize>,
    closed: Seq<usize>,
    y_idx: usize,
    start: Vertex,
    goal: Vertex,
    start_idx: usize,
    xv: Vertex,
    nbrs: Seq<Vertex>,
    j: int,
)
    requires
        inv_core(g, pool, open_c, closed, start, goal, start_idx),
        closure_ok_except(g, pool, open_c, closed, xv),
        nbrs_seen(pool, open_c, closed, nbrs, j),
        !open_c.contains(y_idx),
        !closed.contains(y_idx),
        (y_idx as int) < pool.len(),
        linked(pool, start, y_idx as int),
    ensures
        inv_core(g, pool, open_c.push(y_idx), closed, start, goal, start_idx),
        closure_ok_except(g, pool, open_c.push(y_idx), closed, xv),
        nbrs_seen(pool, open_c.push(y_idx), closed, nbrs, j),
{
    let open_a = open_c.push(y_idx);
    let o0 = open_c.len() as int;
    assert(open_a[o0] == y_idx);
    assert(open_a.no_duplicates()) by {
        assert forall|i: int, j2: int|
            0 <= i < open_a.len() && 0 <= j2 < open_a.len() && i != j2 implies open_a[i]
            != open_a[j2] by {
            if i < o0 && j2 < o0 {
            } else if i < o0 {
                if open_a[i] == open_a[j2] {
                    assert(open_c.contains(open_c[i]));
                }
            } else if j2 < o0 {
                if open_a[i] == open_a[j2] {
                    assert(open_c.contains(open_c[j2]));
                }
            }
        }
    }
    assert forall|t: int|
        0 <= t < open_a.len() implies ((#[trigger] open_a[t]) as int) < pool.len() && linked(
        pool,
        start,
        open_a[t] as int,
    ) && !closed.contains(open_a[t]) by {
        if t < o0 {
            assert(open_a[t] == open_c[t]);
            assert(((#[trigger] open_c[t]) as int) < pool.len());
            assert(linked(pool, start, open_c[t] as int));
            assert(!closed.contains(open_c[t]));
        }
    }
    assert(open_a.contains(start_idx) || closed.contains(start_idx)) by {
        if open_c.contains(start_idx) {
            let u = choose|u: int| 0 <= u < open_c.len() && open_c[u] == start_idx;
            assert(open_a[u] == start_idx);
            assert(open_a.contains(open_a[u]));
        }
    }
    lemma_disjoint_card(open_a, closed, pool.len() as int);
    assert(inv_core(g, pool, open_a, closed, start, goal, start_idx));
    assert forall|v: Vertex| #[trigger] seq_has_pos(pool, open_c, v) implies seq_has_pos(
        pool,
        open_a,
        v,
    ) by {
        let t = choose|t: int|
            0 <= t < open_c.len() && pool[(#[trigger] open_c[t]) as int].pos == v;
        assert(pool[(#[trigger] open_a[t]) as int].pos == v);
    }
    assert forall|c: Vertex, v: Vertex|
        c != xv && seq_has_pos(pool, closed, c) && g.contains_key(c) && #[trigger] g[c].contains(
            v,
        ) implies seq_has_pos(pool, closed, v) || seq_has_pos(pool, open_a, v) by {
        assert(seq_has_pos(pool, closed, v) || seq_has_pos(pool, open_c, v));
    }
    assert forall|jj: int| 0 <= jj < j implies seq_has_pos(pool, closed, #[trigger] nbrs[jj])
        || seq_has_pos(pool, open_a, nbrs[jj]) by {
        assert(seq_has_pos(pool, closed, nbrs[jj]) || seq_has_pos(pool, open_c, nbrs[jj]));
    }
}

/// When the open list runs dry, the expanded vertices are closed under
/// adjacency, hold the start vertex, and never held the goal: no walk from
/// start can reach the goal.
proof fn lemma_no_path(
    g: Map<Vertex, Seq<Vertex>>,
    pool: Seq<Node>,
    open: Seq<usize>,
    closed: Seq<usize>,
    start: Vertex,
    goal: Vertex,
    start_idx: usize,
)
    requires
        inv_core(g, pool, open, closed, start, goal, start_idx),
        closure_ok(g, pool, open, closed),
        open.len() == 0,
    ensures
        !reachable(g, start, goal),
{
    assert(!open.contains(start_idx)) by {
        if open.contains(start_idx) {
            let t = choose|t: int| 0 <= t < open.len() && open[t] == start_idx;
        }
    }
    assert(closed.contains(start_idx));
    let t0 = choose|t: int| 0 <= t < closed.len() && closed[t] == start_idx;
    assert(pool[(#[trigger] closed[t0]) as int].pos == start);
    assert(seq_has_pos(pool, closed, start));
    if reachable(g, start, goal) {
        let w = choose|w: Seq<Vertex>|
            #[trigger] is_walk(g, w) && w[0] == start && w[w.len() - 1] == goal;
        assert forall|c: Vertex, v: Vertex|
            seq_has_pos(pool, closed, c) && g.contains_key(c) && #[trigger] g[c].contains(
                v,
            ) implies seq_has_pos(pool, closed, v) by {
            assert(seq_has_pos(pool, closed, v) || seq_has_pos(pool, open, v));
            if seq_has_pos(pool, open, v) {
                let t = choose|t: int|
                    0 <= t < open.len() && pool[(#[trigger] open[t]) as int].pos == v;
            }
        }
        lemma_walk_stays(g, pool, closed, w, w.len() - 1);
        assert(seq_has_pos(pool, closed, goal));
        assert(false);
    }
}

} // verus!
