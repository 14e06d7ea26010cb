//! The frame graph: named frames connected by rigid-transform edges.
//!
//! The graph is always a forest — its undirected structure has no cycles and
//! no self-loops — so any two frames are connected by at most one simple
//! path, and the transform between two connected frames is well defined.
//! Every mutating operation keeps the invariant; an insertion that would
//! close a cycle is rejected and leaves the graph exactly as it was.

use vstd::prelude::*;

use crate::bytes_eq;
use crate::error::Error;
use crate::se3::Se3;
use crate::se3::identity7;
use crate::se3::pose_inverse;
use crate::se3::pose_product;

verus! {

/// One edge of the graph: its two endpoint frames (as positions in the frame
/// list) and the transform recorded from `a` to `b` — the edge's canonical
/// direction. Traversing the edge from `b` to `a` uses the inverse.
#[derive(Clone, Copy, Debug)]
pub struct Edge {
    pub a: usize,
    pub b: usize,
    pub tf: Se3,
}

/// Whether edge `e` joins frames `x` and `y`, in either direction.
pub open spec fn links(e: Edge, x: usize, y: usize) -> bool {
    (e.a == x && e.b == y) || (e.a == y && e.b == x)
}

/// Whether some edge joins `x` and `y`, in either direction.
pub open spec fn adj(es: Seq<Edge>, x: usize, y: usize) -> bool {
    exists|k: int| 0 <= k < es.len() && links(#[trigger] es[k], x, y)
}

/// Whether `p` walks from `x` to `y` along edges of `es`.
pub open spec fn is_path(es: Seq<Edge>, p: Seq<usize>, x: usize, y: usize) -> bool {
    &&& p.len() >= 1
    &&& p[0] == x
    &&& p[p.len() - 1] == y
    &&& forall|i: int| 0 <= i < p.len() - 1 ==> adj(es, #[trigger] p[i], p[i + 1])
}

/// Whether some walk joins `x` and `y` (reflexive: the one-frame walk).
pub open spec fn connected(es: Seq<Edge>, x: usize, y: usize) -> bool {
    exists|p: Seq<usize>| is_path(es, p, x, y)
}

/// The forest invariant: no edge is a self-loop, and every edge joined two
/// frames that the earlier edges had not connected. A graph built this way
/// has no cycles, so a pair of frames is joined by at most one simple path.
pub open spec fn forest(es: Seq<Edge>) -> bool {
    forall|k: int| 0 <= k < es.len()
        ==> (#[trigger] es[k]).a != es[k].b && !connected(es.take(k), es[k].a, es[k].b)
}

/// Whether the frame names are pairwise distinct.
pub open spec fn names_ok(ns: Seq<Seq<u8>>) -> bool {
    forall|i: int, j: int| 0 <= i < j < ns.len() ==> ns[i] != ns[j]
}

/// Whether every edge endpoint is a position in the frame list.
pub open spec fn edges_ok(es: Seq<Edge>, n: int) -> bool {
    forall|k: int| 0 <= k < es.len() ==> (#[trigger] es[k]).a < n && es[k].b < n
}

/// Whether the frame list holds the name `s`.
pub open spec fn has_name(ns: Seq<Seq<u8>>, s: Seq<u8>) -> bool {
    exists|i: usize| i < ns.len() && ns[i as int] == s
}

/// The position of the name `s` in the frame list (meaningful only when
/// `has_name`; positions are unique when `names_ok`).
pub open spec fn name_idx(ns: Seq<Seq<u8>>, s: Seq<u8>) -> usize {
    choose|i: usize| i < ns.len() && ns[i as int] == s
}

/// Whether some edge runs from `a` to `b` in that canonical direction.
pub open spec fn has_canon(es: Seq<Edge>, a: usize, b: usize) -> bool {
    exists|k: int| 0 <= k < es.len() && (#[trigger] es[k]).a == a && es[k].b == b
}

proof fn lemma_name_idx(ns: Seq<Seq<u8>>, s: Seq<u8>, i: usize)
    requires
        names_ok(ns),
        i < ns.len(),
        ns[i as int] == s,
    ensures
        has_name(ns, s),
        name_idx(ns, s) == i,
{
    assert(has_name(ns, s));
    let c = name_idx(ns, s);
    assert(c < ns.len() && ns[c as int] == s);
    if c < i {
        assert(ns[c as int] != ns[i as int]);
    }
    if c > i {
        assert(ns[i as int] != ns[c as int]);
    }
}

proof fn lemma_forest_push(es: Seq<Edge>, e: Edge)
    requires
        forest(es),
        e.a != e.b,
        !connected(es, e.a, e.b),
    ensures
        forest(es.push(e)),
{
    let es1 = es.push(e);
    assert forall|k: int| 0 <= k < es1.len()
        implies (#[trigger] es1[k]).a != es1[k].b && !connected(es1.take(k), es1[k].a, es1[k].b) by {
        assert(es1.take(k) =~= es.take(k));
        if k < es.len() {
            assert(es1[k] == es[k]);
        } else {
            assert(es1[k] == e);
            assert(es.take(k) =~= es);
        }
    }
}

proof fn lemma_forest_same_links(es1: Seq<Edge>, es2: Seq<Edge>)
    requires
        es1.len() == es2.len(),
        forall|k: int| 0 <= k < es1.len()
            ==> (#[trigger] es2[k]).a == es1[k].a && es2[k].b == es1[k].b,
        forest(es1),
    ensures
        forest(es2),
{
    assert forall|k: int| 0 <= k < es2.len()
        implies (#[trigger] es2[k]).a != es2[k].b && !connected(es2.take(k), es2[k].a, es2[k].b) by {
        assert(es1[k].a != es1[k].b && !connected(es1.take(k), es1[k].a, es1[k].b));
        if connected(es2.take(k), es2[k].a, es2[k].b) {
            let p = choose|p: Seq<usize>| is_path(es2.take(k), p, es2[k].a, es2[k].b);
            assert forall|i: int| 0 <= i < p.len() - 1 implies adj(
                es1.take(k),
                #[trigger] p[i],
                p[i + 1],
            ) by {
                let j = choose|j: int|
                    0 <= j < es2.take(k).len() && links(#[trigger] es2.take(k)[j], p[i], p[i + 1]);
                assert(links(es1.take(k)[j], p[i], p[i + 1]));
            }
            assert(is_path(es1.take(k), p, es1[k].a, es1[k].b));
        }
    }
}

proof fn lemma_fresh_not_connected(es: Seq<Edge>, n: usize, x: usize, y: usize)
    requires
        edges_ok(es, n as int),
        x != y,
        x >= n || y >= n,
    ensures
        !connected(es, x, y),
{
    if connected(es, x, y) {
        let p = choose|p: Seq<usize>| is_path(es, p, x, y);
        assert(p.len() >= 2);
        if y >= n {
            assert(adj(es, p[p.len() - 2], p[p.len() - 1]));
            let k = choose|k: int| 0 <= k < es.len() && links(#[trigger] es[k], p[p.len() - 2], y);
            assert(false);
        } else {
            assert(adj(es, p[0], p[1]));
            let k = choose|k: int| 0 <= k < es.len() && links(#[trigger] es[k], x, p[1]);
            assert(false);
        }
    }
}

proof fn lemma_path_extend(es: Seq<Edge>, p: Seq<usize>, x: usize, y: usize, z: usize)
    requires
        is_path(es, p, x, y),
        adj(es, y, z),
    ensures
        is_path(es, p.push(z), x, z),
{
    let q = p.push(z);
    assert(q[q.len() - 1] == z);
    assert forall|i: int| 0 <= i < q.len() - 1 implies adj(es, #[trigger] q[i], q[i + 1]) by {
        if i < p.len() - 1 {
            assert(q[i] == p[i] && q[i + 1] == p[i + 1]);
        } else {
            assert(q[i] == p[p.len() - 1] && q[i + 1] == z);
        }
    }
}

proof fn lemma_closed_visited(es: Seq<Edge>, n: usize, visited: Seq<bool>, p: Seq<usize>, x: usize, y: usize)
    requires
        visited.len() == n,
        x < n,
        visited[x as int],
        forall|u: usize, v: usize|
            u < n && visited[u as int] && #[trigger] adj(es, u, v) ==> v < n && visited[v as int],
        is_path(es, p, x, y),
    ensures
        y < n,
        visited[y as int],
    decreases p.len(),
{
    if p.len() == 1 {
        assert(y == x);
    } else {
        let q = p.drop_last();
        let w = p[p.len() - 2];
        assert(is_path(es, q, x, w)) by {
            assert(q[q.len() - 1] == w);
            assert(forall|i: int| 0 <= i < q.len() - 1 ==> adj(es, #[trigger] q[i], q[i + 1]))
                by {
                assert(forall|i: int| 0 <= i < q.len() ==> q[i] == p[i]);
            }
        }
        lemma_closed_visited(es, n, visited, q, x, w);
        assert(adj(es, w, y));
    }
}

/// How many entries of `s` are true.
pub open spec fn count_trues(s: Seq<bool>) -> nat
    decreases s.len(),
{
    if s.len() == 0 {
        0
    } else {
        count_trues(s.drop_last()) + (if s.last() {
            1nat
        } else {
            0nat
        })
    }
}

proof fn lemma_count_trues_le(s: Seq<bool>)
    ensures
        count_trues(s) <= s.len(),
    decreases s.len(),
{
    if s.len() > 0 {
        lemma_count_trues_le(s.drop_last());
    }
}

proof fn lemma_count_trues_set(s: Seq<bool>, k: int)
    requires
        0 <= k < s.len(),
        !s[k],
    ensures
        count_trues(s.update(k, true)) == count_trues(s) + 1,
    decreases s.len(),
{
    let t = s.update(k, true);
    if k == s.len() - 1 {
        assert(t.drop_last() =~= s.drop_last());
    } else {
        assert(t.drop_last() =~= s.drop_last().update(k, true));
        lemma_count_trues_set(s.drop_last(), k);
    }
}

proof fn lemma_count_trues_zero(s: Seq<bool>)
    requires
        forall|j: int| 0 <= j < s.len() ==> !s[j],
    ensures
        count_trues(s) == 0,
    decreases s.len(),
{
    if s.len() > 0 {
        lemma_count_trues_zero(s.drop_last());
    }
}

/// Copies a vector of plain values.
fn clone_copy_vec<T: Copy>(v: &Vec<T>) -> (r: Vec<T>)
    ensures
        r@ == v@,
{
    let mut r: Vec<T> = Vec::new();
    let mut i: usize = 0;
    while i < v.len()
        invariant
            i <= v@.len(),
            r@ == v@.take(i as int),
        decreases v@.len() - i,
    {
        r.push(v[i]);
        proof {
            assert(r@ =~= v@.take(i + 1 as int));
        }
        i = i + 1;
    }
    proof {
        assert(r@ =~= v@);
    }
    r
}

/// Breadth-first search for a walk from `s` to `d` over the first `upto`
/// edges. Returns a duplicate-free path when the frames are connected, and
/// `None` exactly when they are not.
#[verifier::loop_isolation(false)]
#[verifier::rlimit(100)]
fn path_search(n: usize, edges: &Vec<Edge>, upto: usize, s: usize, d: usize) -> (r: Option<
    Vec<usize>,
>)
    requires
        upto <= edges@.len(),
        edges_ok(edges@.take(upto as int), n as int),
        s < n,
        d < n,
    ensures
        r matches Some(p) ==> is_path(edges@.take(upto as int), p@, s, d) && p@.no_duplicates(),
        r is None ==> !connected(edges@.take(upto as int), s, d),
        (r is Some) == connected(edges@.take(upto as int), s, d),
        s == d ==> (r matches Some(p) && p@ == seq![s]),
{
    let ghost es = edges@.take(upto as int);
    let mut visited: Vec<bool> = Vec::new();
    let mut t: usize = 0;
    while t < n
        invariant
            visited@.len() == t,
            t <= n,
            forall|j: int| 0 <= j < t ==> !visited@[j],
        decreases n - t,
    {
        visited.push(false);
        t = t + 1;
    }
    proof {
        lemma_count_trues_zero(visited@);
        lemma_count_trues_set(visited@, s as int);
    }
    visited[s] = true;
    let mut first: Vec<usize> = Vec::new();
    first.push(s);
    proof {
        assert(first@ =~= seq![s]);
        assert(is_path(es, first@, s, s));
    }
    let mut queue: Vec<(usize, Vec<usize>)> = Vec::new();
    queue.push((s, first));
    let mut nv: usize = 1;
    let mut qi: usize = 0;
    proof {
        assert forall|v: usize| v < n && visited@[v as int] implies exists|t: int|
            0 <= t < queue@.len() && (#[trigger] queue@[t]).0 == v by {
            assert(v == s);
            assert((#[trigger] queue@[0]).0 == v);
        }
    }
    while qi < queue.len()
        invariant
            n == visited@.len(),
            nv == count_trues(visited@),
            nv <= n,
            qi <= queue@.len(),
            queue@.len() <= nv,
            visited@[s as int],
            forall|t: int| 0 <= t < queue@.len() ==> (#[trigger] queue@[t]).0 < n,
            forall|t: int| 0 <= t < queue@.len() ==> visited@[(#[trigger] queue@[t]).0 as int],
            forall|t: int| 0 <= t < queue@.len() ==> is_path(es, (#[trigger] queue@[t]).1@, s, queue@[t].0),
            forall|t: int| 0 <= t < queue@.len() ==> (#[trigger] queue@[t]).1@.no_duplicates(),
            forall|t: int, j: int| 0 <= t < queue@.len() && 0 <= j < queue@[t].1@.len()
                ==> (#[trigger] queue@[t].1@[j]) < n && visited@[queue@[t].1@[j] as int],
            forall|t: int, v: usize| 0 <= t < qi && #[trigger] adj(es, queue@[t].0, v)
                ==> v < n && visited@[v as int],
            forall|v: usize| v < n && visited@[v as int]
                ==> exists|t: int| 0 <= t < queue@.len() && (#[trigger] queue@[t]).0 == v,
            forall|t: int| 0 <= t < qi ==> (#[trigger] queue@[t]).0 != d,
            s == d ==> qi == 0 && queue@[0].0 == s && queue@[0].1@ == seq![s],
        decreases n - nv, queue@.len() - qi,
    {
        let u = queue[qi].0;
        if u == d {
            let p = clone_copy_vec(&queue[qi].1);
            return Some(p);
        }
        let ghost visited0 = visited@;
        let ghost queue0 = queue@;
        let ghost nv0 = nv as int;
        let mut j: usize = 0;
        while j < upto
            invariant
                j <= upto,
                n == visited@.len(),
                nv == count_trues(visited@),
                nv <= n,
                qi < queue@.len(),
                queue@.len() <= nv,
                visited@[s as int],
                queue@[qi as int].0 == u,
                u != d,
                u < n,
                nv0 <= nv,
                queue@.len() == queue0.len() + (nv - nv0),
                forall|v: int| 0 <= v < n && visited0[v] ==> visited@[v],
                forall|t: int| 0 <= t < queue0.len() && t < queue@.len() ==> queue@[t] == queue0[t],
                forall|t: int| 0 <= t < queue@.len() ==> (#[trigger] queue@[t]).0 < n,
                forall|t: int| 0 <= t < queue@.len() ==> visited@[(#[trigger] queue@[t]).0 as int],
                forall|t: int| 0 <= t < queue@.len() ==> is_path(es, (#[trigger] queue@[t]).1@, s, queue@[t].0),
                forall|t: int| 0 <= t < queue@.len() ==> (#[trigger] queue@[t]).1@.no_duplicates(),
                forall|t: int, j2: int| 0 <= t < queue@.len() && 0 <= j2 < queue@[t].1@.len()
                    ==> (#[trigger] queue@[t].1@[j2]) < n && visited@[queue@[t].1@[j2] as int],
                forall|t: int, v: usize| 0 <= t < qi && #[trigger] adj(es, queue@[t].0, v)
                    ==> v < n && visited@[v as int],
                forall|v: usize| v < n && visited@[v as int]
                    ==> exists|t: int| 0 <= t < queue@.len() && (#[trigger] queue@[t]).0 == v,
                forall|t: int| 0 <= t < qi ==> (#[trigger] queue@[t]).0 != d,
                forall|v: usize| #[trigger] adj(es.take(j as int), u, v) ==> v < n && visited@[v as int],
            decreases upto - j,
        {
            let e = edges[j];
            proof {
                assert(es[j as int] == edges@[j as int]);
            }
            let mut w: usize = 0;
            let mut have: bool = false;
            if e.a == u {
                w = e.b;
                have = true;
            } else if e.b == u {
                w = e.a;
                have = true;
            }
            if have {
                proof {
                    assert(w < n);
                }
                if !visited[w] {
                    let ghost vis_pre = visited@;
                    proof {
                        lemma_count_trues_set(visited@, w as int);
                        lemma_count_trues_le(visited@.update(w as int, true));
                    }
                    visited[w] = true;
                    nv = nv + 1;
                    let mut np = clone_copy_vec(&queue[qi].1);
                    let ghost pu = np@;
                    np.push(w);
                    proof {
                        assert(links(es[j as int], u, w));
                        assert(adj(es, u, w));
                        lemma_path_extend(es, pu, s, u, w);
                        assert(np@ == pu.push(w));
                        // w was unvisited, while every node of pu was visited
                        assert(forall|j2: int| 0 <= j2 < pu.len() ==> pu[j2] != w);
                        assert forall|i1: int, i2: int|
                            0 <= i1 < np@.len() && 0 <= i2 < np@.len() && i1 != i2 implies np@[i1]
                            != np@[i2] by {
                            if i1 < pu.len() && i2 < pu.len() {
                                assert(pu.no_duplicates());
                            }
                        }
                        assert(np@.no_duplicates());
                    }
                    let ghost q_pre = queue@;
                    queue.push((w, np));
                    proof {
                        assert forall|v: usize| v < n && visited@[v as int] implies exists|t: int|
                            0 <= t < queue@.len() && (#[trigger] queue@[t]).0 == v by {
                            if v == w {
                                assert((#[trigger] queue@[queue@.len() - 1]).0 == v);
                            } else {
                                assert(vis_pre[v as int]);
                                let t = choose|t: int|
                                    0 <= t < q_pre.len() && (#[trigger] q_pre[t]).0 == v;
                                assert((#[trigger] queue@[t]).0 == v);
                            }
                        }
                    }
                }
            }
            j = j + 1;
            proof {
                assert forall|v: usize| #[trigger] adj(es.take(j as int), u, v) implies v < n
                    && visited@[v as int] by {
                    let k = choose|k: int|
                        0 <= k < es.take(j as int).len() && links(
                            #[trigger] es.take(j as int)[k],
                            u,
                            v,
                        );
                    if k < j - 1 {
                        assert(adj(es.take(j - 1 as int), u, v)) by {
                            assert(links(es.take(j - 1 as int)[k], u, v));
                        }
                    } else {
                        assert(links(es[j - 1 as int], u, v));
                    }
                }
            }
        }
        qi = qi + 1;
        proof {
            assert(es.take(upto as int) =~= es);
            assert forall|t: int, v: usize| 0 <= t < qi && #[trigger] adj(es, queue@[t].0, v)
                implies v < n && visited@[v as int] by {
                if t == qi - 1 {
                    assert(adj(es.take(upto as int), u, v));
                }
            }
        }
    }
    proof {
        if connected(es, s, d) {
            assert forall|u: usize, v: usize|
                u < n && visited@[u as int] && #[trigger] adj(es, u, v) implies v < n
                && visited@[v as int] by {
                let t = choose|t: int| 0 <= t < queue@.len() && (#[trigger] queue@[t]).0 == u;
            }
            let p = choose|p: Seq<usize>| is_path(es, p, s, d);
            lemma_closed_visited(es, n, visited@, p, s, d);
            let t = choose|t: int| 0 <= t < queue@.len() && (#[trigger] queue@[t]).0 == d;
            assert(false);
        }
    }
    None
}

/// The frame graph: the frame names in creation order, and the transform
/// edges in creation order. The graph is always a forest.
#[derive(Debug)]
pub struct TfGraph {
    pub(crate) names: Vec<Vec<u8>>,
    pub(crate) edges: Vec<Edge>,
}

impl TfGraph {
    /// The frame names, in the order the frames were created.
    pub closed spec fn frames(&self) -> Seq<Seq<u8>> {
        self.names.deep_view()
    }

    /// The edges, in the order they were created.
    pub closed spec fn edge_list(&self) -> Seq<Edge> {
        self.edges@
    }

    /// The graph's invariant: distinct frame names, edge endpoints that are
    /// positions in the frame list, and the forest property.
    pub open spec fn wf(&self) -> bool {
        &&& names_ok(self.frames())
        &&& edges_ok(self.edge_list(), self.frames().len() as int)
        &&& forest(self.edge_list())
    }

    /// Create an empty graph.
    pub fn new() -> (r: Self)
        ensures
            r.wf(),
            r.frames() == Seq::<Seq<u8>>::empty(),
            r.edge_list() == Seq::<Edge>::empty(),
    {
        let r = TfGraph { names: Vec::new(), edges: Vec::new() };
        proof {
            assert(r.frames() =~= Seq::<Seq<u8>>::empty());
            assert(r.edge_list() =~= Seq::<Edge>::empty());
        }
        r
    }

    /// Removes every frame and every edge.
    pub fn reset(&mut self)
        ensures
            final(self).wf(),
            final(self).frames() == Seq::<Seq<u8>>::empty(),
            final(self).edge_list() == Seq::<Edge>::empty(),
    {
        self.names.clear();
        self.edges.clear();
        proof {
            assert(self.frames() =~= Seq::<Seq<u8>>::empty());
            assert(self.edge_list() =~= Seq::<Edge>::empty());
        }
    }
}

/// Whether `k` is the position of the first edge joining `x` and `y`.
pub open spec fn is_first_link(es: Seq<Edge>, x: usize, y: usize, k: int) -> bool {
    &&& 0 <= k < es.len()
    &&& links(es[k], x, y)
    &&& forall|j: int| 0 <= j < k ==> !links(#[trigger] es[j], x, y)
}

/// The position of the first edge joining `x` and `y` (meaningful only when
/// `adj`; in a forest it is the only such edge).
pub open spec fn first_link(es: Seq<Edge>, x: usize, y: usize) -> int {
    choose|k: int| is_first_link(es, x, y, k)
}

proof fn lemma_first_link(es: Seq<Edge>, x: usize, y: usize, k: int)
    requires
        is_first_link(es, x, y, k),
    ensures
        adj(es, x, y),
        first_link(es, x, y) == k,
{
    let c = first_link(es, x, y);
    assert(is_first_link(es, x, y, c));
    if c < k {
        assert(!links(es[c], x, y));
    }
    if c > k {
        assert(!links(es[k], x, y));
    }
}

/// The transform for crossing from `x` to `y` over the edge that joins them:
/// the edge's transform along its canonical direction, its inverse against
/// it.
pub open spec fn step_tf(es: Seq<Edge>, x: usize, y: usize) -> Seq<u64> {
    let k = first_link(es, x, y);
    if es[k].a == x {
        es[k].tf@
    } else {
        pose_inverse(es[k].tf@)
    }
}

/// The transform accumulated by walking `p` from its first frame to its
/// last: each step's transform is composed onto the left of the running
/// value, so the first step's transform is applied last.
pub open spec fn compose_along(es: Seq<Edge>, p: Seq<usize>) -> Seq<u64>
    decreases p.len(),
{
    if p.len() <= 1 {
        identity7()
    } else {
        pose_product(step_tf(es, p[p.len() - 2], p[p.len() - 1]), compose_along(es, p.drop_last()))
    }
}

/// Finds the first edge joining `x` and `y`, scanning in creation order.
fn find_link(edges: &Vec<Edge>, x: usize, y: usize) -> (r: Option<usize>)
    ensures
        r matches Some(k) ==> is_first_link(edges@, x, y, k as int) && first_link(edges@, x, y)
            == k as int,
        (r is Some) == adj(edges@, x, y),
{
    let mut k: usize = 0;
    while k < edges.len()
        invariant
            k <= edges@.len(),
            forall|j: int| 0 <= j < k ==> !links(#[trigger] edges@[j], x, y),
        decreases edges@.len() - k,
    {
        let e = edges[k];
        if (e.a == x && e.b == y) || (e.a == y && e.b == x) {
            proof {
                lemma_first_link(edges@, x, y, k as int);
            }
            return Some(k);
        }
        k = k + 1;
    }
    proof {
        if adj(edges@, x, y) {
            let j = choose|j: int| 0 <= j < edges@.len() && links(#[trigger] edges@[j], x, y);
            assert(false);
        }
    }
    None
}

impl TfGraph {
    /// Finds the position of a frame by its exact name.
    fn find_node(&self, s: &[u8]) -> (r: Option<usize>)
        requires
            names_ok(self.frames()),
        ensures
            r matches Some(i) ==> i < self.frames().len() && self.frames()[i as int] == s@
                && name_idx(self.frames(), s@) == i,
            (r is Some) == has_name(self.frames(), s@),
    {
        let mut i: usize = 0;
        while i < self.names.len()
            invariant
                names_ok(self.frames()),
                i <= self.frames().len(),
                self.frames().len() == self.names@.len(),
                forall|j: int| 0 <= j < i ==> self.frames()[j] != s@,
            decreases self.names@.len() - i,
        {
            proof {
                assert(self.frames()[i as int] == self.names@[i as int]@);
            }
            if bytes_eq(self.names[i].as_slice(), s) {
                proof {
                    lemma_name_idx(self.frames(), s@, i);
                }
                return Some(i);
            }
            i = i + 1;
        }
        proof {
            if has_name(self.frames(), s@) {
                let j = choose|j: usize| j < self.frames().len() && self.frames()[j as int] == s@;
                assert(false);
            }
        }
        None
    }

    /// Finds the edge recorded from `a` to `b` in that canonical direction.
    fn find_canon(&self, a: usize, b: usize) -> (r: Option<usize>)
        ensures
            r matches Some(k) ==> k < self.edge_list().len() && self.edge_list()[k as int].a == a
                && self.edge_list()[k as int].b == b,
            (r is Some) == has_canon(self.edge_list(), a, b),
    {
        let mut k: usize = 0;
        while k < self.edges.len()
            invariant
                k <= self.edge_list().len(),
                self.edge_list().len() == self.edges@.len(),
                forall|j: int| 0 <= j < k ==> !((#[trigger] self.edge_list()[j]).a == a
                    && self.edge_list()[j].b == b),
            decreases self.edges@.len() - k,
        {
            let e = self.edges[k];
            if e.a == a && e.b == b {
                return Some(k);
            }
            k = k + 1;
        }
        proof {
            if has_canon(self.edge_list(), a, b) {
                let j = choose|j: int|
                    0 <= j < self.edge_list().len() && (#[trigger] self.edge_list()[j]).a == a
                        && self.edge_list()[j].b == b;
                assert(false);
            }
        }
        None
    }
}

/// The frame list after an accepted `add_tf(src, dst, _)`: `src` is appended
/// when new, then `dst` when new.
pub open spec fn frames_after_add(ns: Seq<Seq<u8>>, src: Seq<u8>, dst: Seq<u8>) -> Seq<Seq<u8>> {
    let ns1 = if has_name(ns, src) {
        ns
    } else {
        ns.push(src)
    };
    if has_name(ns1, dst) {
        ns1
    } else {
        ns1.push(dst)
    }
}

/// An added transform between two frames that an existing path already
/// connects is rejected, unless it overwrites the edge recorded in the same
/// canonical direction: `add_tf` then returns `None` and, by its contract,
/// leaves the frame list, the edge list and every stored transform exactly
/// as they were. A self-transform is rejected the same way on every graph.
pub proof fn lemma_connected_add_rejected(
    ns: Seq<Seq<u8>>,
    es: Seq<Edge>,
    src: Seq<u8>,
    dst: Seq<u8>,
)
    requires
        src == dst || (has_name(ns, src) && has_name(ns, dst) && connected(
            es,
            name_idx(ns, src),
            name_idx(ns, dst),
        ) && !has_canon(es, name_idx(ns, src), name_idx(ns, dst))),
    ensures
        !can_add(ns, es, src, dst),
{
}

/// Whether `add_tf(src, dst, _)` succeeds on a graph with frames `ns` and
/// edges `es`: the names must differ, and either one of them is a new frame,
/// or an edge already runs from `src` to `dst` in that canonical direction
/// (it is then overwritten), or the two frames are not yet connected.
pub open spec fn can_add(ns: Seq<Seq<u8>>, es: Seq<Edge>, src: Seq<u8>, dst: Seq<u8>) -> bool {
    &&& src != dst
    &&& (if has_name(ns, src) && has_name(ns, dst) {
        has_canon(es, name_idx(ns, src), name_idx(ns, dst)) || !connected(
            es,
            name_idx(ns, src),
            name_idx(ns, dst),
        )
    } else {
        true
    })
}

impl TfGraph {
    /// Adds a transform edge from `src` to `dst`, creating frames the graph
    /// does not hold yet. Fails — returning `None` and leaving the graph
    /// exactly as it was — when `src` and `dst` are the same name (a
    /// self-transform is cyclic), and when the two frames are already
    /// connected, unless an edge already runs from `src` to `dst` in that
    /// same canonical direction, in which case its transform is overwritten
    /// in place. The graph is a forest before and after the call.
    pub fn add_tf(&mut self, src: Vec<u8>, dst: Vec<u8>, tf: Se3) -> (r: Option<()>)
        requires
            old(self).wf(),
        ensures
            final(self).wf(),
            (r is Some) == can_add(old(self).frames(), old(self).edge_list(), src@, dst@),
            src@ == dst@ ==> r is None,
            r is None ==> *final(self) == *old(self),
            r is Some ==> final(self).frames() == frames_after_add(
                old(self).frames(),
                src@,
                dst@,
            ),
            r is Some ==> ({
                let es0 = old(self).edge_list();
                let ns1 = final(self).frames();
                let a = name_idx(ns1, src@);
                let b = name_idx(ns1, dst@);
                &&& has_name(ns1, src@)
                &&& has_name(ns1, dst@)
                &&& if has_name(old(self).frames(), src@) && has_name(old(self).frames(), dst@)
                    && has_canon(es0, a, b) {
                    exists|k: int|
                        0 <= k < es0.len() && (#[trigger] es0[k]).a == a && es0[k].b == b
                            && final(self).edge_list() == es0.update(k, Edge { a, b, tf })
                } else {
                    final(self).edge_list() == es0.push(Edge { a, b, tf })
                }
            }),
    {
        if bytes_eq(src.as_slice(), dst.as_slice()) {
            return None;
        }
        let ghost ns0 = self.frames();
        let ghost es0 = self.edge_list();
        let ghost n0 = self.frames().len();
        let si_o = self.find_node(src.as_slice());
        let di_o = self.find_node(dst.as_slice());
        match (si_o, di_o) {
            (Some(si), Some(di)) => {
                proof {
                    assert(si != di);
                }
                match self.find_canon(si, di) {
                    Some(k) => {
                        let e = Edge { a: si, b: di, tf };
                        self.edges[k] = e;
                        proof {
                            assert(self.edge_list() == es0.update(k as int, e));
                            lemma_forest_same_links(es0, self.edge_list());
                            assert(edges_ok(self.edge_list(), n0 as int));
                        }
                        Some(())
                    },
                    None => {
                        match path_search(self.names.len(), &self.edges, self.edges.len(), si, di) {
                            Some(_) => {
                                proof {
                                    assert(es0.take(es0.len() as int) =~= es0);
                                }
                                None
                            },
                            None => {
                                proof {
                                    assert(es0.take(es0.len() as int) =~= es0);
                                }
                                let e = Edge { a: si, b: di, tf };
                                self.edges.push(e);
                                proof {
                                    lemma_forest_push(es0, e);
                                }
                                Some(())
                            },
                        }
                    },
                }
            },
            (Some(si), None) => {
                let di = self.names.len();
                self.names.push(dst);
                proof {
                    assert(self.frames() =~~= ns0.push(dst@));
                    assert(names_ok(self.frames())) by {
                        assert forall|i: int, j: int| 0 <= i < j < self.frames().len()
                            implies self.frames()[i] != self.frames()[j] by {
                            if j == self.frames().len() - 1 {
                                assert(!has_name(ns0, dst@));
                                assert(ns0[i] == self.frames()[i]);
                            }
                        }
                    }
                    lemma_name_idx(self.frames(), dst@, di);
                    lemma_name_idx(self.frames(), src@, si);
                }
                let e = Edge { a: si, b: di, tf };
                self.edges.push(e);
                proof {
                    lemma_fresh_not_connected(es0, n0 as usize, si, di);
                    lemma_forest_push(es0, e);
                }
                Some(())
            },
            (None, Some(di)) => {
                let si = self.names.len();
                self.names.push(src);
                proof {
                    assert(self.frames() =~~= ns0.push(src@));
                    assert(names_ok(self.frames())) by {
                        assert forall|i: int, j: int| 0 <= i < j < self.frames().len()
                            implies self.frames()[i] != self.frames()[j] by {
                            if j == self.frames().len() - 1 {
                                assert(!has_name(ns0, src@));
                                assert(ns0[i] == self.frames()[i]);
                            }
                        }
                    }
                    lemma_name_idx(self.frames(), src@, si);
                    lemma_name_idx(self.frames(), dst@, di);
                }
                let e = Edge { a: si, b: di, tf };
                self.edges.push(e);
                proof {
                    lemma_fresh_not_connected(es0, n0 as usize, si, di);
                    lemma_forest_push(es0, e);
                }
                Some(())
            },
            (None, None) => {
                let si = self.names.len();
                self.names.push(src);
                let ghost ns1 = self.frames();
                proof {
                    assert(ns1 =~~= ns0.push(src@));
                    assert(names_ok(ns1)) by {
                        assert forall|i: int, j: int| 0 <= i < j < ns1.len() implies ns1[i]
                            != ns1[j] by {
                            if j == ns1.len() - 1 {
                                assert(!has_name(ns0, src@));
                                assert(ns0[i] == ns1[i]);
                            }
                        }
                    }
                    lemma_name_idx(ns1, src@, si);
                }
                let di = self.names.len();
                self.names.push(dst);
                proof {
                    assert(self.frames() =~~= ns1.push(dst@));
                    assert(!has_name(ns1, dst@)) by {
                        if has_name(ns1, dst@) {
                            let w = choose|w: usize| w < ns1.len() && ns1[w as int] == dst@;
                            assert(ns0[w as int] == dst@ || src@ == dst@);
                        }
                    }
                    assert(names_ok(self.frames())) by {
                        assert forall|i: int, j: int| 0 <= i < j < self.frames().len()
                            implies self.frames()[i] != self.frames()[j] by {
                            if j == self.frames().len() - 1 {
                                assert(ns1[i] == self.frames()[i]);
                            }
                        }
                    }
                    lemma_name_idx(self.frames(), dst@, di);
                    lemma_name_idx(self.frames(), src@, si);
                }
                let e = Edge { a: si, b: di, tf };
                self.edges.push(e);
                proof {
                    lemma_fresh_not_connected(es0, n0 as usize, si, di);
                    lemma_forest_push(es0, e);
                }
                Some(())
            },
        }
    }
}

impl TfGraph {
    /// Looks up the transform from `src` to `dst` and the unique connecting
    /// path. Fails with `None` when either frame is unknown or the two
    /// frames are in different trees. The returned transform composes the
    /// edges of the path, inverting each edge crossed against its canonical
    /// direction, with the step leaving `src` applied last; the returned
    /// path holds the frame names from `src` to `dst` inclusive. Querying a
    /// frame against itself yields the identity transform and the one-frame
    /// path.
    #[verifier::rlimit(100)]
    pub fn query_tf(&self, src: &[u8], dst: &[u8]) -> (r: Option<(Se3, Vec<Vec<u8>>)>)
        requires
            self.wf(),
        ensures
            (r is Some) == (has_name(self.frames(), src@) && has_name(self.frames(), dst@)
                && connected(
                self.edge_list(),
                name_idx(self.frames(), src@),
                name_idx(self.frames(), dst@),
            )),
            r matches Some((tf, path)) ==> exists|ip: Seq<usize>|
                {
                    &&& is_path(self.edge_list(), ip, name_idx(self.frames(), src@), name_idx(self.frames(), dst@))
                    &&& ip.no_duplicates()
                    &&& path@.len() == ip.len()
                    &&& forall|j: int| 0 <= j < ip.len() ==> (#[trigger] path@[j])@
                        == self.frames()[ip[j] as int]
                    &&& tf@ == compose_along(self.edge_list(), ip)
                },
            (src@ == dst@ && has_name(self.frames(), src@)) ==> (r matches Some((tf, path))
                && tf@ == identity7() && path@.len() == 1 && path@[0]@ == src@),
    {
        let ghost ns = self.frames();
        let ghost es = self.edge_list();
        let si = match self.find_node(src) {
            Some(i) => i,
            None => {
                return None;
            },
        };
        let di = match self.find_node(dst) {
            Some(i) => i,
            None => {
                return None;
            },
        };
        proof {
            if src@ == dst@ {
                assert(si == di);
            }
        }
        let p = match path_search(self.names.len(), &self.edges, self.edges.len(), si, di) {
            Some(p) => p,
            None => {
                proof {
                    assert(es.take(es.len() as int) =~= es);
                }
                return None;
            },
        };
        proof {
            assert(es.take(es.len() as int) =~= es);
        }
        let mut tf = Se3::identity();
        let mut out: Vec<Vec<u8>> = Vec::new();
        out.push(clone_copy_vec(&self.names[p[0]]));
        proof {
            assert(out@[0]@ == ns[p@[0] as int]);
            assert(p@.take(1) =~= seq![p@[0]]);
            assert(compose_along(es, p@.take(1)) == identity7());
        }
        let mut i: usize = 1;
        while i < p.len()
            invariant
                self.wf(),
                ns == self.frames(),
                es == self.edge_list(),
                1 <= i <= p@.len(),
                is_path(es, p@, si, di),
                forall|j: int| 0 <= j < p@.len() ==> p@[j] < ns.len(),
                tf@ == compose_along(es, p@.take(i as int)),
                out@.len() == i,
                forall|j: int| 0 <= j < i ==> (#[trigger] out@[j])@ == ns[p@[j] as int],
            decreases p@.len() - i,
        {
            let x = p[i - 1];
            let y = p[i];
            proof {
                assert(adj(es, p@[i - 1], p@[i as int]));
            }
            let k = match find_link(&self.edges, x, y) {
                Some(k) => k,
                None => {
                    proof {
                        assert(false);
                    }
                    return None;
                },
            };
            let e = self.edges[k];
            let step = if e.a == x {
                e.tf
            } else {
                e.tf.inverse()
            };
            proof {
                assert(step@ == step_tf(es, x, y));
            }
            tf = step.compose(&tf);
            out.push(clone_copy_vec(&self.names[y]));
            proof {
                let t1 = p@.take(i + 1 as int);
                assert(t1.drop_last() =~= p@.take(i as int));
                assert(t1[t1.len() - 2] == p@[i - 1] && t1[t1.len() - 1] == p@[i as int]);
                assert(tf@ == compose_along(es, t1));
                assert(out@[i as int]@ == ns[p@[i as int] as int]);
            }
            i = i + 1;
        }
        proof {
            assert(p@.take(i as int) =~= p@);
            if src@ == dst@ {
                assert(p@ == seq![si]);
                assert(out@[0]@ == ns[si as int]);
            }
        }
        Some((tf, out))
    }

    /// The frame names, in the order the frames were created.
    pub fn nodes(&self) -> (r: Vec<Vec<u8>>)
        ensures
            r@.len() == self.frames().len(),
            forall|k: int| 0 <= k < r@.len() ==> (#[trigger] r@[k])@ == self.frames()[k],
    {
        let mut r: Vec<Vec<u8>> = Vec::new();
        let mut i: usize = 0;
        while i < self.names.len()
            invariant
                i <= self.names@.len(),
                self.frames().len() == self.names@.len(),
                r@.len() == i,
                forall|k: int| 0 <= k < i ==> (#[trigger] r@[k])@ == self.frames()[k],
            decreases self.names@.len() - i,
        {
            r.push(clone_copy_vec(&self.names[i]));
            proof {
                assert(r@[i as int]@ == self.frames()[i as int]);
            }
            i = i + 1;
        }
        r
    }

    /// The `(source, target)` name pairs of the edges, in creation order and
    /// in each edge's canonical direction.
    pub fn transforms(&self) -> (r: Vec<(Vec<u8>, Vec<u8>)>)
        requires
            self.wf(),
        ensures
            r@.len() == self.edge_list().len(),
            forall|k: int| 0 <= k < r@.len() ==> (#[trigger] r@[k]).0@ == self.frames()[self.edge_list()[k].a as int]
                && r@[k].1@ == self.frames()[self.edge_list()[k].b as int],
    {
        let mut r: Vec<(Vec<u8>, Vec<u8>)> = Vec::new();
        let mut i: usize = 0;
        while i < self.edges.len()
            invariant
                self.wf(),
                i <= self.edge_list().len(),
                self.edge_list().len() == self.edges@.len(),
                r@.len() == i,
                forall|k: int| 0 <= k < i ==> (#[trigger] r@[k]).0@ == self.frames()[self.edge_list()[k].a as int]
                    && r@[k].1@ == self.frames()[self.edge_list()[k].b as int],
            decreases self.edges@.len() - i,
        {
            let e = self.edges[i];
            let sa = clone_copy_vec(&self.names[e.a]);
            let sb = clone_copy_vec(&self.names[e.b]);
            r.push((sa, sb));
            i = i + 1;
        }
        r
    }
}

/// Checks that the frame names are pairwise distinct.
fn names_unique(ns: &Vec<Vec<u8>>) -> (r: bool)
    ensures
        r == names_ok(ns.deep_view()),
{
    let ghost nv = ns.deep_view();
    let mut i: usize = 0;
    while i < ns.len()
        invariant
            nv == ns.deep_view(),
            nv.len() == ns@.len(),
            i <= nv.len(),
            forall|x: int, y: int| 0 <= x < y < i ==> nv[x] != nv[y],
        decreases ns@.len() - i,
    {
        let mut j: usize = 0;
        while j < i
            invariant
                nv == ns.deep_view(),
                nv.len() == ns@.len(),
                j <= i < nv.len(),
                forall|x: int, y: int| 0 <= x < y < i ==> nv[x] != nv[y],
                forall|x: int| 0 <= x < j ==> nv[x] != nv[i as int],
            decreases i - j,
        {
            proof {
                assert(nv[j as int] == ns@[j as int]@);
                assert(nv[i as int] == ns@[i as int]@);
            }
            if bytes_eq(ns[j].as_slice(), ns[i].as_slice()) {
                proof {
                    assert(nv[j as int] == nv[i as int]);
                }
                return false;
            }
            j = j + 1;
        }
        i = i + 1;
    }
    true
}

/// Checks that every edge endpoint is a position in the frame list.
fn edges_within(es: &Vec<Edge>, n: usize) -> (r: bool)
    ensures
        r == edges_ok(es@, n as int),
{
    let mut k: usize = 0;
    while k < es.len()
        invariant
            k <= es@.len(),
            forall|j: int| 0 <= j < k ==> (#[trigger] es@[j]).a < n && es@[j].b < n,
        decreases es@.len() - k,
    {
        let e = es[k];
        if e.a >= n || e.b >= n {
            return false;
        }
        k = k + 1;
    }
    true
}

/// Checks the forest invariant of an edge list: no self-loops, and no edge
/// whose endpoints the earlier edges had already connected.
fn forest_check(n: usize, es: &Vec<Edge>) -> (r: bool)
    requires
        edges_ok(es@, n as int),
    ensures
        r == forest(es@),
{
    let mut k: usize = 0;
    while k < es.len()
        invariant
            k <= es@.len(),
            edges_ok(es@, n as int),
            forest(es@.take(k as int)),
        decreases es@.len() - k,
    {
        let e = es[k];
        if e.a == e.b {
            proof {
                assert(!forest(es@));
            }
            return false;
        }
        proof {
            assert(edges_ok(es@.take(k as int), n as int)) by {
                assert(forall|j: int| 0 <= j < k ==> es@.take(k as int)[j] == es@[j]);
            }
        }
        match path_search(n, es, k, e.a, e.b) {
            Some(_) => {
                proof {
                    assert(!forest(es@));
                }
                return false;
            },
            None => {
                proof {
                    assert(es@.take(k + 1 as int) =~= es@.take(k as int).push(es@[k as int]));
                    lemma_forest_push(es@.take(k as int), es@[k as int]);
                }
            },
        }
        k = k + 1;
    }
    proof {
        assert(es@.take(k as int) =~= es@);
    }
    true
}

/// Whether a persisted document names a graph the library accepts: it
/// parses, its frame names are pairwise distinct, its edge endpoints are
/// positions in its frame list, and its edges form a forest.
pub open spec fn doc_ok(doc: Seq<u8>) -> bool {
    match crate::codec::spec_parse_doc(doc) {
        Some((ns, es)) => names_ok(ns) && edges_ok(es, ns.len() as int) && forest(es),
        None => false,
    }
}

/// Whether a persisted document parses to a candidate with sound names and
/// endpoints whose edges nevertheless close a cycle — the one load failure
/// that is not a parse failure.
pub open spec fn doc_cyclic(doc: Seq<u8>) -> bool {
    match crate::codec::spec_parse_doc(doc) {
        Some((ns, es)) => names_ok(ns) && edges_ok(es, ns.len() as int) && !forest(es),
        None => false,
    }
}

/// The persistence round trip: the document a well-formed graph dumps to is
/// accepted — `doc_ok` holds, so by `load_json`'s contract a load of it
/// succeeds — and its one reading is exactly the dumped frame list and edge
/// list, so the load installs them unchanged: the same frame names in the
/// same order, the same edge endpoints and canonical directions, and the
/// same transform bit patterns.
pub proof fn lemma_dump_load_round_trip(ns: Seq<Seq<u8>>, es: Seq<Edge>)
    requires
        names_ok(ns),
        edges_ok(es, ns.len() as int),
        forest(es),
    ensures
        doc_ok(crate::codec::doc_of(ns, es)),
        crate::codec::spec_parse_doc(crate::codec::doc_of(ns, es)) == Some((ns, es)),
{
    crate::codec::lemma_parse_of_doc(ns, es);
}

impl TfGraph {
    /// Serializes the whole graph into its persisted document.
    pub fn dump_json(&self) -> (r: Vec<u8>)
        ensures
            r@ == crate::codec::doc_of(self.frames(), self.edge_list()),
    {
        crate::codec::dump_doc(&self.names, &self.edges)
    }

    /// Parses a persisted document into a candidate graph, re-verifies the
    /// forest invariant on it, and only then replaces the current graph with
    /// it, atomically — never partially merged. Succeeds exactly on the
    /// documents that read as a well-formed forest (`doc_ok`), and then
    /// installs exactly the parsed candidate; every dump of a well-formed
    /// graph is such a document (`lemma_dump_load_round_trip`). Fails with
    /// `ParseError` when the document does not parse (or names a frame
    /// twice, or an edge endpoint is out of range), and with
    /// `CycleInLoadedData` when it parses but its edges close a cycle; on
    /// any failure the current graph is left untouched. On success the
    /// document is also, byte for byte, the dump of the new graph.
    pub fn load_json(&mut self, doc: &[u8]) -> (r: Result<(), Error>)
        requires
            old(self).wf(),
        ensures
            final(self).wf(),
            (r is Ok) == doc_ok(doc@),
            r is Ok ==> crate::codec::spec_parse_doc(doc@) == Some(
                (final(self).frames(), final(self).edge_list()),
            ),
            r is Ok ==> doc@ == crate::codec::doc_of(
                final(self).frames(),
                final(self).edge_list(),
            ),
            r is Err ==> *final(self) == *old(self),
            (r == Err::<(), Error>(Error::CycleInLoadedData)) == doc_cyclic(doc@),
            (r == Err::<(), Error>(Error::ParseError)) == (!doc_ok(doc@) && !doc_cyclic(doc@)),
    {
        match crate::codec::parse_doc(doc) {
            None => Err(Error::ParseError),
            Some((ns, es)) => {
                if !names_unique(&ns) {
                    return Err(Error::ParseError);
                }
                if !edges_within(&es, ns.len()) {
                    return Err(Error::ParseError);
                }
                if !forest_check(ns.len(), &es) {
                    return Err(Error::CycleInLoadedData);
                }
                self.names = ns;
                self.edges = es;
                Ok(())
            },
        }
    }
}

impl Default for TfGraph {
    /// An empty graph.
    fn default() -> (r: Self)
        ensures
            r.wf(),
            r.frames() == Seq::<Seq<u8>>::empty(),
            r.edge_list() == Seq::<Edge>::empty(),
    {
        TfGraph::new()
    }
}

} // verus!
