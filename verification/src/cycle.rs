//! Cycle detection over a directed graph, the demonstration collaborator of
//! the container: a depth-first traversal keeps the current path in a
//! `StackSet`, so the back-edge test — does this edge lead to a vertex on
//! the path? — is a single `contains` call.
//!
//! The result is proved in both directions.  A true answer comes with a
//! cycle: the slice of the path from the back edge's target up to the top,
//! closed by the back edge itself.  A false answer proves that no cycle
//! passes through any vertex reachable from vertex 0, by the classic
//! finish-order argument: a ghost record lists the vertices in the order
//! their exploration finished, every edge out of a finished vertex is shown
//! to lead to an earlier-finished one, and around a cycle that position
//! would have to drop back to itself.

use vstd::prelude::*;
use vstd::seq_lib::*;
use vstd::set_lib::*;
use crate::stackset::{StackSet, MAX_KEYS};

verus! {

/// A directed graph: vertices numbered `0 .. vertices`, one adjacency list
/// per vertex.
pub struct Graph {
    pub vertices: usize,
    pub edges: Vec<Vec<usize>>,
}

impl Graph {
    /// There is an edge from `a` to `b`.
    pub open spec fn has_edge(&self, a: usize, b: usize) -> bool {
        &&& (a as int) < self.edges@.len()
        &&& self.edges@[a as int]@.contains(b)
    }

    /// The adjacency lists cover exactly the vertices and name only
    /// vertices.  The vertex count is kept below the container's key limit
    /// so every path fits on the stack.
    pub open spec fn wf(&self) -> bool {
        &&& self.edges@.len() == self.vertices
        &&& self.vertices <= MAX_KEYS
        &&& forall|v: int, x: int|
            0 <= v < self.edges@.len() && 0 <= x < self.edges@[v]@.len()
                ==> (#[trigger] self.edges@[v]@[x]) < self.vertices
    }
}

/// Consecutive entries of `s` are joined by edges, and all entries are
/// vertices of `g`.
pub open spec fn is_path(g: &Graph, s: Seq<usize>) -> bool {
    &&& forall|x: int| 0 <= x < s.len() ==> (#[trigger] s[x]) < g.vertices
    &&& forall|x: int| 0 <= x < s.len() - 1 ==> g.has_edge(#[trigger] s[x], s[x + 1])
}

/// A closed walk with at least one edge: a witness that the graph has a
/// cycle.
pub open spec fn is_cycle(g: &Graph, w: Seq<usize>) -> bool {
    &&& w.len() >= 2
    &&& w.first() == w.last()
    &&& is_path(g, w)
}

/// Some cycle exists in `g`.
pub open spec fn has_cycle_spec(g: &Graph) -> bool {
    exists|w: Seq<usize>| is_cycle(g, w)
}

/// Vertex `u` can be reached from vertex 0.
pub open spec fn reaches(g: &Graph, u: usize) -> bool {
    exists|s: Seq<usize>| is_path(g, s) && s.len() > 0 && s.first() == 0 && s.last() == u
}

/// `u` appears among the first `i` entries of `fin`.
spec fn before_in(fin: Seq<usize>, i: int, u: usize) -> bool {
    exists|i2: int| 0 <= i2 < i && #[trigger] fin[i2] == u
}

/// The record of finished vertices, in the order the traversal finished
/// them: every edge out of a finished vertex leads to a vertex finished
/// strictly earlier.  No cycle can live inside such a sequence, since its
/// position would have to drop forever.
spec fn fin_ok(g: &Graph, fin: Seq<usize>) -> bool {
    &&& fin.no_duplicates()
    &&& forall|i: int| 0 <= i < fin.len() ==> (#[trigger] fin[i]) < g.vertices
    &&& forall|i: int, x: int|
        0 <= i < fin.len() && 0 <= x < g.edges@[fin[i] as int]@.len() ==> before_in(
            fin,
            i,
            #[trigger] g.edges@[fin[i] as int]@[x],
        )
}

/// The seen marks name exactly the vertices on the stack or finished.
spec fn seen_partition(g: &Graph, seen: Seq<bool>, stack: Seq<usize>, fin: Seq<usize>) -> bool {
    forall|u: int|
        0 <= u < seen.len() ==> ((#[trigger] seen[u]) <==> (stack.contains(u as usize)
            || fin.contains(u as usize)))
}

/// No finished vertex is still on the stack.
spec fn fin_disjoint(stack: Seq<usize>, fin: Seq<usize>) -> bool {
    forall|i: int| 0 <= i < fin.len() ==> !stack.contains(#[trigger] fin[i])
}

/// Membership in a sequence after a push: the pushed element, or anything
/// already there.
proof fn lemma_contains_push(s: Seq<usize>, v: usize, u: usize)
    ensures
        s.push(v).contains(u) <==> (s.contains(u) || u == v),
{
    if s.contains(u) {
        let x = choose|x: int| 0 <= x < s.len() && s[x] == u;
        assert(s.push(v)[x] == u);
    }
    if u == v {
        assert(s.push(v)[s.len() as int] == u);
    }
    if s.push(v).contains(u) {
        let x = choose|x: int| 0 <= x < s.push(v).len() && s.push(v)[x] == u;
        if x < s.len() {
            assert(s[x] == u);
        }
    }
}

/// Every vertex a path leads to from a finished vertex is finished: the
/// finish record is closed under edges.
proof fn lemma_reach_stays_in_fin(g: &Graph, fin: Seq<usize>, s: Seq<usize>)
    requires
        g.wf(),
        fin_ok(g, fin),
        is_path(g, s),
        s.len() > 0,
        fin.contains(s.first()),
    ensures
        fin.contains(s.last()),
    decreases s.len(),
{
    if s.len() > 1 {
        let front = s.drop_last();
        assert(is_path(g, front)) by {
            assert(forall|x: int| 0 <= x < front.len() ==> front[x] == s[x]);
        }
        lemma_reach_stays_in_fin(g, fin, front);
        let i = choose|i: int| 0 <= i < fin.len() && fin[i] == s[s.len() - 2];
        assert(g.has_edge(s[s.len() - 2], s.last()));
        let x = choose|x: int|
            0 <= x < g.edges@[s[s.len() - 2] as int]@.len() && #[trigger] g.edges@[s[s.len()
                - 2] as int]@[x] == s.last();
        assert(before_in(fin, i, g.edges@[fin[i] as int]@[x]));
        let i2 = choose|i2: int| 0 <= i2 < i && fin[i2] == s.last();
        assert(fin[i2] == s.last());
    }
}

/// Walking a path inside the finish record moves strictly down it: step `k`
/// of the walk sits at least `k` positions before the walk's start.
proof fn lemma_walk_descends(g: &Graph, fin: Seq<usize>, w: Seq<usize>, k: int, i0: int)
    requires
        g.wf(),
        fin_ok(g, fin),
        is_path(g, w),
        0 <= i0 < fin.len(),
        fin[i0] == w[0],
        0 <= k < w.len(),
    ensures
        exists|i: int| 0 <= i < fin.len() && #[trigger] fin[i] == w[k] && i <= i0 - k,
    decreases k,
{
    if k == 0 {
        assert(fin[i0] == w[0] && i0 <= i0 - 0);
    } else {
        lemma_walk_descends(g, fin, w, k - 1, i0);
        let ip = choose|ip: int| 0 <= ip < fin.len() && #[trigger] fin[ip] == w[k - 1] && ip <= i0
            - (k - 1);
        assert(g.has_edge(w[k - 1], w[k]));
        let x = choose|x: int|
            0 <= x < g.edges@[w[k - 1] as int]@.len() && #[trigger] g.edges@[w[k - 1] as int]@[x]
                == w[k];
        assert(before_in(fin, ip, g.edges@[fin[ip] as int]@[x]));
        let i2 = choose|i2: int| 0 <= i2 < ip && fin[i2] == w[k];
        assert(fin[i2] == w[k] && i2 <= i0 - k);
    }
}

/// No cycle can pass through a finished vertex: around the cycle its
/// position in the finish record would have to decrease back to itself.
proof fn lemma_no_cycle_through_fin(g: &Graph, fin: Seq<usize>, w: Seq<usize>)
    requires
        g.wf(),
        fin_ok(g, fin),
        w.len() == 0 || fin.contains(w.first()),
    ensures
        !is_cycle(g, w),
{
    if is_cycle(g, w) {
        let i0 = choose|i0: int| 0 <= i0 < fin.len() && fin[i0] == w.first();
        lemma_walk_descends(g, fin, w, w.len() - 1, i0);
        let i = choose|i: int|
            0 <= i < fin.len() && #[trigger] fin[i] == w[w.len() - 1] && i <= i0 - (w.len() - 1);
        assert(fin[i] == fin[i0]);
        assert(i < i0);
    }
}

/// How many entries of `seen` are still false.
pub open spec fn count_unseen(seen: Seq<bool>) -> nat
    decreases seen.len(),
{
    if seen.len() == 0 {
        0
    } else {
        count_unseen(seen.drop_last()) + (if seen.last() {
            0nat
        } else {
            1nat
        })
    }
}

/// Marking can only shrink the number of unseen vertices.
proof fn lemma_count_unseen_le(a: Seq<bool>, b: Seq<bool>)
    requires
        a.len() == b.len(),
        forall|i: int| 0 <= i < a.len() ==> (#[trigger] a[i] ==> b[i]),
    ensures
        count_unseen(b) <= count_unseen(a),
    decreases a.len(),
{
    if a.len() > 0 {
        lemma_count_unseen_le(a.drop_last(), b.drop_last());
        assert(a[a.len() - 1] ==> b[a.len() - 1]);
    }
}

/// Marking a vertex that was unseen strictly shrinks the number of unseen
/// vertices.
proof fn lemma_count_unseen_lt(a: Seq<bool>, b: Seq<bool>, v: int)
    requires
        a.len() == b.len(),
        0 <= v < a.len(),
        !a[v],
        b[v],
        forall|i: int| 0 <= i < a.len() ==> (#[trigger] a[i] ==> b[i]),
    ensures
        count_unseen(b) < count_unseen(a),
    decreases a.len(),
{
    if v == a.len() - 1 {
        lemma_count_unseen_le(a.drop_last(), b.drop_last());
    } else {
        lemma_count_unseen_lt(a.drop_last(), b.drop_last(), v);
        assert(a[a.len() - 1] ==> b[a.len() - 1]);
    }
}

/// A duplicate-free sequence of vertices below `bound` that leaves out the
/// vertex `v` has fewer than `bound` entries.
proof fn lemma_path_shorter_than_bound(s: Seq<usize>, bound: int, v: usize)
    requires
        s.no_duplicates(),
        forall|x: int| 0 <= x < s.len() ==> (#[trigger] s[x] as int) < bound,
        !s.contains(v),
        (v as int) < bound,
        0 <= v,
    ensures
        s.len() < bound,
{
    let si = Seq::new(s.len(), |x: int| s[x] as int);
    assert(si.no_duplicates()) by {
        assert forall|x: int, y: int|
            0 <= x < si.len() && 0 <= y < si.len() && x != y implies si[x] != si[y] by {
            assert(s[x] != s[y]);
        }
    }
    si.unique_seq_to_set();
    let range = set_int_range(0, bound).remove(v as int);
    lemma_int_range(0, bound);
    assert(si.to_set().subset_of(range)) by {
        assert forall|e: int| si.to_set().contains(e) implies range.contains(e) by {
            let x = choose|x: int| 0 <= x < si.len() && si[x] == e;
            assert(s[x] as int == e);
            assert(s[x] != v);
        }
    }
    lemma_len_subset(si.to_set(), range);
    assert(set_int_range(0, bound).contains(v as int));
    assert(range.len() == bound - 1);
}

/// Prefixes pass membership up to their extensions.
proof fn lemma_prefix_contains(a: Seq<usize>, b: Seq<usize>, u: usize)
    requires
        a.is_prefix_of(b),
        a.contains(u),
    ensures
        b.contains(u),
{
    let x = choose|x: int| 0 <= x < a.len() && a[x] == u;
    assert(b[x] == u);
}

/// Being a prefix is transitive.
proof fn lemma_prefix_trans(a: Seq<usize>, b: Seq<usize>, c: Seq<usize>)
    requires
        a.is_prefix_of(b),
        b.is_prefix_of(c),
    ensures
        a.is_prefix_of(c),
{
    assert(a =~= c.subrange(0, a.len() as int));
}

/// A sequence is a prefix of itself extended by one element.
proof fn lemma_prefix_push(a: Seq<usize>, v: usize)
    ensures
        a.is_prefix_of(a.push(v)),
{
    assert(a =~= a.push(v).subrange(0, a.len() as int));
}

/// One depth-first visit of the unseen vertex `v`, with the current path on
/// `stack` and the finished vertices recorded in `fin`.  Returns true only
/// when a back edge into the path was found, in which case the graph
/// provably has a cycle; otherwise finishes `v` and everything reachable
/// from it, and restores the stack.
#[verifier::loop_isolation(false)]
fn dfs(
    g: &Graph,
    v: usize,
    stack: &mut StackSet,
    seen: &mut Vec<bool>,
    fin: &mut Ghost<Seq<usize>>,
) -> (found: bool)
    requires
        g.wf(),
        old(stack).wf(),
        old(seen)@.len() == g.vertices,
        v < g.vertices,
        !old(seen)@[v as int],
        old(stack)@.no_duplicates(),
        is_path(g, old(stack)@),
        seen_partition(g, old(seen)@, old(stack)@, old(fin)@),
        fin_ok(g, old(fin)@),
        fin_disjoint(old(stack)@, old(fin)@),
        old(stack)@.len() > 0 ==> g.has_edge(old(stack)@.last(), v),
        old(stack)@.len() > 0 ==> old(stack)@[0] == 0usize,
        old(stack)@.len() == 0 ==> v == 0,
    ensures
        final(stack).wf(),
        final(seen)@.len() == g.vertices,
        forall|i: int| 0 <= i < g.vertices ==> (#[trigger] old(seen)@[i] ==> final(seen)@[i]),
        final(seen)@[v as int],
        count_unseen(final(seen)@) < count_unseen(old(seen)@),
        !found ==> final(stack)@ == old(stack)@,
        !found ==> old(fin)@.is_prefix_of(final(fin)@),
        !found ==> fin_ok(g, final(fin)@),
        !found ==> seen_partition(g, final(seen)@, old(stack)@, final(fin)@),
        !found ==> fin_disjoint(old(stack)@, final(fin)@),
        !found ==> final(fin)@.contains(v),
        found ==> exists|w: Seq<usize>| is_cycle(g, w) && reaches(g, w.first()),
    decreases count_unseen(old(seen)@),
{
    proof {
        assert(!old(stack)@.contains(v) && !old(fin)@.contains(v)) by {
            assert(!old(seen)@[v as int]);
        }
        lemma_path_shorter_than_bound(old(stack)@, g.vertices as int, v);
    }
    seen.set(v, true);
    proof {
        lemma_count_unseen_lt(old(seen)@, seen@, v as int);
    }
    stack.push(v);
    let ghost path = stack@;
    proof {
        assert(seen_partition(g, seen@, path, fin@)) by {
            assert forall|u: int| 0 <= u < seen@.len() implies ((#[trigger] seen@[u]) <==> (
            path.contains(u as usize) || fin@.contains(u as usize))) by {
                lemma_contains_push(old(stack)@, v, u as usize);
            }
        }
        assert(fin_disjoint(path, fin@)) by {
            assert forall|i: int| 0 <= i < fin@.len() implies !path.contains(
                #[trigger] fin@[i],
            ) by {
                lemma_contains_push(old(stack)@, v, fin@[i]);
            }
        }
    }
    let mut k: usize = 0;
    let num = g.edges[v].len();
    while k < num
        invariant
            stack.wf(),
            stack@ == path,
            path == old(stack)@.push(v),
            seen@.len() == g.vertices,
            seen@[v as int],
            forall|i: int| 0 <= i < g.vertices ==> (#[trigger] old(seen)@[i] ==> seen@[i]),
            count_unseen(seen@) < count_unseen(old(seen)@),
            seen_partition(g, seen@, path, fin@),
            fin_ok(g, fin@),
            fin_disjoint(path, fin@),
            old(fin)@.is_prefix_of(fin@),
            forall|x: int| 0 <= x < k ==> fin@.contains(#[trigger] g.edges@[v as int]@[x]),
            k <= num,
        decreases num - k,
    {
        let w = g.edges[v][k];
        proof {
            assert(g.edges@[v as int]@[k as int] == w);
            assert(g.has_edge(v, w));
        }
        if stack.contains(w) {
            proof {
                let j = choose|j: int| 0 <= j < path.len() && path[j] == w;
                let cyc = path.subrange(j, path.len() as int).push(w);
                assert(path.last() == v);
                assert(is_path(g, path)) by {
                    assert forall|x: int| 0 <= x < path.len() implies (#[trigger] path[x])
                        < g.vertices by {
                        if x < path.len() - 1 {
                            assert(old(stack)@[x] == path[x]);
                        }
                    }
                    assert forall|x: int| 0 <= x < path.len() - 1 implies g.has_edge(
                        #[trigger] path[x],
                        path[x + 1],
                    ) by {
                        if x < path.len() - 2 {
                            assert(old(stack)@[x] == path[x] && old(stack)@[x + 1] == path[x + 1]);
                        } else {
                            assert(path[x] == old(stack)@.last() && path[x + 1] == v);
                        }
                    }
                }
                assert(cyc.first() == w && cyc.last() == w);
                assert(is_path(g, cyc)) by {
                    assert forall|x: int| 0 <= x < cyc.len() implies (#[trigger] cyc[x])
                        < g.vertices by {
                        if x < cyc.len() - 1 {
                            assert(cyc[x] == path[j + x]);
                        }
                    }
                    assert forall|x: int| 0 <= x < cyc.len() - 1 implies g.has_edge(
                        #[trigger] cyc[x],
                        cyc[x + 1],
                    ) by {
                        if x < cyc.len() - 2 {
                            assert(cyc[x] == path[j + x] && cyc[x + 1] == path[j + x + 1]);
                        } else {
                            assert(cyc[x] == path.last() && cyc[x + 1] == w);
                        }
                    }
                }
                assert(is_cycle(g, cyc));
                // The path prefix up to the back edge's target starts at
                // vertex 0, so the cycle runs through a reachable vertex.
                assert(path[0] == 0usize);
                let s0 = path.subrange(0, j + 1);
                assert(is_path(g, s0)) by {
                    assert(forall|x: int| 0 <= x < s0.len() ==> s0[x] == path[x]);
                }
                assert(s0.len() > 0 && s0.first() == 0 && s0.last() == w);
                assert(reaches(g, cyc.first()));
            }
            return true;
        }
        if !seen[w] {
            let ghost seen_before = seen@;
            let ghost fin_before = fin@;
            let sub = dfs(g, w, stack, seen, fin);
            if sub {
                return true;
            }
            proof {
                lemma_count_unseen_le(seen_before, seen@);
                lemma_prefix_trans(old(fin)@, fin_before, fin@);
                assert forall|x: int| 0 <= x < k + 1 implies fin@.contains(
                    #[trigger] g.edges@[v as int]@[x],
                ) by {
                    if x < k {
                        lemma_prefix_contains(fin_before, fin@, g.edges@[v as int]@[x]);
                    }
                }
            }
        } else {
            proof {
                assert(seen@[w as int]);
                assert(!path.contains(w));
                assert(fin@.contains(w));
            }
        }
        k = k + 1;
    }
    stack.pop();
    let ghost fin_before = fin@;
    *fin = Ghost(fin@.push(v));
    proof {
        assert(stack@ =~= old(stack)@);
        assert(!fin_before.contains(v)) by {
            if fin_before.contains(v) {
                let i = choose|i: int| 0 <= i < fin_before.len() && fin_before[i] == v;
                assert(path.contains(fin_before[i]));
            }
        }
        lemma_prefix_push(fin_before, v);
        lemma_prefix_trans(old(fin)@, fin_before, fin@);
        assert(fin_ok(g, fin@)) by {
            assert(fin@.no_duplicates()) by {
                assert forall|x: int, y: int|
                    0 <= x < fin@.len() && 0 <= y < fin@.len() && x != y implies fin@[x] != fin@[y] by {
                    if x < fin_before.len() && y < fin_before.len() {
                        assert(fin_before[x] != fin_before[y]);
                    } else if x < fin_before.len() {
                        assert(fin@[y] == v && fin@[x] == fin_before[x]);
                    } else {
                        assert(fin@[x] == v && fin@[y] == fin_before[y]);
                    }
                }
            }
            assert forall|i: int, x: int|
                0 <= i < fin@.len() && 0 <= x < g.edges@[fin@[i] as int]@.len() implies before_in(
                fin@,
                i,
                #[trigger] g.edges@[fin@[i] as int]@[x],
            ) by {
                if i < fin_before.len() {
                    assert(fin@[i] == fin_before[i]);
                    assert(before_in(fin_before, i, g.edges@[fin_before[i] as int]@[x]));
                    let i2 = choose|i2: int|
                        0 <= i2 < i && fin_before[i2] == g.edges@[fin_before[i] as int]@[x];
                    assert(fin@[i2] == g.edges@[fin@[i] as int]@[x]);
                } else {
                    assert(fin@[i] == v);
                    assert(fin_before.contains(g.edges@[v as int]@[x]));
                    let i2 = choose|i2: int|
                        0 <= i2 < fin_before.len() && fin_before[i2] == g.edges@[v as int]@[x];
                    assert(fin@[i2] == g.edges@[fin@[i] as int]@[x]);
                }
            }
        }
        assert(seen_partition(g, seen@, old(stack)@, fin@)) by {
            assert forall|u: int| 0 <= u < seen@.len() implies ((#[trigger] seen@[u]) <==> (old(
                stack,
            )@.contains(u as usize) || fin@.contains(u as usize))) by {
                lemma_contains_push(old(stack)@, v, u as usize);
                lemma_contains_push(fin_before, v, u as usize);
            }
        }
        assert(fin_disjoint(old(stack)@, fin@)) by {
            assert forall|i: int| 0 <= i < fin@.len() implies !old(stack)@.contains(
                #[trigger] fin@[i],
            ) by {
                lemma_contains_push(old(stack)@, v, fin@[i]);
                if i < fin_before.len() {
                    assert(!path.contains(fin_before[i]));
                } else {
                    assert(fin@[i] == v);
                }
            }
        }
        assert(fin@[fin@.len() - 1] == v);
    }
    false
}

/// Whether the subgraph reachable from vertex 0 contains a cycle.  A true
/// result comes with a cycle through a vertex reachable from vertex 0; a
/// false result proves that no cycle passes through any reachable vertex.
/// The traversal starts only at vertex 0, so it makes no claim about parts
/// of the graph it cannot see.  An empty graph never reports a cycle.
pub fn has_cycle(g: &Graph) -> (r: bool)
    requires
        g.wf(),
    ensures
        r ==> exists|w: Seq<usize>| is_cycle(g, w) && reaches(g, w.first()),
        r ==> has_cycle_spec(g),
        !r ==> forall|w: Seq<usize>| is_cycle(g, w) ==> !reaches(g, w.first()),
        g.vertices == 0 ==> !r,
{
    if g.vertices == 0 {
        proof {
            assert forall|w: Seq<usize>| is_cycle(g, w) implies !reaches(g, w.first()) by {
                assert(w[0] < g.vertices);
            }
        }
        return false;
    }
    let mut stack = StackSet::new();
    let mut seen: Vec<bool> = Vec::new();
    let mut i: usize = 0;
    while i < g.vertices
        invariant
            i <= g.vertices,
            seen@.len() == i,
            forall|x: int| 0 <= x < i ==> !(#[trigger] seen@[x]),
        decreases g.vertices - i,
    {
        seen.push(false);
        i = i + 1;
    }
    let mut fin: Ghost<Seq<usize>> = Ghost(Seq::empty());
    let r = dfs(g, 0, &mut stack, &mut seen, &mut fin);
    proof {
        if r {
            let w = choose|w: Seq<usize>| is_cycle(g, w) && reaches(g, w.first());
            assert(is_cycle(g, w));
        }
        if !r {
            assert forall|w: Seq<usize>| is_cycle(g, w) implies !reaches(g, w.first()) by {
                if reaches(g, w.first()) {
                    let s = choose|s: Seq<usize>|
                        is_path(g, s) && s.len() > 0 && s.first() == 0 && s.last() == w.first();
                    assert(fin@.contains(0usize));
                    lemma_reach_stays_in_fin(g, fin@, s);
                    lemma_no_cycle_through_fin(g, fin@, w);
                }
            }
        }
    }
    r
}

} // verus!
