//! An undirected graph with a breadth-first traversal.
//!
//! The traversal's contract pins its result exactly: the returned order is
//! the breadth-first discovery order (first-in-first-out, neighbours scanned
//! in adjacency-list order), it starts at the requested vertex, repeats
//! nothing, and holds a vertex if and only if some path of edges leads to it
//! from the start.

use vstd::prelude::*;

verus! {

use std::collections::VecDeque;
use vstd::pervasive::VecAdditionalExecFns;

/// A walk through the adjacency lists: every entry is a vertex and each
/// consecutive pair is joined by an edge.
pub open spec fn is_path(adj: Seq<Seq<usize>>, p: Seq<usize>) -> bool {
    &&& p.len() >= 1
    &&& (forall|k: int| 0 <= k < p.len() ==> (#[trigger] p[k]) < adj.len())
    &&& (forall|k: int|
        #![trigger p[k]]
        0 <= k < p.len() - 1 ==> adj[p[k] as int].contains(p[k + 1]))
}

/// Some walk leads from `s` to `t`.
pub open spec fn reachable(adj: Seq<Seq<usize>>, s: usize, t: usize) -> bool {
    exists|p: Seq<usize>| #![trigger is_path(adj, p)] is_path(adj, p) && p.first() == s && p.last() == t
}

/// Every neighbour of a vertex listed in `ord` occurs in `cat`.
spec fn neighbours_covered(adj: Seq<Seq<usize>>, cat: Seq<usize>, ord: Seq<usize>) -> bool {
    forall|i: int, k: int|
        0 <= i < ord.len() && 0 <= k < adj[ord[i] as int].len() ==> cat.contains(
            #[trigger] adj[ord[i] as int][k],
        )
}

/// The number of `false` entries of a boolean sequence.
pub open spec fn count_false(s: Seq<bool>) -> nat
    decreases s.len(),
{
    if s.len() == 0 {
        0
    } else {
        (if s.last() {
            0nat
        } else {
            1nat
        }) + count_false(s.drop_last())
    }
}

/// Marking a `false` entry `true` lowers `count_false` by one.
pub proof fn lemma_count_false_update(s: Seq<bool>, i: int)
    requires
        0 <= i < s.len(),
        !s[i],
    ensures
        count_false(s.update(i, true)) == count_false(s) - 1,
    decreases s.len(),
{
    if i == s.len() - 1 {
        assert(s.update(i, true).drop_last() =~= s.drop_last());
    } else {
        lemma_count_false_update(s.drop_last(), i);
        assert(s.update(i, true).drop_last() =~= s.drop_last().update(i, true));
    }
}

/// Appending one neighbour keeps a walk a walk.
proof fn lemma_reachable_step(adj: Seq<Seq<usize>>, s: usize, u: usize, w: usize)
    requires
        reachable(adj, s, u),
        u < adj.len(),
        adj[u as int].contains(w),
        w < adj.len(),
    ensures
        reachable(adj, s, w),
{
    let p = choose|p: Seq<usize>| is_path(adj, p) && p.first() == s && p.last() == u;
    let p2 = p.push(w);
    assert forall|k: int| #![trigger p2[k]] 0 <= k < p2.len() - 1 implies adj[p2[k] as int].contains(
        p2[k + 1],
    ) by {
        if k < p.len() - 1 {
            assert(p2[k] == p[k] && p2[k + 1] == p[k + 1]);
        } else {
            assert(p2[k] == u && p2[k + 1] == w);
        }
    }
    assert(is_path(adj, p2) && p2.first() == s && p2.last() == w);
}

/// A set of vertices that holds the first vertex of a walk and is closed
/// under edges holds the walk's last vertex too.
proof fn lemma_closed_contains_path(adj: Seq<Seq<usize>>, res: Seq<usize>, p: Seq<usize>)
    requires
        is_path(adj, p),
        res.contains(p.first()),
        neighbours_covered(adj, res, res),
    ensures
        res.contains(p.last()),
    decreases p.len(),
{
    if p.len() > 1 {
        let q = p.drop_last();
        assert forall|k: int| #![trigger q[k]] 0 <= k < q.len() - 1 implies adj[q[k] as int].contains(
            q[k + 1],
        ) by {
            assert(q[k] == p[k] && q[k + 1] == p[k + 1]);
        }
        assert(is_path(adj, q));
        lemma_closed_contains_path(adj, res, q);
        let u = p[p.len() - 2];
        assert(res.contains(u));
        let i = choose|i: int| 0 <= i < res.len() && res[i] == u;
        assert(adj[u as int].contains(p[p.len() - 1]));
        let k = choose|k: int| 0 <= k < adj[u as int].len() && adj[u as int][k] == p[p.len() - 1];
        assert(res.contains(adj[res[i] as int][k]));
    }
}

/// One scan of an adjacency row: each vertex not yet seen is appended to the
/// queue, in list order, and marked seen.
pub open spec fn scan_row(row: Seq<usize>, pend: Seq<usize>, seen: Seq<bool>) -> (Seq<
    usize,
>, Seq<bool>)
    decreases row.len(),
{
    if row.len() == 0 {
        (pend, seen)
    } else {
        let w = row[0];
        if w < seen.len() && !seen[w as int] {
            scan_row(row.drop_first(), pend.push(w), seen.update(w as int, true))
        } else {
            scan_row(row.drop_first(), pend, seen)
        }
    }
}

/// A row scan preserves the sum of unseen marks and queue length, and the
/// length of the marks.
pub proof fn lemma_scan_row_measure(row: Seq<usize>, pend: Seq<usize>, seen: Seq<bool>)
    ensures
        count_false(scan_row(row, pend, seen).1) + scan_row(row, pend, seen).0.len()
            == count_false(seen) + pend.len(),
        scan_row(row, pend, seen).1.len() == seen.len(),
    decreases row.len(),
{
    if row.len() > 0 {
        let w = row[0];
        if w < seen.len() && !seen[w as int] {
            lemma_count_false_update(seen, w as int);
            lemma_scan_row_measure(row.drop_first(), pend.push(w), seen.update(w as int, true));
        } else {
            lemma_scan_row_measure(row.drop_first(), pend, seen);
        }
    }
}

/// The remainder of a breadth-first traversal: take the queue's head, then
/// scan its adjacency row in order, enqueueing the vertices seen for the
/// first time, until the queue empties.
pub open spec fn traversal_from(adj: Seq<Seq<usize>>, pend: Seq<usize>, seen: Seq<bool>) -> Seq<
    usize,
>
    decreases count_false(seen) + pend.len(),
{
    if pend.len() == 0 {
        Seq::empty()
    } else {
        let node = pend[0];
        let row = if node < adj.len() {
            adj[node as int]
        } else {
            Seq::<usize>::empty()
        };
        proof {
            lemma_scan_row_measure(row, pend.drop_first(), seen);
        }
        let next = scan_row(row, pend.drop_first(), seen);
        seq![node] + traversal_from(adj, next.0, next.1)
    }
}

/// An undirected graph over vertices `0 .. n`, kept as adjacency lists.
pub struct Graph {
    adj: Vec<Vec<usize>>,
}

impl View for Graph {
    type V = Seq<Seq<usize>>;

    closed spec fn view(&self) -> Seq<Seq<usize>> {
        Seq::new(self.adj@.len(), |i: int| self.adj@[i]@)
    }
}

impl Graph {
    /// Every listed neighbour is a vertex of the graph.
    pub open spec fn wf(self) -> bool {
        forall|i: int, k: int|
            0 <= i < self@.len() && 0 <= k < self@[i].len() ==> (#[trigger] self@[i][k])
                < self@.len()
    }

    /// A graph with `n` vertices and no edges yet.
    pub fn new(n: usize) -> (g: Self)
        ensures
            g.wf(),
            g@.len() == n,
            forall|i: int| 0 <= i < n ==> (#[trigger] g@[i]).len() == 0,
    {
        let mut adj: Vec<Vec<usize>> = Vec::new();
        while adj.len() < n
            invariant
                adj@.len() <= n,
                forall|i: int| 0 <= i < adj@.len() ==> (#[trigger] adj@[i])@.len() == 0,
            decreases n - adj@.len(),
        {
            adj.push(Vec::new());
        }
        Graph { adj }
    }

    /// Add an undirected edge: each endpoint is appended to the other's
    /// adjacency list.
    pub fn add_edge(&mut self, src: usize, dest: usize)
        requires
            old(self).wf(),
            src < old(self)@.len(),
            dest < old(self)@.len(),
        ensures
            final(self).wf(),
            final(self)@.len() == old(self)@.len(),
            src != dest ==> final(self)@[src as int] == old(self)@[src as int].push(dest),
            src != dest ==> final(self)@[dest as int] == old(self)@[dest as int].push(src),
            src == dest ==> final(self)@[src as int] == old(self)@[src as int].push(dest).push(
                src,
            ),
            forall|i: int|
                0 <= i < old(self)@.len() && i != src && i != dest
                    ==> (#[trigger] final(self)@[i]) == old(self)@[i],
    {
        self.adj[src].push(dest);
        self.adj[dest].push(src);
        proof {
            let oldv = old(self)@;
            assert forall|i: int, k: int|
                0 <= i < self@.len() && 0 <= k < self@[i].len() implies (#[trigger] self@[i][k])
                < self@.len() by {
                if i == src && i == dest {
                    assert(self@[i] == oldv[i].push(dest).push(src));
                    if k < oldv[i].len() {
                        assert(self@[i][k] == oldv[i][k]);
                    }
                } else if i == src {
                    assert(self@[i] == oldv[i].push(dest));
                    if k < oldv[i].len() {
                        assert(self@[i][k] == oldv[i][k]);
                    }
                } else if i == dest {
                    assert(self@[i] == oldv[i].push(src));
                    if k < oldv[i].len() {
                        assert(self@[i][k] == oldv[i][k]);
                    }
                } else {
                    assert(self@[i] == oldv[i]);
                    assert(self@[i][k] == oldv[i][k]);
                }
            }
        }
    }

    /// Breadth-first traversal from `start`, returning the order in which
    /// vertices were visited: it begins with `start`, repeats no vertex,
    /// holds exactly the vertices reachable from `start`, and is precisely
    /// the first-in-first-out discovery order that `traversal_from` spells
    /// out.
    pub fn bfs_with_return(&self, start: usize) -> (order: Vec<usize>)
        requires
            self.wf(),
            start < self@.len(),
        ensures
            order@.len() >= 1,
            order@[0] == start,
            forall|i: int| 0 <= i < order@.len() ==> (#[trigger] order@[i]) < self@.len(),
            forall|i: int, j: int| 0 <= i < j < order@.len() ==> order@[i] != order@[j],
            forall|t: usize|
                #![trigger order@.contains(t)]
                #![trigger reachable(self@, start, t)]
                order@.contains(t) <==> reachable(self@, start, t),
            order@ == traversal_from(
                self@,
                seq![start],
                Seq::new(self@.len(), |i: int| false).update(start as int, true),
            ),
    {
        let n = self.adj.len();
        let mut visited: Vec<bool> = Vec::new();
        while visited.len() < n
            invariant
                visited@.len() <= n,
                forall|v: int| 0 <= v < visited@.len() ==> !(#[trigger] visited@[v]),
            decreases n - visited@.len(),
        {
            visited.push(false);
        }
        let mut queue: VecDeque<usize> = VecDeque::new();
        let mut visit_order: Vec<usize> = Vec::new();

        let ghost blank = visited@;
        visited.set(start, true);
        queue.push_back(start);
        let ghost seen_init = Seq::new(self@.len(), |i: int| false).update(start as int, true);
        let ghost total = traversal_from(self@, seq![start], seen_init);
        proof {
            assert(blank =~= Seq::new(self@.len(), |i: int| false));
            assert(visited@ == seen_init);
            assert(queue@ =~= seq![start]);
            assert(visit_order@ + traversal_from(self@, queue@, visited@) =~= total);
            let cat = visit_order@ + queue@;
            assert(cat =~= seq![start]);
            assert(is_path(self@, seq![start]));
            assert(reachable(self@, start, start));
            assert forall|v: usize| v < self@.len() implies (visited@[v as int] <==> cat.contains(
                v,
            )) by {
                if cat.contains(v) {
                    assert(cat[choose|i: int| 0 <= i < cat.len() && cat[i] == v] == v);
                }
                if v == start {
                    assert(cat[0] == start);
                }
            }
        }

        while queue.len() > 0
            invariant
                self.wf(),
                start < self@.len(),
                visited@.len() == self@.len(),
                (visit_order@ + queue@).len() >= 1,
                (visit_order@ + queue@)[0] == start,
                forall|i: int|
                    0 <= i < (visit_order@ + queue@).len() ==> (#[trigger] (visit_order@
                        + queue@)[i]) < self@.len(),
                forall|i: int|
                    0 <= i < (visit_order@ + queue@).len() ==> reachable(
                        self@,
                        start,
                        #[trigger] (visit_order@ + queue@)[i],
                    ),
                forall|i: int, j: int|
                    0 <= i < j < (visit_order@ + queue@).len() ==> (visit_order@ + queue@)[i] != (
                    visit_order@ + queue@)[j],
                forall|v: usize|
                    v < self@.len() ==> ((#[trigger] visited@[v as int]) <==> (visit_order@
                        + queue@).contains(v)),
                neighbours_covered(self@, visit_order@ + queue@, visit_order@),
                visit_order@ + traversal_from(self@, queue@, visited@) == total,
            decreases count_false(visited@) + queue@.len(),
        {
            let ghost cat0 = visit_order@ + queue@;
            let ghost qb = queue@;
            let ghost vb = visited@;
            let node = queue.pop_front().unwrap();
            visit_order.push(node);
            proof {
                assert(visit_order@ + queue@ =~= cat0);
                assert(cat0.contains(node)) by {
                    assert(cat0[visit_order@.len() - 1] == node);
                }
            }
            let ghost m0 = count_false(visited@) + queue@.len();
            let ghost row = self@[node as int];
            let ghost sr = scan_row(row, queue@, visited@);
            proof {
                assert(node < self@.len()) by {
                    assert(cat0[visit_order@.len() - 1] == node);
                }
                assert(queue@ =~= qb.drop_first());
                assert(traversal_from(self@, qb, vb) == seq![node] + traversal_from(
                    self@,
                    sr.0,
                    sr.1,
                ));
                assert(visit_order@ + traversal_from(self@, sr.0, sr.1) =~= total);
                assert(row.subrange(0, row.len() as int) =~= row);
            }
            let mut k: usize = 0;
            while k < self.adj[node].len()
                invariant
                    self.wf(),
                    start < self@.len(),
                    visited@.len() == self@.len(),
                    node < self@.len(),
                    row == self@[node as int],
                    k <= row.len(),
                    visit_order@.len() >= 1,
                    visit_order@.last() == node,
                    (visit_order@ + queue@).len() >= 1,
                    (visit_order@ + queue@)[0] == start,
                    forall|i: int|
                        0 <= i < (visit_order@ + queue@).len() ==> (#[trigger] (visit_order@
                            + queue@)[i]) < self@.len(),
                    forall|i: int|
                        0 <= i < (visit_order@ + queue@).len() ==> reachable(
                            self@,
                            start,
                            #[trigger] (visit_order@ + queue@)[i],
                        ),
                    forall|i: int, j: int|
                        0 <= i < j < (visit_order@ + queue@).len() ==> (visit_order@ + queue@)[i]
                            != (visit_order@ + queue@)[j],
                    forall|v: usize|
                        v < self@.len() ==> ((#[trigger] visited@[v as int]) <==> (visit_order@
                            + queue@).contains(v)),
                    neighbours_covered(self@, visit_order@ + queue@, visit_order@.drop_last()),
                    forall|kk: int|
                        0 <= kk < k ==> (visit_order@ + queue@).contains(#[trigger] row[kk]),
                    count_false(visited@) + queue@.len() == m0,
                    scan_row(row.subrange(k as int, row.len() as int), queue@, visited@) == sr,
                    visit_order@ + traversal_from(self@, sr.0, sr.1) == total,
                decreases row.len() - k,
            {
                let neighbor = self.adj[node][k];
                assert(neighbor < self@.len());
                if !visited[neighbor] {
                    let ghost cat1 = visit_order@ + queue@;
                    let ghost q1 = queue@;
                    let ghost vis1 = visited@;
                    visited.set(neighbor, true);
                    queue.push_back(neighbor);
                    proof {
                        assert(visit_order@ + queue@ =~= cat1.push(neighbor));
                        lemma_count_false_update(vis1, neighbor as int);
                        let suf = row.subrange(k as int, row.len() as int);
                        assert(suf[0] == row[k as int]);
                        assert(suf.drop_first() =~= row.subrange(k as int + 1, row.len() as int));
                        assert(!vis1[neighbor as int]);
                        assert(scan_row(
                            suf.drop_first(),
                            q1.push(neighbor),
                            vis1.update(neighbor as int, true),
                        ) == sr);
                        assert(scan_row(
                            row.subrange(k as int + 1, row.len() as int),
                            queue@,
                            visited@,
                        ) == sr);
                        assert(reachable(self@, start, node)) by {
                            assert(cat1[visit_order@.len() - 1] == node);
                        }
                        lemma_reachable_step(self@, start, node, neighbor);
                        assert forall|v: usize| v < self@.len() implies ((#[trigger] visited@[v as int])
                            <==> (visit_order@ + queue@).contains(v)) by {
                            let cat2 = cat1.push(neighbor);
                            if v == neighbor {
                                assert(cat2[cat2.len() - 1] == neighbor);
                            } else {
                                if cat2.contains(v) {
                                    let i = choose|i: int| 0 <= i < cat2.len() && cat2[i] == v;
                                    assert(cat1[i] == v);
                                }
                                if cat1.contains(v) {
                                    let i = choose|i: int| 0 <= i < cat1.len() && cat1[i] == v;
                                    assert(cat2[i] == v);
                                }
                            }
                        }
                        assert forall|i: int, j: int|
                            0 <= i < j < (visit_order@ + queue@).len() implies (visit_order@
                            + queue@)[i] != (visit_order@ + queue@)[j] by {
                            let cat2 = cat1.push(neighbor);
                            if j < cat2.len() - 1 {
                                assert(cat2[i] == cat1[i] && cat2[j] == cat1[j]);
                            } else {
                                assert(cat2[j] == neighbor);
                                assert(cat2[i] == cat1[i]);
                                if cat1[i] == neighbor {
                                    assert(cat1.contains(neighbor));
                                }
                            }
                        }
                        assert forall|i: int, kk: int|
                            0 <= i < visit_order@.drop_last().len() && 0 <= kk < self@[visit_order@.drop_last()[i] as int].len()
                            implies (visit_order@ + queue@).contains(
                            self@[visit_order@.drop_last()[i] as int][kk],
                        ) by {
                            let w = self@[visit_order@.drop_last()[i] as int][kk];
                            assert(cat1.contains(w));
                            let x = choose|x: int| 0 <= x < cat1.len() && cat1[x] == w;
                            assert(cat1.push(neighbor)[x] == w);
                        }
                        assert forall|kk: int| 0 <= kk < k + 1 implies (visit_order@
                            + queue@).contains(#[trigger] row[kk]) by {
                            let cat2 = cat1.push(neighbor);
                            if kk < k {
                                assert(cat1.contains(row[kk]));
                                let x = choose|x: int| 0 <= x < cat1.len() && cat1[x] == row[kk];
                                assert(cat2[x] == row[kk]);
                            } else {
                                assert(cat2[cat2.len() - 1] == neighbor);
                            }
                        }
                    }
                } else {
                    proof {
                        let suf = row.subrange(k as int, row.len() as int);
                        assert(suf[0] == row[k as int]);
                        assert(suf.drop_first() =~= row.subrange(k as int + 1, row.len() as int));
                        assert(scan_row(
                            row.subrange(k as int + 1, row.len() as int),
                            queue@,
                            visited@,
                        ) == sr);
                        assert forall|kk: int| 0 <= kk < k + 1 implies (visit_order@
                            + queue@).contains(#[trigger] row[kk]) by {
                        }
                    }
                }
                k += 1;
            }
            proof {
                assert forall|i: int, kk: int|
                    0 <= i < visit_order@.len() && 0 <= kk < self@[visit_order@[i] as int].len()
                    implies (visit_order@ + queue@).contains(
                    #[trigger] self@[visit_order@[i] as int][kk],
                ) by {
                    if i == visit_order@.len() - 1 {
                        assert(visit_order@[i] == node);
                        assert((visit_order@ + queue@).contains(row[kk]));
                    } else {
                        assert(visit_order@.drop_last()[i] == visit_order@[i]);
                    }
                }
                assert(row.subrange(row.len() as int, row.len() as int) =~= Seq::<usize>::empty());
                assert(scan_row(Seq::<usize>::empty(), queue@, visited@) == (queue@, visited@));
                assert(queue@ == sr.0 && visited@ == sr.1);
                assert(visit_order@ + traversal_from(self@, queue@, visited@) == total);
            }
        }

        proof {
            assert(traversal_from(self@, queue@, visited@) == Seq::<usize>::empty());
            assert(visit_order@ + Seq::<usize>::empty() =~= visit_order@);
            assert(visit_order@ == total);
            let ord = visit_order@;
            assert(ord =~= visit_order@ + queue@);
            assert forall|t: usize| reachable(self@, start, t) implies ord.contains(t) by {
                let p = choose|p: Seq<usize>|
                    is_path(self@, p) && p.first() == start && p.last() == t;
                assert(ord.contains(start)) by {
                    assert(ord[0] == start);
                }
                lemma_closed_contains_path(self@, ord, p);
            }
            assert forall|t: usize| ord.contains(t) implies reachable(self@, start, t) by {
                let i = choose|i: int| 0 <= i < ord.len() && ord[i] == t;
                assert(ord[i] == t);
            }
        }
        visit_order
    }
}

} // verus!
