use vstd::prelude::*;
use vstd::set_lib::set_int_range;
use crate::graph::AdjEntry;

verus! {

/// Some adjacency entry of `u` leads to `v`.
pub open spec fn arc_to<E>(adj: Seq<Seq<AdjEntry<E>>>, u: int, v: int) -> bool {
    exists|j: int| 0 <= j < adj[u].len() && #[trigger] adj[u][j].0 == v
}

/// `p` is a walk along the arcs: each id has an arc to the next.
pub open spec fn is_walk<E>(adj: Seq<Seq<AdjEntry<E>>>, p: Seq<int>) -> bool {
    &&& p.len() > 0
    &&& forall|i: int| 0 <= i < p.len() ==> 0 <= #[trigger] p[i] < adj.len()
    &&& forall|i: int| 0 <= i < p.len() - 1 ==> arc_to(adj, #[trigger] p[i], p[i + 1])
}

/// `t` can be reached from `s` along the arcs.
pub open spec fn reachable<E>(adj: Seq<Seq<AdjEntry<E>>>, s: int, t: int) -> bool {
    exists|p: Seq<int>| #[trigger] is_walk(adj, p) && p[0] == s && p.last() == t
}

/// Every arc leads to an id in range.
pub open spec fn arcs_in_range<E>(adj: Seq<Seq<AdjEntry<E>>>) -> bool {
    forall|u: int, j: int| 0 <= u < adj.len() && 0 <= j < adj[u].len() ==> (#[trigger] adj[u][j]).0 < adj.len()
}

pub open spec fn view_adj<E>(nbs: Seq<Vec<AdjEntry<E>>>) -> Seq<Seq<AdjEntry<E>>> {
    nbs.map_values(|l: Vec<AdjEntry<E>>| l@)
}

/// A set that holds the first id of a walk and is closed under the arcs holds the whole walk.
pub proof fn lemma_closed_holds_walk<E>(adj: Seq<Seq<AdjEntry<E>>>, p: Seq<int>, inside: spec_fn(int) -> bool)
    requires
        is_walk(adj, p),
        inside(p[0]),
        forall|u: int, j: int|
            0 <= u < adj.len() && inside(u) && 0 <= j < adj[u].len() ==> inside(#[trigger] adj[u][j].0 as int),
    ensures
        inside(p.last()),
    decreases p.len(),
{
    if p.len() > 1 {
        let q = p.drop_last();
        assert(is_walk(adj, q)) by {
            assert forall|i: int| 0 <= i < q.len() - 1 implies arc_to(adj, #[trigger] q[i], q[i + 1]) by {
                assert(arc_to(adj, p[i], p[i + 1]));
            }
        }
        lemma_closed_holds_walk(adj, q, inside);
        let m = q.last();
        assert(arc_to(adj, p[p.len() - 2], p[p.len() - 1]));
        let j = choose|j: int| 0 <= j < adj[m].len() && #[trigger] adj[m][j].0 == p.last();
        assert(inside(adj[m][j].0 as int));
    }
}

/// A walk extended by one arc is a walk.
pub proof fn lemma_walk_push<E>(adj: Seq<Seq<AdjEntry<E>>>, p: Seq<int>, t: int)
    requires
        is_walk(adj, p),
        0 <= t < adj.len(),
        arc_to(adj, p.last(), t),
    ensures
        is_walk(adj, p.push(t)),
        p.push(t)[0] == p[0],
        p.push(t).last() == t,
{
    let q = p.push(t);
    assert forall|i: int| 0 <= i < q.len() - 1 implies arc_to(adj, #[trigger] q[i], q[i + 1]) by {
        if i < p.len() - 1 {
            assert(arc_to(adj, p[i], p[i + 1]));
        }
    }
    assert forall|i: int| 0 <= i < q.len() implies 0 <= #[trigger] q[i] < adj.len() by {
        if i < p.len() {
            assert(0 <= p[i] < adj.len());
        }
    }
}

/// Breadth-first sweep from `start`: the ids it reaches.
pub fn bfs_reach<E>(nbs: &Vec<Vec<AdjEntry<E>>>, start: usize) -> (visited: Vec<bool>)
    requires
        start < nbs@.len(),
        arcs_in_range(view_adj(nbs@)),
    ensures
        visited@.len() == nbs@.len(),
        forall|t: int| 0 <= t < nbs@.len() ==> (visited@[t] <==> reachable(view_adj(nbs@), start as int, t)),
{
    let ghost adj = view_adj(nbs@);
    let n = nbs.len();
    let mut visited: Vec<bool> = Vec::new();
    let mut i: usize = 0;
    while i < n
        invariant
            i <= n,
            visited@.len() == i,
            forall|t: int| 0 <= t < i ==> !visited@[t],
        decreases n - i,
    {
        visited.push(false);
        i = i + 1;
    }
    let mut queue: Vec<usize> = Vec::new();
    visited.set(start, true);
    queue.push(start);
    proof {
        assert(is_walk(adj, seq![start as int]));
        assert(queue@[0] == start);
        vstd::set_lib::lemma_int_range(0, n as int);
        assert(Set::new(|t: int| 0 <= t < n && !visited@[t]) =~= set_int_range(0, n as int).remove(start as int));
    }
    let ghost mut unvisited: Set<int> = Set::new(|t: int| 0 <= t < n && !visited@[t]);
    let mut head: usize = 0;
    while head < queue.len()
        invariant
            n == nbs@.len(),
            adj == view_adj(nbs@),
            arcs_in_range(adj),
            start < n,
            visited@.len() == n,
            visited@[start as int],
            head <= queue@.len(),
            unvisited == Set::new(|t: int| 0 <= t < n && !visited@[t]),
            unvisited.finite(),
            queue@.len() + unvisited.len() == n,
            forall|q: int| 0 <= q < queue@.len() ==> (#[trigger] queue@[q]) < n && visited@[queue@[q] as int],
            forall|t: int| 0 <= t < n && visited@[t] ==> reachable(adj, start as int, t),
            forall|t: int| 0 <= t < n && visited@[t] ==> queue@.contains(t as usize),
            forall|q: int, j: int|
                0 <= q < head && 0 <= j < adj[queue@[q] as int].len() ==> visited@[(#[trigger] adj[queue@[q] as int][j]).0 as int],
        decreases n - head,
    {
        let node = queue[head];
        let mut j: usize = 0;
        while j < nbs[node].len()
            invariant
                n == nbs@.len(),
                adj == view_adj(nbs@),
                arcs_in_range(adj),
                node < n,
                node == queue@[head as int],
                visited@.len() == n,
                visited@[start as int],
                reachable(adj, start as int, node as int),
                head < queue@.len(),
                j <= adj[node as int].len(),
                unvisited == Set::new(|t: int| 0 <= t < n && !visited@[t]),
                unvisited.finite(),
                queue@.len() + unvisited.len() == n,
                forall|q: int| 0 <= q < queue@.len() ==> (#[trigger] queue@[q]) < n && visited@[queue@[q] as int],
                forall|t: int| 0 <= t < n && visited@[t] ==> reachable(adj, start as int, t),
                forall|t: int| 0 <= t < n && visited@[t] ==> queue@.contains(t as usize),
                forall|q: int, jj: int|
                    0 <= q < head && 0 <= jj < adj[queue@[q] as int].len() ==> visited@[(#[trigger] adj[queue@[q] as int][jj]).0 as int],
                forall|jj: int| 0 <= jj < j ==> visited@[(#[trigger] adj[node as int][jj]).0 as int],
            decreases adj[node as int].len() - j,
        {
            assert(adj[node as int] == nbs@[node as int]@);
            let nb = nbs[node][j].0;
            assert(nb == adj[node as int][j as int].0);
            if !visited[nb] {
                proof {
                    let p = choose|p: Seq<int>| #[trigger] is_walk(adj, p) && p[0] == start as int && p.last() == node as int;
                    assert(arc_to(adj, node as int, nb as int));
                    lemma_walk_push(adj, p, nb as int);
                    assert(unvisited.contains(nb as int));
                }
                let ghost q0 = queue@;
                visited.set(nb, true);
                queue.push(nb);
                proof {
                    assert forall|t: int| 0 <= t < n && visited@[t] implies queue@.contains(t as usize) by {
                        if t != nb {
                            let q = choose|q: int| 0 <= q < q0.len() && q0[q] == t as usize;
                            assert(queue@[q] == t as usize);
                        } else {
                            assert(queue@[q0.len() as int] == nb);
                        }
                    }
                    assert(Set::new(|t: int| 0 <= t < n && !visited@[t]) =~= unvisited.remove(nb as int));
                    unvisited = unvisited.remove(nb as int);
                }
            }
            j = j + 1;
        }
        proof {
            assert(unvisited.len() <= n) by {
                vstd::set_lib::lemma_int_range(0, n as int);
                assert(unvisited.subset_of(set_int_range(0, n as int)));
                vstd::set_lib::lemma_len_subset(unvisited, set_int_range(0, n as int));
            }
        }
        head = head + 1;
    }
    proof {
        let inside = |t: int| 0 <= t < n && visited@[t];
        assert forall|u: int, j: int|
            0 <= u < adj.len() && inside(u) && 0 <= j < adj[u].len() implies inside(#[trigger] adj[u][j].0 as int) by {
            assert(queue@.contains(u as usize));
            let q = choose|q: int| 0 <= q < queue@.len() && queue@[q] == u as usize;
            assert(visited@[adj[queue@[q] as int][j].0 as int]);
        }
        assert forall|t: int| 0 <= t < n && reachable(adj, start as int, t) implies visited@[t] by {
            let p = choose|p: Seq<int>| #[trigger] is_walk(adj, p) && p[0] == start as int && p.last() == t;
            lemma_closed_holds_walk(adj, p, inside);
        }
    }
    visited
}


/// Every arc has a partner arc in the opposite direction.
pub open spec fn symmetric<E>(adj: Seq<Seq<AdjEntry<E>>>) -> bool {
    forall|u: int, j: int|
        0 <= u < adj.len() && 0 <= j < adj[u].len() ==> arc_to(adj, (#[trigger] adj[u][j]).0 as int, u)
}

/// Along symmetric arcs, a walk can be taken backwards.
pub proof fn lemma_walk_reverse<E>(adj: Seq<Seq<AdjEntry<E>>>, p: Seq<int>)
    requires
        symmetric(adj),
        is_walk(adj, p),
    ensures
        is_walk(adj, p.reverse()),
        p.reverse()[0] == p.last(),
        p.reverse().last() == p[0],
{
    let q = p.reverse();
    assert forall|i: int| 0 <= i < q.len() implies 0 <= #[trigger] q[i] < adj.len() by {
        assert(q[i] == p[p.len() - 1 - i]);
    }
    assert forall|i: int| 0 <= i < q.len() - 1 implies arc_to(adj, #[trigger] q[i], q[i + 1]) by {
        let a = p.len() - 2 - i;
        assert(q[i] == p[a + 1]);
        assert(q[i + 1] == p[a]);
        assert(arc_to(adj, p[a], p[a + 1]));
        let j = choose|j: int| 0 <= j < adj[p[a]].len() && #[trigger] adj[p[a]][j].0 == p[a + 1];
        assert(arc_to(adj, adj[p[a]][j].0 as int, p[a]));
    }
}

/// Two walks that meet join into one.
pub proof fn lemma_walk_concat<E>(adj: Seq<Seq<AdjEntry<E>>>, p: Seq<int>, q: Seq<int>)
    requires
        is_walk(adj, p),
        is_walk(adj, q),
        p.last() == q[0],
    ensures
        is_walk(adj, p + q.drop_first()),
        (p + q.drop_first())[0] == p[0],
        (p + q.drop_first()).last() == q.last(),
{
    let r = p + q.drop_first();
    assert forall|i: int| 0 <= i < r.len() implies 0 <= #[trigger] r[i] < adj.len() by {
        if i >= p.len() {
            assert(r[i] == q[i - p.len() + 1]);
        }
    }
    assert forall|i: int| 0 <= i < r.len() - 1 implies arc_to(adj, #[trigger] r[i], r[i + 1]) by {
        if i < p.len() - 1 {
            assert(arc_to(adj, p[i], p[i + 1]));
        } else {
            let k = i - p.len() + 1;
            assert(r[i] == q[k]);
            assert(r[i + 1] == q[k + 1]);
            assert(arc_to(adj, q[k], q[k + 1]));
        }
    }
    if q.len() > 1 {
        assert(r.last() == q.last());
    }
}

/// With symmetric arcs, if everything is reachable from one node, everything is
/// reachable from every node.
pub proof fn lemma_reachable_from_any<E>(adj: Seq<Seq<AdjEntry<E>>>, s: int, root: int)
    requires
        symmetric(adj),
        0 <= root < adj.len(),
        forall|t: int| 0 <= t < adj.len() ==> reachable(adj, s, t),
    ensures
        forall|t: int| 0 <= t < adj.len() ==> reachable(adj, root, t),
{
    assert(reachable(adj, s, root));
    let p = choose|p: Seq<int>| #[trigger] is_walk(adj, p) && p[0] == s && p.last() == root;
    lemma_walk_reverse(adj, p);
    assert forall|t: int| 0 <= t < adj.len() implies reachable(adj, root, t) by {
        assert(reachable(adj, s, t));
        let q = choose|q: Seq<int>| #[trigger] is_walk(adj, q) && q[0] == s && q.last() == t;
        lemma_walk_concat(adj, p.reverse(), q);
        assert(is_walk(adj, p.reverse() + q.drop_first()));
    }
}

} // verus!
