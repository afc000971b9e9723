use vstd::prelude::*;
use crate::graph::AdjEntry;
use crate::traversal::{view_adj, arc_to, arcs_in_range, reachable, is_walk, lemma_closed_holds_walk, lemma_walk_push};

verus! {

/// What rooted-tree indexing records for one node.
#[derive(Clone, Debug)]
pub struct TreeNode {
    /// The parent's id; the root is its own parent.
    pub parent_id: usize,
    /// When the traversal first reached the node.
    pub enter_time: usize,
    /// Depth below the root.
    pub level: usize,
    /// `pow2_ancestors[k]` is the ancestor `2^k` levels up (the root when that is above it).
    pub pow2_ancestors: Option<Vec<usize>>,
    /// The last enter time inside the node's subtree.
    pub exit_time: Option<usize>,
    /// Up-node count: one for each arc (other than to the parent) to a node still
    /// open when this node closed, plus the count of each already closed neighbour.
    pub subtree_upnode_cnt: Option<usize>,
    /// One plus the sizes of the neighbours (other than the parent) that closed
    /// before this node; on a tree, the number of nodes in the subtree.
    pub subtree_sz: Option<usize>,
}

struct Frame {
    node: usize,
    parent: usize,
    cursor: usize,
}

/// `a` lies on the parent chain of `b` (or is `b`).
pub open spec fn is_chain_ancestor(infos: Seq<TreeNode>, a: int, b: int) -> bool {
    exists|d: nat| anc(parents_of(infos), b, d) == a
}

/// Euler-interval containment of two records.
pub open spec fn contains_interval(infos: Seq<TreeNode>, a: int, b: int) -> bool {
    &&& infos[a].enter_time <= infos[b].enter_time
    &&& infos[a].exit_time.unwrap() >= infos[b].exit_time.unwrap()
}

/// Interval overlap only happens along parent chains: when `b` is entered inside
/// `a`'s interval, `a` is on `b`'s parent chain.
pub open spec fn nested(infos: Seq<TreeNode>) -> bool {
    forall|a: int, b: int|
        #![trigger is_chain_ancestor(infos, a, b)]
        0 <= a < infos.len() && 0 <= b < infos.len() && infos[a].enter_time <= infos[b].enter_time
            && infos[b].enter_time <= infos[a].exit_time.unwrap() ==> is_chain_ancestor(infos, a, b)
}

/// Parent chains from entered nodes stay among entered nodes, so they do not see
/// records of nodes not yet entered.
proof fn lemma_chain_stable(i1: Seq<TreeNode>, i2: Seq<TreeNode>, entered: Seq<bool>, b: int, d: nat)
    requires
        i1.len() == i2.len(),
        entered.len() == i1.len(),
        0 <= b < i1.len(),
        entered[b],
        forall|x: int| 0 <= x < i1.len() && #[trigger] entered[x] ==> i1[x].parent_id == i2[x].parent_id
            && i1[x].parent_id < i1.len() && entered[i1[x].parent_id as int],
    ensures
        anc(parents_of(i1), b, d) == anc(parents_of(i2), b, d),
    decreases d,
{
    if d > 0 {
        assert(parents_of(i1)[b] == i1[b].parent_id);
        assert(parents_of(i2)[b] == i2[b].parent_id);
        lemma_chain_stable(i1, i2, entered, i1[b].parent_id as int, (d - 1) as nat);
    }
}

/// `a + b`, capped at `usize::MAX`.
pub open spec fn sat_add(a: usize, b: usize) -> usize {
    if a + b > usize::MAX {
        usize::MAX
    } else {
        (a + b) as usize
    }
}

/// Up-node count and size folded over the first `j` neighbours of a closing node:
/// the parent is skipped, an open neighbour adds one up-node, a closed one adds its
/// own counts.
pub open spec fn fold_aggregates<E>(
    row: Seq<AdjEntry<E>>,
    parent: usize,
    exited: Seq<bool>,
    upnodes: Seq<usize>,
    sizes: Seq<usize>,
    j: nat,
) -> (usize, usize)
    decreases j,
{
    if j == 0 || j > row.len() {
        (0, 1)
    } else {
        let (u, s) = fold_aggregates(row, parent, exited, upnodes, sizes, (j - 1) as nat);
        let nb = row[j - 1].0;
        if nb == parent {
            (u, s)
        } else if !exited[nb as int] {
            (sat_add(u, 1), s)
        } else {
            (sat_add(u, upnodes[nb as int]), sat_add(s, sizes[nb as int]))
        }
    }
}

/// Facts about the record of every entered node during the traversal.
pub open spec fn entered_ok<E>(adj: Seq<Seq<AdjEntry<E>>>, root: int, infos: Seq<TreeNode>, v: int) -> bool {
    let r = infos[v];
    let p = r.parent_id as int;
    &&& 0 <= p < adj.len()
    &&& r.level <= r.enter_time
    &&& if v == root {
        p == root && r.level == 0 && r.enter_time == 0
    } else {
        &&& arc_to(adj, p, v)
        &&& infos[p].enter_time < r.enter_time
        &&& r.level == infos[p].level + 1
    }
}

/// Facts about the record of every exited node during the traversal.
pub open spec fn exited_ok(infos: Seq<TreeNode>, exits: Seq<usize>, v: int, exited: Seq<bool>) -> bool {
    let p = infos[v].parent_id as int;
    &&& infos[v].enter_time <= exits[v]
    &&& exited[p] ==> exits[v] <= exits[p]
}

fn blank_record() -> (r: TreeNode)
    ensures
        r.exit_time.is_none(),
        r.subtree_sz.is_none(),
{
    TreeNode {
        parent_id: 0,
        enter_time: 0,
        level: 0,
        pow2_ancestors: None,
        exit_time: None,
        subtree_upnode_cnt: None,
        subtree_sz: None,
    }
}

/// The state of the depth-first traversal.
struct Walk {
    infos: Vec<TreeNode>,
    entered: Vec<bool>,
    exited: Vec<bool>,
    exits: Vec<usize>,
    upnodes: Vec<usize>,
    sizes: Vec<usize>,
    stack: Vec<Frame>,
    timer: usize,
    unentered: Ghost<Set<int>>,
    unexited: Ghost<Set<int>>,
}

impl Walk {
    spec fn frame_ok<E>(&self, adj: Seq<Seq<AdjEntry<E>>>, f: Frame) -> bool {
        &&& 0 <= f.node < adj.len()
        &&& self.entered@[f.node as int]
        &&& !self.exited@[f.node as int]
        &&& f.parent == self.infos@[f.node as int].parent_id
        &&& f.cursor <= adj[f.node as int].len()
        &&& forall|j: int| 0 <= j < f.cursor ==> self.entered@[(#[trigger] adj[f.node as int][j]).0 as int]
    }

    #[verifier::opaque]
    spec fn inv_entries<E>(&self, adj: Seq<Seq<AdjEntry<E>>>, root: int) -> bool {
        forall|t: int| 0 <= t < adj.len() && #[trigger] self.entered@[t] ==> {
            &&& entered_ok(adj, root, self.infos@, t)
            &&& self.infos@[t].enter_time <= self.timer
            &&& self.entered@[self.infos@[t].parent_id as int]
        }
    }

    #[verifier::opaque]
    spec fn inv_exits(&self, n: int) -> bool {
        forall|t: int| 0 <= t < n && #[trigger] self.exited@[t] ==> {
            &&& self.entered@[t]
            &&& exited_ok(self.infos@, self.exits@, t, self.exited@)
            &&& self.exits@[t] <= self.timer
        }
    }

    #[verifier::opaque]
    spec fn inv_frames<E>(&self, adj: Seq<Seq<AdjEntry<E>>>, root: int) -> bool {
        &&& forall|q: int| 0 <= q < self.stack@.len() ==> self.frame_ok(adj, #[trigger] self.stack@[q])
        &&& self.stack@.len() > 0 ==> self.stack@[0].node == root && self.stack@[0].parent == root
        &&& forall|q: int|
            0 < q < self.stack@.len() ==> (#[trigger] self.stack@[q]).parent == self.stack@[q - 1].node
                && self.stack@[q].node != root
        &&& forall|q1: int, q2: int|
            0 <= q1 < q2 < self.stack@.len() ==> self.infos@[(#[trigger] self.stack@[q1]).node as int].enter_time
                < self.infos@[(#[trigger] self.stack@[q2]).node as int].enter_time
    }

    #[verifier::opaque]
    spec fn inv_open_on_stack(&self, n: int) -> bool {
        forall|t: int|
            0 <= t < n && self.entered@[t] && !self.exited@[t] ==> exists|q: int|
                0 <= q < self.stack@.len() && (#[trigger] self.stack@[q]).node == t
    }

    #[verifier::opaque]
    spec fn inv_closed<E>(&self, adj: Seq<Seq<AdjEntry<E>>>) -> bool {
        forall|t: int, j: int|
            0 <= t < adj.len() && self.exited@[t] && 0 <= j < adj[t].len() ==> self.entered@[(#[trigger] adj[t][j]).0 as int]
    }

    /// A closed node's interval holds exactly nodes of its subtree; an open node on
    /// the stack is an ancestor of everything entered after it.
    #[verifier::opaque]
    spec fn inv_nest(&self, n: int) -> bool {
        &&& forall|a: int, b: int|
            #![trigger self.exited@[a], self.entered@[b]]
            0 <= a < n && 0 <= b < n && self.exited@[a] && self.entered@[b] && self.infos@[a].enter_time
                <= self.infos@[b].enter_time && self.infos@[b].enter_time <= self.exits@[a] ==> is_chain_ancestor(
                self.infos@,
                a,
                b,
            )
        &&& forall|q: int, b: int|
            #![trigger self.stack@[q], self.entered@[b]]
            0 <= q < self.stack@.len() && 0 <= b < n && self.entered@[b] && self.infos@[self.stack@[q].node as int].enter_time
                <= self.infos@[b].enter_time ==> is_chain_ancestor(self.infos@, self.stack@[q].node as int, b)
    }

    spec fn inv<E>(&self, adj: Seq<Seq<AdjEntry<E>>>, root: int) -> bool {
        let n = adj.len();
        &&& arcs_in_range(adj)
        &&& 0 <= root < n
        &&& self.infos@.len() == n
        &&& self.entered@.len() == n
        &&& self.exited@.len() == n
        &&& self.exits@.len() == n
        &&& self.upnodes@.len() == n
        &&& self.sizes@.len() == n
        &&& self.entered@[root]
        &&& self.unentered@ == Set::new(|t: int| 0 <= t < n && !self.entered@[t])
        &&& self.unentered@.finite()
        &&& self.timer + 1 + self.unentered@.len() == n
        &&& self.unexited@ == Set::new(|t: int| 0 <= t < n && !self.exited@[t])
        &&& self.unexited@.finite()
        &&& self.stack@.len() == 0 ==> self.exited@[root]
        &&& self.inv_entries(adj, root)
        &&& self.inv_exits(n as int)
        &&& self.inv_frames(adj, root)
        &&& self.inv_open_on_stack(n as int)
        &&& self.inv_closed(adj)
        &&& self.inv_nest(n as int)
    }

    #[verifier::rlimit(100)]
    #[verifier::spinoff_prover]
    proof fn lemma_open_nest_closed<E>(w0: Walk, w1: Walk, adj: Seq<Seq<AdjEntry<E>>>, root: int, v: int, nb: int)
        requires
            w0.inv(adj, root),
            w0.stack@.len() > 0,
            v == w0.stack@[w0.stack@.len() - 1].node,
            0 <= nb < adj.len(),
            !w0.entered@[nb],
            w1.infos@.len() == w0.infos@.len(),
            forall|x: int| 0 <= x < adj.len() && x != nb ==> w1.infos@[x] == w0.infos@[x],
            w1.infos@[nb].parent_id == v,
            w1.infos@[nb].enter_time == w0.timer + 1,
            w1.entered@ == w0.entered@.update(nb, true),
            w1.exited@ == w0.exited@,
            w1.exits@ == w0.exits@,
            w1.stack@.len() == w0.stack@.len() + 1,
            forall|q: int| 0 <= q < w0.stack@.len() ==> (#[trigger] w1.stack@[q]).node == w0.stack@[q].node,
            w1.stack@[w0.stack@.len() as int].node == nb,
        ensures
            forall|a: int, b: int|
                #![trigger w1.exited@[a], w1.entered@[b]]
                0 <= a < adj.len() && 0 <= b < adj.len() && w1.exited@[a] && w1.entered@[b] && w1.infos@[a].enter_time
                    <= w1.infos@[b].enter_time && w1.infos@[b].enter_time <= w1.exits@[a] ==> is_chain_ancestor(w1.infos@, a, b),
    {
        let n = adj.len() as int;
        let top = w0.stack@.len() - 1;
        reveal(Walk::inv_entries);
        reveal(Walk::inv_exits);
        reveal(Walk::inv_frames);
        reveal(Walk::inv_nest);
        assert(w0.frame_ok(adj, w0.stack@[top]));
        assert forall|x: int| 0 <= x < w0.infos@.len() && #[trigger] w0.entered@[x] implies w0.infos@[x].parent_id
            == w1.infos@[x].parent_id && w0.infos@[x].parent_id < w0.infos@.len() && w0.entered@[w0.infos@[x].parent_id as int] by {
            assert(entered_ok(adj, root, w0.infos@, x));
        }
        assert forall|a: int, b: int|
            #![trigger w1.exited@[a], w1.entered@[b]]
            0 <= a < n && 0 <= b < n && w1.exited@[a] && w1.entered@[b] && w1.infos@[a].enter_time
                <= w1.infos@[b].enter_time && w1.infos@[b].enter_time <= w1.exits@[a] implies is_chain_ancestor(w1.infos@, a, b) by {
            assert(w0.entered@[a]);
            if b == nb {
                assert(w0.exits@[a] <= w0.timer);
            } else {
                assert(w0.entered@[b]);
                let d = choose|d: nat| anc(parents_of(w0.infos@), b, d) == a;
                lemma_chain_stable(w0.infos@, w1.infos@, w0.entered@, b, d);
            }
        }
    }

    #[verifier::rlimit(100)]
    #[verifier::spinoff_prover]
    proof fn lemma_open_nest_open<E>(w0: Walk, w1: Walk, adj: Seq<Seq<AdjEntry<E>>>, root: int, v: int, nb: int)
        requires
            w0.inv(adj, root),
            w0.stack@.len() > 0,
            v == w0.stack@[w0.stack@.len() - 1].node,
            0 <= nb < adj.len(),
            !w0.entered@[nb],
            w1.infos@.len() == w0.infos@.len(),
            forall|x: int| 0 <= x < adj.len() && x != nb ==> w1.infos@[x] == w0.infos@[x],
            w1.infos@[nb].parent_id == v,
            w1.infos@[nb].enter_time == w0.timer + 1,
            w1.entered@ == w0.entered@.update(nb, true),
            w1.exited@ == w0.exited@,
            w1.exits@ == w0.exits@,
            w1.stack@.len() == w0.stack@.len() + 1,
            forall|q: int| 0 <= q < w0.stack@.len() ==> (#[trigger] w1.stack@[q]).node == w0.stack@[q].node,
            w1.stack@[w0.stack@.len() as int].node == nb,
        ensures
            forall|q: int, b: int|
                #![trigger w1.stack@[q], w1.entered@[b]]
                0 <= q < w1.stack@.len() && 0 <= b < adj.len() && w1.entered@[b] && w1.infos@[w1.stack@[q].node as int].enter_time
                    <= w1.infos@[b].enter_time ==> is_chain_ancestor(w1.infos@, w1.stack@[q].node as int, b),
    {
        let n = adj.len() as int;
        let top = w0.stack@.len() - 1;
        assert forall|x: int| 0 <= x < w0.infos@.len() && #[trigger] w0.entered@[x] implies w0.infos@[x].parent_id
            == w1.infos@[x].parent_id && w0.infos@[x].parent_id < w0.infos@.len() && w0.entered@[w0.infos@[x].parent_id as int]
            && w0.infos@[x].enter_time <= w0.timer by {
            reveal(Walk::inv_entries);
            assert(entered_ok(adj, root, w0.infos@, x));
        }
        assert forall|q: int| 0 <= q < w0.stack@.len() implies w0.entered@[(#[trigger] w0.stack@[q]).node as int]
            && w0.stack@[q].node != nb && w0.infos@[w0.stack@[q].node as int].enter_time <= w0.infos@[v].enter_time
            && w0.stack@[q].node < n by {
            reveal(Walk::inv_frames);
            assert(w0.frame_ok(adj, w0.stack@[q]));
            assert(w0.frame_ok(adj, w0.stack@[top]));
            if q < top {
                assert(w0.infos@[w0.stack@[q].node as int].enter_time < w0.infos@[w0.stack@[top].node as int].enter_time);
            }
        }
        assert(w0.entered@[v] && 0 <= v < n && w0.infos@.len() == n) by {
            assert(w0.stack@[top].node == v);
        }
        assert(forall|q: int, b: int|
            #![trigger w0.stack@[q], w0.entered@[b]]
            0 <= q < w0.stack@.len() && 0 <= b < n && w0.entered@[b] && w0.infos@[w0.stack@[q].node as int].enter_time
                <= w0.infos@[b].enter_time ==> is_chain_ancestor(w0.infos@, w0.stack@[q].node as int, b)) by {
            reveal(Walk::inv_nest);
        }
        assert forall|q: int, b: int|
            #![trigger w1.stack@[q], w1.entered@[b]]
            0 <= q < w1.stack@.len() && 0 <= b < n && w1.entered@[b] && w1.infos@[w1.stack@[q].node as int].enter_time
                <= w1.infos@[b].enter_time implies is_chain_ancestor(w1.infos@, w1.stack@[q].node as int, b) by {
            let a = w1.stack@[q].node as int;
            if q == w0.stack@.len() {
                if b != nb {
                    assert(w0.entered@[b]);
                }
                assert(anc(parents_of(w1.infos@), b, 0) == a);
            } else {
                assert(w0.stack@[q].node == a);
                assert(w0.entered@[a]);
                if b == nb {
                    assert(w0.infos@[a].enter_time <= w0.infos@[v].enter_time);
                    assert(is_chain_ancestor(w0.infos@, a, v));
                    let d = choose|d: nat| anc(parents_of(w0.infos@), v, d) == a;
                    lemma_chain_stable(w0.infos@, w1.infos@, w0.entered@, v, d);
                    assert(parents_of(w1.infos@)[nb] == v);
                    assert(anc(parents_of(w1.infos@), nb, d + 1) == anc(parents_of(w1.infos@), v, d));
                } else {
                    assert(w0.entered@[b]);
                    let d = choose|d: nat| anc(parents_of(w0.infos@), b, d) == a;
                    lemma_chain_stable(w0.infos@, w1.infos@, w0.entered@, b, d);
                }
            }
        }
    }

    proof fn lemma_open_nest<E>(w0: Walk, w1: Walk, adj: Seq<Seq<AdjEntry<E>>>, root: int, v: int, nb: int)
        requires
            w0.inv(adj, root),
            w0.stack@.len() > 0,
            v == w0.stack@[w0.stack@.len() - 1].node,
            0 <= nb < adj.len(),
            !w0.entered@[nb],
            w1.infos@.len() == w0.infos@.len(),
            forall|x: int| 0 <= x < adj.len() && x != nb ==> w1.infos@[x] == w0.infos@[x],
            w1.infos@[nb].parent_id == v,
            w1.infos@[nb].enter_time == w0.timer + 1,
            w1.entered@ == w0.entered@.update(nb, true),
            w1.exited@ == w0.exited@,
            w1.exits@ == w0.exits@,
            w1.stack@.len() == w0.stack@.len() + 1,
            forall|q: int| 0 <= q < w0.stack@.len() ==> (#[trigger] w1.stack@[q]).node == w0.stack@[q].node,
            w1.stack@[w0.stack@.len() as int].node == nb,
        ensures
            w1.inv_nest(adj.len() as int),
    {
        Walk::lemma_open_nest_closed(w0, w1, adj, root, v, nb);
        Walk::lemma_open_nest_open(w0, w1, adj, root, v, nb);
        reveal(Walk::inv_nest);
    }

    proof fn lemma_close_nest<E>(w0: Walk, w1: Walk, adj: Seq<Seq<AdjEntry<E>>>, root: int, v: int)
        requires
            w0.inv(adj, root),
            w0.stack@.len() > 0,
            v == w0.stack@[w0.stack@.len() - 1].node,
            w1.infos@ == w0.infos@,
            w1.entered@ == w0.entered@,
            w1.exited@ == w0.exited@.update(v, true),
            w1.exits@ == w0.exits@.update(v, w0.timer),
            w1.stack@ == w0.stack@.drop_last(),
        ensures
            w1.inv_nest(adj.len() as int),
    {
        let n = adj.len() as int;
        let top = w0.stack@.len() - 1;
        reveal(Walk::inv_entries);
        reveal(Walk::inv_nest);
        reveal(Walk::inv_frames);
        assert(w0.frame_ok(adj, w0.stack@[top]));
        assert forall|a: int, b: int|
            #![trigger w1.exited@[a], w1.entered@[b]]
            0 <= a < n && 0 <= b < n && w1.exited@[a] && w1.entered@[b] && w1.infos@[a].enter_time
                <= w1.infos@[b].enter_time && w1.infos@[b].enter_time <= w1.exits@[a] implies is_chain_ancestor(w1.infos@, a, b) by {
            if a == v {
                assert(w0.stack@[top].node == a);
            } else {
                assert(w0.exited@[a]);
            }
        }
        assert forall|q: int, b: int|
            #![trigger w1.stack@[q], w1.entered@[b]]
            0 <= q < w1.stack@.len() && 0 <= b < n && w1.entered@[b] && w1.infos@[w1.stack@[q].node as int].enter_time
                <= w1.infos@[b].enter_time implies is_chain_ancestor(w1.infos@, w1.stack@[q].node as int, b) by {
            assert(w1.stack@[q] == w0.stack@[q]);
        }
    }

    /// Skips the neighbours of the top node that were already entered.
    fn next_unentered<E>(&self, nbs: &Vec<Vec<AdjEntry<E>>>, Ghost(root): Ghost<int>) -> (r: (usize, bool))
        requires
            self.inv(view_adj(nbs@), root),
            self.stack@.len() > 0,
        ensures
            ({
                let f = self.stack@[self.stack@.len() - 1];
                let adj = view_adj(nbs@);
                &&& f.cursor <= r.0 <= adj[f.node as int].len()
                &&& r.1 ==> r.0 < adj[f.node as int].len() && !self.entered@[adj[f.node as int][r.0 as int].0 as int]
                &&& !r.1 ==> r.0 == adj[f.node as int].len()
                &&& forall|j: int| 0 <= j < r.0 ==> self.entered@[(#[trigger] adj[f.node as int][j]).0 as int]
            }),
    {
        let ghost adj = view_adj(nbs@);
        let top = self.stack.len() - 1;
        let node = self.stack[top].node;
        let mut cursor = self.stack[top].cursor;
        assert(self.frame_ok(adj, self.stack@[top as int])) by {
            reveal(Walk::inv_frames);
        }
        assert(adj[node as int] == nbs@[node as int]@);
        while cursor < nbs[node].len()
            invariant
                adj == view_adj(nbs@),
                arcs_in_range(adj),
                node < nbs@.len(),
                node == self.stack@[top as int].node,
                top == self.stack@.len() - 1,
                adj[node as int] == nbs@[node as int]@,
                self.entered@.len() == nbs@.len(),
                self.stack@[top as int].cursor <= cursor <= adj[node as int].len(),
                forall|j: int| 0 <= j < cursor ==> self.entered@[(#[trigger] adj[node as int][j]).0 as int],
            decreases adj[node as int].len() - cursor,
        {
            let nb = nbs[node][cursor].0;
            assert(nb == adj[node as int][cursor as int].0);
            if !self.entered[nb] {
                return (cursor, true);
            }
            cursor = cursor + 1;
        }
        (cursor, false)
    }

    #[verifier::rlimit(100)]
    #[verifier::spinoff_prover]
    /// Enters `nb`, reached from the top node at position `cursor` of its list.
    fn open<E>(&mut self, nbs: &Vec<Vec<AdjEntry<E>>>, Ghost(root): Ghost<int>, cursor: usize)
        requires
            old(self).inv(view_adj(nbs@), root),
            old(self).stack@.len() > 0,
            ({
                let f = old(self).stack@[old(self).stack@.len() - 1];
                let adj = view_adj(nbs@);
                &&& f.cursor <= cursor < adj[f.node as int].len()
                &&& !old(self).entered@[adj[f.node as int][cursor as int].0 as int]
                &&& forall|j: int| 0 <= j < cursor ==> old(self).entered@[(#[trigger] adj[f.node as int][j]).0 as int]
            }),
        ensures
            final(self).inv(view_adj(nbs@), root),
            final(self).unentered@.len() < old(self).unentered@.len(),
            final(self).unexited@ == old(self).unexited@,
            forall|t: int| 0 <= t < view_adj(nbs@).len() && #[trigger] final(self).entered@[t] ==> old(self).entered@[t] || exists|u: int|
                0 <= u < view_adj(nbs@).len() && old(self).entered@[u] && arc_to(view_adj(nbs@), u, t),
    {
        let ghost adj = view_adj(nbs@);
        let ghost old_infos = self.infos@;
        let ghost old_entered = self.entered@;
        let ghost old_stack = self.stack@;
        let n = nbs.len();
        let top = self.stack.len() - 1;
        let node = self.stack[top].node;
        let parent = self.stack[top].parent;
        assert(self.frame_ok(adj, self.stack@[top as int])) by {
            reveal(Walk::inv_frames);
        }
        assert(entered_ok(adj, root, old_infos, node as int) && old_infos[node as int].enter_time <= self.timer) by {
            reveal(Walk::inv_entries);
        }
        assert(adj[node as int] == nbs@[node as int]@);
        let nb = nbs[node][cursor].0;
        assert(nb == adj[node as int][cursor as int].0);
        assert(self.unentered@.contains(nb as int));
        proof {
            vstd::set_lib::lemma_int_range(0, n as int);
            vstd::set_lib::lemma_len_subset(self.unentered@, vstd::set_lib::set_int_range(0, n as int));
        }
        let len = nbs[node].len();
        assert(cursor < len);
        self.stack.set(top, Frame { node, parent, cursor: cursor + 1 });
        self.timer = self.timer + 1;
        let level = self.infos[node].level + 1;
        let timer = self.timer;
        self.infos.set(nb, TreeNode {
            parent_id: node,
            enter_time: timer,
            level,
            pow2_ancestors: None,
            exit_time: None,
            subtree_upnode_cnt: None,
            subtree_sz: None,
        });
        self.entered.set(nb, true);
        self.stack.push(Frame { node: nb, parent: node, cursor: 0 });
        assert forall|t: int| 0 <= t < adj.len() && #[trigger] self.entered@[t] implies old(self).entered@[t] || exists|u: int|
            0 <= u < adj.len() && old(self).entered@[u] && arc_to(adj, u, t) by {
            if t == nb {
                assert(arc_to(adj, node as int, nb as int));
                assert(old(self).entered@[node as int]) by {
                    reveal(Walk::inv_frames);
                }
            }
        }
        proof {
            assert(arc_to(adj, node as int, nb as int));
            assert(Set::new(|t: int| 0 <= t < n && !self.entered@[t]) =~= old(self).unentered@.remove(nb as int));
            self.unentered = Ghost(old(self).unentered@.remove(nb as int));
            assert(Set::new(|t: int| 0 <= t < n && !self.exited@[t]) =~= old(self).unexited@);
            assert(!old(self).exited@[nb as int]) by {
                reveal(Walk::inv_exits);
            }
            assert(self.inv_entries(adj, root)) by {
                reveal(Walk::inv_entries);
                assert forall|t: int| 0 <= t < adj.len() && #[trigger] self.entered@[t] implies {
                    &&& entered_ok(adj, root, self.infos@, t)
                    &&& self.infos@[t].enter_time <= self.timer
                    &&& self.entered@[self.infos@[t].parent_id as int]
                } by {
                    if t != nb {
                        assert(old_entered[t]);
                        assert(entered_ok(adj, root, old_infos, t));
                        assert(old_entered[old_infos[t].parent_id as int]);
                    }
                }
            }
            assert(self.inv_exits(n as int)) by {
                reveal(Walk::inv_exits);
                assert forall|t: int| 0 <= t < n && #[trigger] self.exited@[t] implies {
                    &&& self.entered@[t]
                    &&& exited_ok(self.infos@, self.exits@, t, self.exited@)
                    &&& self.exits@[t] <= self.timer
                } by {
                    assert(old_entered[t]);
                    assert(exited_ok(old_infos, self.exits@, t, self.exited@));
                }
            }
            assert(self.inv_open_on_stack(n as int)) by {
                reveal(Walk::inv_open_on_stack);
                assert forall|t: int| 0 <= t < n && self.entered@[t] && !self.exited@[t] implies exists|q: int|
                    0 <= q < self.stack@.len() && (#[trigger] self.stack@[q]).node == t by {
                    if t == nb {
                        assert(self.stack@[self.stack@.len() - 1].node == t);
                    } else {
                        let q = choose|q: int| 0 <= q < old_stack.len() && (#[trigger] old_stack[q]).node == t;
                        assert(self.stack@[q].node == t);
                    }
                }
            }
            assert(self.inv_closed(adj)) by {
                reveal(Walk::inv_closed);
            }
            assert(self.inv_nest(n as int)) by {
                assert forall|q: int| 0 <= q < old_stack.len() implies (#[trigger] self.stack@[q]).node == old_stack[q].node by {}
                Walk::lemma_open_nest(*old(self), *self, adj, root, node as int, nb as int);
            }
            assert(self.inv_frames(adj, root)) by {
                reveal(Walk::inv_frames);
                assert forall|q: int| 0 <= q < self.stack@.len() implies self.frame_ok(adj, #[trigger] self.stack@[q]) by {
                    if q < top {
                        assert(self.stack@[q] == old_stack[q]);
                        assert(old(self).frame_ok(adj, old_stack[q]));
                    }
                }
                assert forall|q: int| 0 < q < self.stack@.len() implies (#[trigger] self.stack@[q]).parent == self.stack@[q - 1].node
                    && self.stack@[q].node != root by {
                    if q < top {
                        assert(self.stack@[q] == old_stack[q]);
                    }
                }
                assert forall|q1: int, q2: int|
                    0 <= q1 < q2 < self.stack@.len() implies self.infos@[(#[trigger] self.stack@[q1]).node as int].enter_time
                        < self.infos@[(#[trigger] self.stack@[q2]).node as int].enter_time by {
                    assert(old(self).frame_ok(adj, old_stack[q1]));
                    assert(old_stack[q1].node != nb);
                    assert(self.stack@[q1].node == old_stack[q1].node);
                    assert(old_infos[old_stack[q1].node as int].enter_time <= old(self).timer) by {
                        reveal(Walk::inv_entries);
                    }
                    if q2 <= top {
                        assert(old(self).frame_ok(adj, old_stack[q2]));
                        assert(old_stack[q2].node != nb);
                        assert(self.stack@[q2].node == old_stack[q2].node);
                    } else {
                        assert(self.stack@[q2].node == nb);
                    }
                }
            }
        }
    }

    /// Folds the subtree aggregates of `node` over its neighbours other than `parent`:
    /// a neighbour still open adds one up-node, a closed one adds its own counts.
    fn aggregates<E>(&self, nbs: &Vec<Vec<AdjEntry<E>>>, node: usize, parent: usize) -> (r: (usize, usize))
        requires
            arcs_in_range(view_adj(nbs@)),
            node < nbs@.len(),
            self.exited@.len() == nbs@.len(),
            self.upnodes@.len() == nbs@.len(),
            self.sizes@.len() == nbs@.len(),
        ensures
            r == fold_aggregates(nbs@[node as int]@, parent, self.exited@, self.upnodes@, self.sizes@, nbs@[node as int]@.len()),
    {
        let ghost adj = view_adj(nbs@);
        assert(adj[node as int] == nbs@[node as int]@);
        let mut upnodes: usize = 0;
        let mut size: usize = 1;
        let mut j: usize = 0;
        while j < nbs[node].len()
            invariant
                adj == view_adj(nbs@),
                arcs_in_range(adj),
                node < nbs@.len(),
                adj[node as int] == nbs@[node as int]@,
                self.exited@.len() == nbs@.len(),
                self.upnodes@.len() == nbs@.len(),
                self.sizes@.len() == nbs@.len(),
                j <= adj[node as int].len(),
                (upnodes, size) == fold_aggregates(adj[node as int], parent, self.exited@, self.upnodes@, self.sizes@, j as nat),
            decreases adj[node as int].len() - j,
        {
            let nb = nbs[node][j].0;
            assert(nb == adj[node as int][j as int].0);
            if nb == parent {
            } else if !self.exited[nb] {
                upnodes = upnodes.saturating_add(1);
            } else {
                upnodes = upnodes.saturating_add(self.upnodes[nb]);
                size = size.saturating_add(self.sizes[nb]);
            }
            j = j + 1;
        }
        (upnodes, size)
    }

    #[verifier::rlimit(80)]
    #[verifier::spinoff_prover]
    /// Closes the top node: its exit time and its subtree aggregates.
    fn close<E>(&mut self, nbs: &Vec<Vec<AdjEntry<E>>>, Ghost(root): Ghost<int>)
        requires
            old(self).inv(view_adj(nbs@), root),
            old(self).stack@.len() > 0,
            ({
                let f = old(self).stack@[old(self).stack@.len() - 1];
                let adj = view_adj(nbs@);
                forall|j: int| 0 <= j < adj[f.node as int].len() ==> old(self).entered@[(#[trigger] adj[f.node as int][j]).0 as int]
            }),
        ensures
            final(self).inv(view_adj(nbs@), root),
            final(self).unentered@ == old(self).unentered@,
            final(self).unexited@.len() < old(self).unexited@.len(),
            final(self).entered@ == old(self).entered@,
    {
        let ghost adj = view_adj(nbs@);
        let ghost old_infos = self.infos@;
        let ghost old_exited = self.exited@;
        let ghost old_exits = self.exits@;
        let ghost old_stack = self.stack@;
        let n = nbs.len();
        let top = self.stack.len() - 1;
        let node = self.stack[top].node;
        let parent = self.stack[top].parent;
        assert(self.frame_ok(adj, self.stack@[top as int])) by {
            reveal(Walk::inv_frames);
        }
        assert(entered_ok(adj, root, old_infos, node as int) && old_infos[node as int].enter_time <= self.timer) by {
            reveal(Walk::inv_entries);
        }
        let ghost parent_open = top > 0;
        assert(parent_open ==> !old_exited[parent as int] && parent != node) by {
            reveal(Walk::inv_frames);
            if top > 0 {
                assert(old_stack[top as int].parent == old_stack[top - 1].node);
                assert(old(self).frame_ok(adj, old_stack[top - 1]));
            }
        }
        assert(!parent_open ==> node == root && parent == root) by {
            reveal(Walk::inv_frames);
        }
        let (upnodes, size) = self.aggregates(nbs, node, parent);
        let timer = self.timer;
        self.exits.set(node, timer);
        self.upnodes.set(node, upnodes);
        self.sizes.set(node, size);
        self.exited.set(node, true);
        self.stack.pop();
        proof {
            assert(self.unexited@.contains(node as int));
            assert(Set::new(|t: int| 0 <= t < n && !self.exited@[t]) =~= old(self).unexited@.remove(node as int));
            self.unexited = Ghost(old(self).unexited@.remove(node as int));
            assert(Set::new(|t: int| 0 <= t < n && !self.entered@[t]) =~= old(self).unentered@);
            assert(self.inv_entries(adj, root)) by {
                reveal(Walk::inv_entries);
            }
            assert(self.inv_exits(n as int)) by {
                reveal(Walk::inv_exits);
                assert forall|t: int| 0 <= t < n && #[trigger] self.exited@[t] implies {
                    &&& self.entered@[t]
                    &&& exited_ok(self.infos@, self.exits@, t, self.exited@)
                    &&& self.exits@[t] <= self.timer
                } by {
                    if t != node {
                        assert(old_exited[t]);
                        assert(exited_ok(old_infos, old_exits, t, old_exited));
                        assert(old_exits[t] <= old(self).timer);
                        assert(self.exits@[t] == old_exits[t]);
                        let p = old_infos[t].parent_id as int;
                        assert(self.entered@[t]);
                        assert(entered_ok(adj, root, old_infos, t)) by {
                            reveal(Walk::inv_entries);
                        }
                        assert(0 <= p < n);
                        if p != node {
                            assert(self.exited@[p] == old_exited[p]);
                            assert(self.exits@[p] == old_exits[p]);
                        }
                    } else {
                        assert(self.exits@[t] == old(self).timer);
                        if parent_open {
                            assert(!self.exited@[parent as int]);
                        }
                    }
                }
            }
            assert(self.inv_open_on_stack(n as int)) by {
                reveal(Walk::inv_open_on_stack);
                assert forall|t: int| 0 <= t < n && self.entered@[t] && !self.exited@[t] implies exists|q: int|
                    0 <= q < self.stack@.len() && (#[trigger] self.stack@[q]).node == t by {
                    let q = choose|q: int| 0 <= q < old_stack.len() && (#[trigger] old_stack[q]).node == t;
                    assert(q != top);
                    assert(self.stack@[q].node == t);
                }
            }
            assert(self.inv_closed(adj)) by {
                reveal(Walk::inv_closed);
            }
            assert(self.inv_nest(n as int)) by {
                assert(self.stack@ =~= old_stack.drop_last());
                Walk::lemma_close_nest(*old(self), *self, adj, root, node as int);
            }
            assert(self.inv_frames(adj, root)) by {
                reveal(Walk::inv_frames);
                assert forall|q: int| 0 <= q < self.stack@.len() implies self.frame_ok(adj, #[trigger] self.stack@[q]) by {
                    assert(self.stack@[q] == old_stack[q]);
                    assert(old(self).frame_ok(adj, old_stack[q]));
                    if old_stack[q].node == node {
                        assert(q < top);
                        assert(old_infos[old_stack[q].node as int].enter_time < old_infos[old_stack[top as int].node as int].enter_time);
                        assert(false);
                    }
                }
                assert forall|q: int| 0 < q < self.stack@.len() implies (#[trigger] self.stack@[q]).parent == self.stack@[q - 1].node
                    && self.stack@[q].node != root by {
                    assert(self.stack@[q] == old_stack[q]);
                }
                assert forall|q1: int, q2: int|
                    0 <= q1 < q2 < self.stack@.len() implies self.infos@[(#[trigger] self.stack@[q1]).node as int].enter_time
                        < self.infos@[(#[trigger] self.stack@[q2]).node as int].enter_time by {
                    assert(self.stack@[q1] == old_stack[q1]);
                    assert(self.stack@[q2] == old_stack[q2]);
                }
            }
        }
    }
}


impl Walk {
    proof fn lemma_records_nested(&self, out: Seq<TreeNode>, n: int)
        requires
            self.inv_nest(n),
            self.inv_exits(n),
            self.infos@.len() == n,
            out.len() == n,
            forall|v: int| 0 <= v < n ==> self.exited@[v],
            forall|x: int| 0 <= x < n ==> {
                let r = #[trigger] out[x];
                &&& r.parent_id == self.infos@[x].parent_id
                &&& r.enter_time == self.infos@[x].enter_time
                &&& r.exit_time == Some(self.exits@[x])
            },
        ensures
            nested(out),
    {
        assert(parents_of(out) =~= parents_of(self.infos@));
        assert forall|a: int, b: int|
            0 <= a < out.len() && 0 <= b < out.len() && out[a].enter_time <= out[b].enter_time && out[b].enter_time
                <= out[a].exit_time.unwrap() implies #[trigger] is_chain_ancestor(out, a, b) by {
            reveal(Walk::inv_nest);
            reveal(Walk::inv_exits);
            assert(self.exited@[a] && self.exited@[b] && self.entered@[b]);
            assert(is_chain_ancestor(self.infos@, a, b));
        }
    }

    /// The finished traversal as one record per node.
    #[verifier::rlimit(100)]
    #[verifier::spinoff_prover]
    fn into_records<E>(self, nbs: &Vec<Vec<AdjEntry<E>>>, Ghost(root): Ghost<int>) -> (out: Vec<TreeNode>)
        requires
            self.inv(view_adj(nbs@), root),
            self.stack@.len() == 0,
            forall|v: int| 0 <= v < nbs@.len() && reachable(view_adj(nbs@), root, v) ==> self.entered@[v] && self.exited@[v],
        ensures
            out@.len() == nbs@.len(),
            forall|v: int| 0 <= v < nbs@.len() && reachable(view_adj(nbs@), root, v) ==> (#[trigger] out@[v]).exit_time.is_some(),
            forall|v: int| 0 <= v < nbs@.len() && (#[trigger] out@[v]).exit_time.is_some() ==> record_ok(view_adj(nbs@), root, out@, v),
            forall|v: int| 0 <= v < nbs@.len() ==> (#[trigger] out@[v]).parent_id < nbs@.len() && out@[v].level < nbs@.len(),
            forall|v: int| 0 <= v < nbs@.len() ==> (#[trigger] out@[v]).pow2_ancestors.is_none(),
            forall|x: int| 0 <= x < nbs@.len() && (#[trigger] out@[x]).exit_time.is_some() ==> self.exited@[x],
            forall|x: int| 0 <= x < nbs@.len() && self.exited@[x] ==> {
                let r = #[trigger] out@[x];
                &&& r.parent_id == self.infos@[x].parent_id
                &&& r.enter_time == self.infos@[x].enter_time
                &&& r.exit_time == Some(self.exits@[x])
            },
    {
        let ghost adj = view_adj(nbs@);
        let n = nbs.len();
    let mut out: Vec<TreeNode> = Vec::new();
    let mut t: usize = 0;
    while t < n
        invariant
            t <= n,
            n == nbs@.len(),
            adj == view_adj(nbs@),
            self.inv(adj, root),
            self.stack@.len() == 0,
            out@.len() == t,
            forall|x: int| 0 <= x < t ==> (#[trigger] out@[x]).parent_id < n && out@[x].level < n && out@[x].pow2_ancestors.is_none(),
            forall|x: int| 0 <= x < t ==> {
                let r = #[trigger] out@[x];
                &&& self.exited@[x] ==> r.parent_id == self.infos@[x].parent_id
                &&& r.enter_time == self.infos@[x].enter_time
                &&& self.exited@[x] ==> r.level == self.infos@[x].level
                &&& self.exited@[x] ==> r.exit_time == Some(self.exits@[x])
                &&& !self.exited@[x] ==> r.exit_time.is_none()
                &&& self.exited@[x] ==> r.subtree_sz == Some(self.sizes@[x])
                &&& self.exited@[x] ==> r.subtree_upnode_cnt == Some(self.upnodes@[x])
            },
        decreases n - t,
    {
        let done = self.exited[t];
        assert(done ==> self.infos@[t as int].parent_id < n && self.infos@[t as int].level < n) by {
            reveal(Walk::inv_entries);
            reveal(Walk::inv_exits);
            if done {
                assert(entered_ok(adj, root, self.infos@, t as int));
            }
        }
        out.push(TreeNode {
            parent_id: if done { self.infos[t].parent_id } else { 0 },
            enter_time: self.infos[t].enter_time,
            level: if done { self.infos[t].level } else { 0 },
            pow2_ancestors: None,
            exit_time: if done { Some(self.exits[t]) } else { None },
            subtree_upnode_cnt: if done { Some(self.upnodes[t]) } else { None },
            subtree_sz: if done { Some(self.sizes[t]) } else { None },
        });
        t = t + 1;
    }
    proof {
        assert forall|v: int| 0 <= v < n && (#[trigger] out@[v]).exit_time.is_some() implies record_ok(adj, root, out@, v) by {
            reveal(Walk::inv_entries);
            reveal(Walk::inv_exits);
            reveal(Walk::inv_open_on_stack);
            assert(self.exited@[v]);
            assert(entered_ok(adj, root, self.infos@, v));
            assert(exited_ok(self.infos@, self.exits@, v, self.exited@));
            let p = self.infos@[v].parent_id as int;
            assert(self.entered@[p]);
            if self.entered@[p] && !self.exited@[p] {
                let q = choose|q: int| 0 <= q < self.stack@.len() && (#[trigger] self.stack@[q]).node == p;
            }
            assert(self.exited@[p]);
            if v != root {
                assert(entered_ok(adj, root, self.infos@, p));
            }
        }
    }
    out
}
}

/// The record of `v` as indexing from `root` leaves it.
pub open spec fn record_ok<E>(adj: Seq<Seq<AdjEntry<E>>>, root: int, infos: Seq<TreeNode>, v: int) -> bool {
    let r = infos[v];
    let p = r.parent_id as int;
    &&& entered_ok(adj, root, infos, v)
    &&& r.exit_time.is_some()
    &&& r.subtree_sz.is_some()
    &&& r.subtree_upnode_cnt.is_some()
    &&& r.enter_time <= r.exit_time.unwrap()
    &&& r.exit_time.unwrap() <= infos[p].exit_time.unwrap()
}

/// Depth-first traversal from `root` that assigns Euler-tour times, depths and
/// post-order subtree aggregates.
#[verifier::rlimit(100)]
#[verifier::spinoff_prover]
pub fn index_tree<E>(nbs: &Vec<Vec<AdjEntry<E>>>, root: usize) -> (infos: Vec<TreeNode>)
    requires
        root < nbs@.len(),
        arcs_in_range(view_adj(nbs@)),
    ensures
        infos@.len() == nbs@.len(),
        forall|v: int| 0 <= v < nbs@.len() && reachable(view_adj(nbs@), root as int, v) ==> (#[trigger] infos@[v]).exit_time.is_some(),
        forall|v: int| 0 <= v < nbs@.len() && (#[trigger] infos@[v]).exit_time.is_some() ==> record_ok(view_adj(nbs@), root as int, infos@, v),
        forall|v: int| 0 <= v < nbs@.len() ==> (#[trigger] infos@[v]).parent_id < nbs@.len() && infos@[v].level < nbs@.len(),
        forall|v: int| 0 <= v < nbs@.len() ==> (#[trigger] infos@[v]).pow2_ancestors.is_none(),
        (forall|v: int| 0 <= v < nbs@.len() ==> reachable(view_adj(nbs@), root as int, v)) ==> nested(infos@),
        forall|v: int| 0 <= v < nbs@.len() && !reachable(view_adj(nbs@), root as int, v) ==> (#[trigger] infos@[v]).exit_time
            is None,
{
    let ghost adj = view_adj(nbs@);
    let n = nbs.len();
    let mut infos: Vec<TreeNode> = Vec::new();
    let mut entered: Vec<bool> = Vec::new();
    let mut exited: Vec<bool> = Vec::new();
    let mut zeros: Vec<usize> = Vec::new();
    let mut i: usize = 0;
    while i < n
        invariant
            i <= n,
            infos@.len() == i,
            entered@.len() == i,
            exited@.len() == i,
            zeros@.len() == i,
            forall|t: int| 0 <= t < i ==> !entered@[t] && !exited@[t],
        decreases n - i,
    {
        infos.push(blank_record());
        entered.push(false);
        exited.push(false);
        zeros.push(0);
        i = i + 1;
    }
    infos.set(root, TreeNode {
        parent_id: root,
        enter_time: 0,
        level: 0,
        pow2_ancestors: None,
        exit_time: None,
        subtree_upnode_cnt: None,
        subtree_sz: None,
    });
    entered.set(root, true);
    let mut stack: Vec<Frame> = Vec::new();
    stack.push(Frame { node: root, parent: root, cursor: 0 });
    proof {
        vstd::set_lib::lemma_int_range(0, n as int);
        assert(Set::new(|t: int| 0 <= t < n && !entered@[t]) =~= vstd::set_lib::set_int_range(0, n as int).remove(root as int));
        assert(Set::new(|t: int| 0 <= t < n && !exited@[t]) =~= vstd::set_lib::set_int_range(0, n as int));
    }
    let mut walk = Walk {
        infos,
        entered,
        exited,
        exits: zeros.clone(),
        upnodes: zeros.clone(),
        sizes: zeros,
        stack,
        timer: 0,
        unentered: Ghost(Set::new(|t: int| 0 <= t < n && !entered@[t])),
        unexited: Ghost(Set::new(|t: int| 0 <= t < n && !exited@[t])),
    };
    assert(walk.stack@[0].node == root);
    assert forall|t: int| 0 <= t < n && #[trigger] walk.entered@[t] implies reachable(adj, root as int, t) by {
        assert(t == root);
        assert(is_walk(adj, seq![root as int]));
    }
    assert(walk.inv(adj, root as int)) by {
        reveal(Walk::inv_nest);
        assert forall|q: int, b: int|
            #![trigger walk.stack@[q], walk.entered@[b]]
            0 <= q < walk.stack@.len() && 0 <= b < n && walk.entered@[b] && walk.infos@[walk.stack@[q].node as int].enter_time
                <= walk.infos@[b].enter_time implies is_chain_ancestor(walk.infos@, walk.stack@[q].node as int, b) by {
            assert(b == root);
            assert(anc(parents_of(walk.infos@), b, 0) == b);
        }
        reveal(Walk::inv_entries);
        reveal(Walk::inv_exits);
        reveal(Walk::inv_frames);
        reveal(Walk::inv_open_on_stack);
        reveal(Walk::inv_closed);
        assert(walk.entered@[root as int]);
        assert forall|t: int| 0 <= t < n && walk.entered@[t] && !walk.exited@[t] implies exists|q: int|
            0 <= q < walk.stack@.len() && (#[trigger] walk.stack@[q]).node == t by {
            assert(walk.stack@[0].node == t);
        }
    }
    while walk.stack.len() > 0
        invariant
            adj == view_adj(nbs@),
            walk.inv(adj, root as int),
            forall|t: int| 0 <= t < adj.len() && #[trigger] walk.entered@[t] ==> reachable(adj, root as int, t),
        decreases walk.unentered@.len() + walk.unexited@.len(),
    {
        let (cursor, found) = walk.next_unentered(nbs, Ghost(root as int));
        if found {
            let ghost before = walk.entered@;
            walk.open(nbs, Ghost(root as int), cursor);
            proof {
                assert forall|t: int| 0 <= t < adj.len() && #[trigger] walk.entered@[t] implies reachable(adj, root as int, t) by {
                    if !before[t] {
                        let u = choose|u: int| 0 <= u < adj.len() && before[u] && arc_to(adj, u, t);
                        assert(reachable(adj, root as int, u));
                        let p = choose|p: Seq<int>| #[trigger] is_walk(adj, p) && p[0] == root as int && p.last() == u;
                        lemma_walk_push(adj, p, t);
                    }
                }
            }
        } else {
            walk.close(nbs, Ghost(root as int));
        }
    }
    proof {
        let inside = |t: int| 0 <= t < n && walk.entered@[t];
        assert(forall|t: int| 0 <= t < n && walk.entered@[t] ==> walk.exited@[t]) by {
            reveal(Walk::inv_open_on_stack);
        }
        assert forall|u: int, j: int|
            0 <= u < adj.len() && inside(u) && 0 <= j < adj[u].len() implies inside(#[trigger] adj[u][j].0 as int) by {
            reveal(Walk::inv_closed);
            assert(walk.exited@[u]);
        }
        assert forall|v: int| 0 <= v < n && reachable(adj, root as int, v) implies walk.entered@[v] && walk.exited@[v] by {
            let p = choose|p: Seq<int>| #[trigger] is_walk(adj, p) && p[0] == root as int && p.last() == v;
            lemma_closed_holds_walk(adj, p, inside);
        }
    }
    let ghost w = walk;
    let out = walk.into_records(nbs, Ghost(root as int));
    proof {
        assert forall|v: int| 0 <= v < n && !reachable(adj, root as int, v) implies (#[trigger] out@[v]).exit_time is None by {
            reveal(Walk::inv_exits);
            if out@[v].exit_time.is_some() {
                assert(w.exited@[v]);
                assert(w.entered@[v]);
            }
        }
        if forall|v: int| 0 <= v < n ==> reachable(adj, root as int, v) {
            w.lemma_records_nested(out@, n as int);
        }
    }
    out
}


/// The number of binary digits of `x`.
pub open spec fn bits(x: nat) -> nat
    decreases x,
{
    if x == 0 {
        0
    } else {
        1 + bits(x / 2)
    }
}

pub open spec fn pow2_of(k: nat) -> nat
    decreases k,
{
    if k == 0 {
        1
    } else {
        2 * pow2_of((k - 1) as nat)
    }
}

/// The node `d` steps up the parent chain from `v`; the root is its own parent.
pub open spec fn anc(parents: Seq<usize>, v: int, d: nat) -> int
    decreases d,
{
    if d == 0 {
        v
    } else {
        anc(parents, parents[v] as int, (d - 1) as nat)
    }
}

pub open spec fn parents_of(infos: Seq<TreeNode>) -> Seq<usize> {
    infos.map_values(|r: TreeNode| r.parent_id)
}

/// The ancestor table of `v` holds the ancestors `2^k` steps up, one entry per
/// binary digit of the depth and one more.
pub open spec fn table_ok(infos: Seq<TreeNode>, v: int) -> bool {
    match infos[v].pow2_ancestors {
        Some(t) => {
            &&& t@.len() == 1 + bits(infos[v].level as nat)
            &&& forall|k: int| 0 <= k < t@.len() ==> t@[k] == anc(parents_of(infos), v, pow2_of(k as nat))
        },
        None => false,
    }
}

pub proof fn lemma_anc_add(parents: Seq<usize>, v: int, a: nat, b: nat)
    ensures
        anc(parents, anc(parents, v, a), b) == anc(parents, v, a + b),
    decreases a,
{
    if a > 0 {
        lemma_anc_add(parents, parents[v] as int, (a - 1) as nat, b);
        assert((a + b - 1) as nat == (a - 1) as nat + b);
    }
}

pub proof fn lemma_anc_in_range(parents: Seq<usize>, v: int, d: nat)
    requires
        0 <= v < parents.len(),
        forall|u: int| 0 <= u < parents.len() ==> (#[trigger] parents[u]) < parents.len(),
    ensures
        0 <= anc(parents, v, d) < parents.len(),
    decreases d,
{
    if d > 0 {
        lemma_anc_in_range(parents, parents[v] as int, (d - 1) as nat);
    }
}

proof fn lemma_bits_mono(a: nat, b: nat)
    requires
        a <= b,
    ensures
        bits(a) <= bits(b),
    decreases b,
{
    if a > 0 {
        lemma_bits_mono(a / 2, b / 2);
    }
}

/// The number of binary digits of `x`.
fn bit_length(x: usize) -> (r: usize)
    ensures
        r == bits(x as nat),
        r <= x,
{
    let mut y = x;
    let mut r: usize = 0;
    while y > 0
        invariant
            bits(x as nat) == r + bits(y as nat),
            r + y <= x,
        decreases y,
    {
        y = y / 2;
        r = r + 1;
    }
    r
}

/// Fills in every node's ancestor table, one power of two per row:
/// the `2^k` ancestor is the `2^(k-1)` ancestor of the `2^(k-1)` ancestor.
pub fn fill_ancestor_tables(infos: &mut Vec<TreeNode>)
    requires
        forall|v: int| 0 <= v < old(infos)@.len() ==> (#[trigger] old(infos)@[v]).parent_id < old(infos)@.len(),
        forall|v: int| 0 <= v < old(infos)@.len() ==> (#[trigger] old(infos)@[v]).level < old(infos)@.len(),
    ensures
        final(infos)@.len() == old(infos)@.len(),
        forall|v: int| 0 <= v < final(infos)@.len() ==> {
            let a = #[trigger] final(infos)@[v];
            let b = old(infos)@[v];
            &&& a.parent_id == b.parent_id
            &&& a.enter_time == b.enter_time
            &&& a.level == b.level
            &&& a.exit_time == b.exit_time
            &&& a.subtree_upnode_cnt == b.subtree_upnode_cnt
            &&& a.subtree_sz == b.subtree_sz
            &&& table_ok(final(infos)@, v)
        },
{
    let n = infos.len();
    if n == 0 {
        return;
    }
    let ghost parents = parents_of(infos@);
    let mut up: Vec<Vec<usize>> = Vec::new();
    let mut row: Vec<usize> = Vec::new();
    let mut v: usize = 0;
    while v < n
        invariant
            n == infos@.len(),
            parents == parents_of(infos@),
            v <= n,
            row@.len() == v,
            forall|u: int| 0 <= u < v ==> row@[u] == anc(parents, u, 1),
        decreases n - v,
    {
        proof {
            reveal_with_fuel(anc, 2);
            assert(parents[v as int] == infos@[v as int].parent_id);
        }
        row.push(infos[v].parent_id);
        v = v + 1;
    }
    up.push(row);
    let rows = bit_length(n - 1) + 1;
    proof {
        assert forall|u: int| 0 <= u < n implies (#[trigger] parents[u]) < n by {
            assert(parents[u] == infos@[u].parent_id);
        }
    }
    let mut k: usize = 1;
    while k < rows
        invariant
            n == infos@.len(),
            parents == parents_of(infos@),
            forall|u: int| 0 <= u < n ==> (#[trigger] parents[u]) < n,
            1 <= k <= rows,
            up@.len() == k,
            forall|i: int, u: int| 0 <= i < k && 0 <= u < n ==> (#[trigger] up@[i]@[u]) == anc(parents, u, pow2_of(i as nat)),
            forall|i: int| 0 <= i < k ==> (#[trigger] up@[i])@.len() == n,
        decreases rows - k,
    {
        let mut next: Vec<usize> = Vec::new();
        let mut v: usize = 0;
        while v < n
            invariant
                n == infos@.len(),
                parents == parents_of(infos@),
                forall|u: int| 0 <= u < n ==> (#[trigger] parents[u]) < n,
                1 <= k,
                up@.len() == k,
                forall|i: int, u: int| 0 <= i < k && 0 <= u < n ==> (#[trigger] up@[i]@[u]) == anc(parents, u, pow2_of(i as nat)),
                forall|i: int| 0 <= i < k ==> (#[trigger] up@[i])@.len() == n,
                v <= n,
                next@.len() == v,
                forall|u: int| 0 <= u < v ==> next@[u] == anc(parents, u, pow2_of(k as nat)),
            decreases n - v,
        {
            let ghost half = pow2_of((k - 1) as nat);
            let mid = up[k - 1][v];
            proof {
                assert(mid == anc(parents, v as int, half));
                assert(parents.len() == n);
                lemma_anc_in_range(parents, v as int, half);
                lemma_anc_add(parents, v as int, half, half);
                assert(pow2_of(k as nat) == half + half);
            }
            let far = up[k - 1][mid];
            next.push(far);
            v = v + 1;
        }
        up.push(next);
        k = k + 1;
    }
    let ghost old_infos = infos@;
    let mut v: usize = 0;
    while v < n
        invariant
            n == infos@.len(),
            old_infos.len() == n,
            parents == parents_of(old_infos),
            forall|u: int| 0 <= u < n ==> (#[trigger] old_infos[u]).level < n,
            up@.len() == rows,
            rows == bits((n - 1) as nat) + 1,
            forall|i: int, u: int| 0 <= i < rows && 0 <= u < n ==> (#[trigger] up@[i]@[u]) == anc(parents, u, pow2_of(i as nat)),
            forall|i: int| 0 <= i < rows ==> (#[trigger] up@[i])@.len() == n,
            v <= n,
            forall|u: int| 0 <= u < n ==> {
                let a = #[trigger] infos@[u];
                let b = old_infos[u];
                &&& a.parent_id == b.parent_id
                &&& a.enter_time == b.enter_time
                &&& a.level == b.level
                &&& a.exit_time == b.exit_time
                &&& a.subtree_upnode_cnt == b.subtree_upnode_cnt
                &&& a.subtree_sz == b.subtree_sz
            },
            forall|u: int| 0 <= u < v ==> table_ok(infos@, u),
            parents_of(infos@) == parents,
        decreases n - v,
    {
        let len = bit_length(infos[v].level) + 1;
        proof {
            lemma_bits_mono(old_infos[v as int].level as nat, (n - 1) as nat);
        }
        let mut table: Vec<usize> = Vec::new();
        let mut k: usize = 0;
        while k < len
            invariant
                n == infos@.len(),
                v < n,
                up@.len() == rows,
                len <= rows,
                forall|i: int| 0 <= i < rows ==> (#[trigger] up@[i])@.len() == n,
                k <= len,
                table@.len() == k,
                forall|i: int| 0 <= i < k ==> table@[i] == up@[i]@[v as int],
            decreases len - k,
        {
            table.push(up[k][v]);
            k = k + 1;
        }
        let ghost before = infos@;
        let r = TreeNode {
            parent_id: infos[v].parent_id,
            enter_time: infos[v].enter_time,
            level: infos[v].level,
            pow2_ancestors: Some(table),
            exit_time: infos[v].exit_time,
            subtree_upnode_cnt: infos[v].subtree_upnode_cnt,
            subtree_sz: infos[v].subtree_sz,
        };
        infos.set(v, r);
        proof {
            assert(parents_of(infos@) =~= parents);
            assert(infos@[v as int].pow2_ancestors == Some(table));
            assert forall|i: int| 0 <= i < table@.len() implies table@[i] == anc(parents_of(infos@), v as int, pow2_of(i as nat)) by {
                assert(table@[i] == up@[i]@[v as int]);
            }
            assert(table_ok(infos@, v as int));
            assert forall|u: int| 0 <= u < v + 1 implies table_ok(infos@, u) by {
                if u < v {
                    assert(table_ok(before, u));
                    assert(infos@[u] == before[u]);
                }
            }
        }
        v = v + 1;
    }
    proof {
        assert(parents_of(infos@) =~= parents);
    }
}

} // verus!
