use vstd::prelude::*;
use crate::segment_tree::SegmentTreeState;
use crate::rooted_tree::pow2_of;

verus! {

/// A lazy segment tree kept in one array: node `i` has children `2i + 1` and `2i + 2`.
pub struct SegmentTreeBmp<NodeT: SegmentTreeState> {
    nodes: Vec<NodeT>,
    arr_size: usize,
}

/// Node `id` at depth `d` covers `l..=r` of an array of length `n`.
pub open spec fn placed(id: nat, l: nat, r: nat, n: nat, d: nat) -> bool {
    &&& l <= r < n
    &&& id < 4 * n
    &&& id + 1 < 2 * pow2_of(d)
    &&& (r - l) * pow2_of(d) < n
}

proof fn lemma_root_placed(n: nat)
    requires
        n > 0,
    ensures
        placed(0, 0, (n - 1) as nat, n, 0),
{
    assert(pow2_of(0) == 1);
    assert(((n - 1) as nat - 0) * pow2_of(0) == n - 1);
}

proof fn lemma_pow2_pos(d: nat)
    ensures
        pow2_of(d) >= 1,
    decreases d,
{
    if d > 0 {
        lemma_pow2_pos((d - 1) as nat);
    }
}

/// The children of a placed inner node are placed one level down, with ids below `4n`.
proof fn lemma_children_placed(id: nat, l: nat, r: nat, n: nat, d: nat)
    requires
        placed(id, l, r, n, d),
        l < r,
    ensures
        2 * id + 2 < 4 * n,
        placed(2 * id + 1, l, (l + r) / 2, n, d + 1),
        placed(2 * id + 2, (l + r) / 2 + 1, r, n, d + 1),
{
    let p = pow2_of(d);
    lemma_pow2_pos(d);
    assert(pow2_of(d + 1) == 2 * p);
    let mid = (l + r) / 2;
    let w = (r - l) as nat;
    assert(p < n) by (nonlinear_arith)
        requires
            w * p < n,
            w >= 1,
            p >= 1,
    ;
    assert(2 * (mid - l) <= w);
    assert(2 * (r - mid - 1) <= w);
    assert(((mid - l) as nat) * (2 * p) <= w * p) by (nonlinear_arith)
        requires
            2 * (mid - l) <= w,
            p >= 1,
            mid >= l,
    ;
    assert(((r - mid - 1) as nat) * (2 * p) <= w * p) by (nonlinear_arith)
        requires
            2 * (r - mid - 1) <= w,
            p >= 1,
            r >= mid + 1,
    ;
}

impl<NodeT: SegmentTreeState> SegmentTreeBmp<NodeT> {
    /// The length of the array the tree was built over.
    pub closed spec fn size(&self) -> nat {
        self.arr_size as nat
    }

    /// Every node that the recursion from the root reaches has a slot.
    pub closed spec fn wf(&self) -> bool {
        &&& self.arr_size > 0
        &&& 5 * self.arr_size <= usize::MAX
        &&& self.nodes@.len() == 5 * self.arr_size
    }

    fn populate(arr: &Vec<NodeT::LeafT>, nodes: &mut Vec<NodeT>, node_id: usize, left: usize, right: usize, Ghost(d): Ghost<nat>)
        requires
            placed(node_id as nat, left as nat, right as nat, arr@.len(), d),
            old(nodes)@.len() == 5 * arr@.len(),
            5 * arr@.len() <= usize::MAX,
        ensures
            final(nodes)@.len() == old(nodes)@.len(),
        decreases right - left,
    {
        if left == right {
            nodes.set(node_id, NodeT::new_with_leaf(arr[left], left));
            return;
        }
        proof {
            lemma_children_placed(node_id as nat, left as nat, right as nat, arr@.len(), d);
        }
        let middle = left + (right - left) / 2;
        assert(middle == (left + right) / 2);
        Self::populate(arr, nodes, node_id * 2 + 1, left, middle, Ghost(d + 1));
        Self::populate(arr, nodes, node_id * 2 + 2, middle + 1, right, Ghost(d + 1));
        let state = NodeT::new_with_children(&nodes[node_id * 2 + 1], &nodes[node_id * 2 + 2]);
        nodes.set(node_id, state);
    }

    /// A tree over the whole of `arr`.
    pub fn new(arr: &Vec<NodeT::LeafT>) -> (r: Self)
        requires
            arr@.len() > 0,
            arr@.len() * 5 <= usize::MAX,
        ensures
            r.wf(),
            r.size() == arr@.len(),
    {
        let size = arr.len() * 5;
        let mut nodes: Vec<NodeT> = Vec::new();
        let mut i: usize = 0;
        while i < size
            invariant
                i <= size,
                nodes@.len() == i,
            decreases size - i,
        {
            nodes.push(NodeT::new());
            i = i + 1;
        }
        proof {
            lemma_root_placed(arr@.len());
        }
        Self::populate(arr, &mut nodes, 0, 0, arr.len() - 1, Ghost(0));
        SegmentTreeBmp { nodes, arr_size: arr.len() }
    }

    /// Passes the pending addition of a node down to its children.
    fn push_node(&mut self, node_id: usize, left: usize, right: usize, Ghost(d): Ghost<nat>)
        requires
            old(self).wf(),
            placed(node_id as nat, left as nat, right as nat, old(self).arr_size as nat, d),
        ensures
            final(self).wf(),
            final(self).arr_size == old(self).arr_size,
    {
        if left == right {
            let mut leaf = NodeT::new();
            std::mem::swap(&mut self.nodes[node_id], &mut leaf);
            leaf.push_leaf();
            std::mem::swap(&mut self.nodes[node_id], &mut leaf);
        } else {
            proof {
                lemma_children_placed(node_id as nat, left as nat, right as nat, self.arr_size as nat, d);
            }
            let mut root = NodeT::new();
            let mut l = NodeT::new();
            let mut r = NodeT::new();
            std::mem::swap(&mut self.nodes[node_id], &mut root);
            std::mem::swap(&mut self.nodes[node_id * 2 + 1], &mut l);
            std::mem::swap(&mut self.nodes[node_id * 2 + 2], &mut r);
            root.push(&mut l, &mut r);
            std::mem::swap(&mut self.nodes[node_id], &mut root);
            std::mem::swap(&mut self.nodes[node_id * 2 + 1], &mut l);
            std::mem::swap(&mut self.nodes[node_id * 2 + 2], &mut r);
        }
    }

    fn update_subtree(
        &mut self,
        delta: &NodeT::DeltaT,
        node_id: usize,
        left: usize,
        right: usize,
        left_update: usize,
        right_update: usize,
        Ghost(d): Ghost<nat>,
    )
        requires
            old(self).wf(),
            placed(node_id as nat, left as nat, right as nat, old(self).arr_size as nat, d),
            left_update <= right_update ==> left <= left_update && right_update <= right,
        ensures
            final(self).wf(),
            final(self).arr_size == old(self).arr_size,
        decreases right - left,
    {
        if left_update > right_update {
            self.push_node(node_id, left, right, Ghost(d));
            return;
        }
        if left_update == left && right_update == right {
            let mut state = NodeT::new();
            std::mem::swap(&mut self.nodes[node_id], &mut state);
            state.update_delta(delta);
            std::mem::swap(&mut self.nodes[node_id], &mut state);
            self.push_node(node_id, left, right, Ghost(d));
            return;
        }
        proof {
            lemma_children_placed(node_id as nat, left as nat, right as nat, self.arr_size as nat, d);
        }
        let middle = left + (right - left) / 2;
        assert(middle == (left + right) / 2);
        self.push_node(node_id, left, right, Ghost(d));
        let right_left = if right_update < middle { right_update } else { middle };
        self.update_subtree(delta, node_id * 2 + 1, left, middle, left_update, right_left, Ghost(d + 1));
        let left_right = if left_update > middle + 1 { left_update } else { middle + 1 };
        self.update_subtree(delta, node_id * 2 + 2, middle + 1, right, left_right, right_update, Ghost(d + 1));
        let mut root = NodeT::new();
        std::mem::swap(&mut self.nodes[node_id], &mut root);
        root.compute(&self.nodes[node_id * 2 + 1], &self.nodes[node_id * 2 + 2]);
        std::mem::swap(&mut self.nodes[node_id], &mut root);
    }

    /// Adds `delta` to every position of `left..=right`.
    pub fn update(&mut self, left: usize, right: usize, delta: &NodeT::DeltaT)
        requires
            old(self).wf(),
            left <= right ==> right < old(self).size(),
        ensures
            final(self).wf(),
            final(self).size() == old(self).size(),
    {
        proof {
            lemma_root_placed(self.arr_size as nat);
        }
        let last = self.arr_size - 1;
        self.update_subtree(delta, 0, 0, last, left, right, Ghost(0));
    }

    fn query_subtree(
        &mut self,
        node_id: usize,
        left: usize,
        right: usize,
        left_query: usize,
        right_query: usize,
        Ghost(d): Ghost<nat>,
    ) -> (r: NodeT::LeafT)
        requires
            old(self).wf(),
            placed(node_id as nat, left as nat, right as nat, old(self).arr_size as nat, d),
            left_query <= right_query ==> left <= left_query && right_query <= right,
        ensures
            final(self).wf(),
            final(self).arr_size == old(self).arr_size,
        decreases right - left,
    {
        if left_query > right_query {
            return NodeT::empty_value();
        }
        self.push_node(node_id, left, right, Ghost(d));
        if left_query == left && right_query == right {
            return self.nodes[node_id].get_value();
        }
        proof {
            lemma_children_placed(node_id as nat, left as nat, right as nat, self.arr_size as nat, d);
        }
        let middle = left + (right - left) / 2;
        assert(middle == (left + right) / 2);
        let right_left = if right_query < middle { right_query } else { middle };
        let a = self.query_subtree(node_id * 2 + 1, left, middle, left_query, right_left, Ghost(d + 1));
        let left_right = if left_query > middle + 1 { left_query } else { middle + 1 };
        let b = self.query_subtree(node_id * 2 + 2, middle + 1, right, left_right, right_query, Ghost(d + 1));
        NodeT::merge(a, b)
    }

    /// The merged value of `left..=right`.
    pub fn query(&mut self, left: usize, right: usize) -> (r: NodeT::LeafT)
        requires
            old(self).wf(),
            left <= right ==> right < old(self).size(),
        ensures
            final(self).wf(),
            final(self).size() == old(self).size(),
    {
        proof {
            lemma_root_placed(self.arr_size as nat);
        }
        let last = self.arr_size - 1;
        self.query_subtree(0, 0, last, left, right, Ghost(0))
    }
}

} // verus!
