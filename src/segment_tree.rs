use vstd::prelude::*;

verus! {

/// The state a lazy segment tree keeps in each node: a value over the node's
/// range and an addition still to be passed down to the children.
pub trait SegmentTreeState: Sized {
    type LeafT: Copy;

    type DeltaT;

    /// The merged value of a run of leaf values.
    spec fn fold_spec(s: Seq<Self::LeafT>) -> Self::LeafT;

    /// The merge of two values.
    spec fn merge_spec(a: Self::LeafT, b: Self::LeafT) -> Self::LeafT;

    /// A leaf value after an addition.
    spec fn add_spec(x: Self::LeafT, d: Self::DeltaT) -> Self::LeafT;

    /// The node covers positions `lo..lo + s.len()`, whose current values are `s`.
    spec fn holds(&self, lo: nat, s: Seq<Self::LeafT>) -> bool;

    /// The addition the node still owes its children.
    spec fn pending(&self) -> Self::DeltaT;

    /// The node owes its children nothing.
    spec fn clean(&self) -> bool;

    /// Folding a concatenation merges the two folds.
    proof fn lemma_fold_concat(a: Seq<Self::LeafT>, b: Seq<Self::LeafT>)
        ensures
            Self::fold_spec(a + b) == Self::merge_spec(Self::fold_spec(a), Self::fold_spec(b)),
    ;

    /// A clean node's pending addition changes nothing.
    proof fn lemma_clean_pending(&self)
        requires
            self.clean(),
        ensures
            forall|x: Self::LeafT| #[trigger] Self::add_spec(x, self.pending()) == x,
    ;

    fn merge(a: Self::LeafT, b: Self::LeafT) -> (r: Self::LeafT)
        ensures
            r == Self::merge_spec(a, b),
    ;

    /// The value of an empty range.
    fn empty_value() -> (r: Self::LeafT)
        ensures
            r == Self::fold_spec(Seq::empty()),
    ;

    fn new() -> Self;

    fn new_with_leaf(leaf_value: Self::LeafT, leaf_pos: usize) -> (r: Self)
        ensures
            r.holds(leaf_pos as nat, seq![leaf_value]),
            r.clean(),
    ;

    fn new_with_children(left_child: &Self, right_child: &Self) -> (r: Self)
        ensures
            r.clean(),
            forall|lo: nat, ls: Seq<Self::LeafT>, rs: Seq<Self::LeafT>|
                left_child.holds(lo, ls) && left_child.clean() && right_child.holds(lo + ls.len(), rs)
                    && right_child.clean() ==> #[trigger] r.holds(lo, ls + rs),
    ;

    fn get_delta(&self) -> Self::DeltaT;

    fn update_delta(&mut self, delta: &Self::DeltaT)
        ensures
            forall|lo: nat, s: Seq<Self::LeafT>| #[trigger] old(self).holds(lo, s) ==> final(self).holds(lo, s.map_values(|x: Self::LeafT| Self::add_spec(x, *delta))),
            forall|x: Self::LeafT| #[trigger] Self::add_spec(x, final(self).pending()) == Self::add_spec(
                Self::add_spec(x, old(self).pending()),
                *delta,
            ),
    ;

    fn get_value(&self) -> (r: Self::LeafT)
        ensures
            forall|lo: nat, s: Seq<Self::LeafT>| #[trigger] self.holds(lo, s) && self.clean() ==> r == Self::fold_spec(s),
    ;

    fn push(&mut self, left_child: &mut Self, right_child: &mut Self)
        ensures
            final(self).clean(),
            forall|lo: nat, s: Seq<Self::LeafT>| old(self).holds(lo, s) ==> #[trigger] final(self).holds(lo, s),
            forall|lo: nat, s: Seq<Self::LeafT>| #[trigger] old(left_child).holds(lo, s) ==> final(left_child).holds(
                lo,
                s.map_values(|x: Self::LeafT| Self::add_spec(x, old(self).pending())),
            ),
            forall|lo: nat, s: Seq<Self::LeafT>| #[trigger] old(right_child).holds(lo, s) ==> final(right_child).holds(
                lo,
                s.map_values(|x: Self::LeafT| Self::add_spec(x, old(self).pending())),
            ),
            forall|x: Self::LeafT| #[trigger] Self::add_spec(x, final(left_child).pending()) == Self::add_spec(
                Self::add_spec(x, old(left_child).pending()),
                old(self).pending(),
            ),
            forall|x: Self::LeafT| #[trigger] Self::add_spec(x, final(right_child).pending()) == Self::add_spec(
                Self::add_spec(x, old(right_child).pending()),
                old(self).pending(),
            ),
    ;

    fn push_leaf(&mut self)
        ensures
            final(self).clean(),
            forall|lo: nat, s: Seq<Self::LeafT>| old(self).holds(lo, s) && s.len() == 1 ==> #[trigger] final(self).holds(lo, s),
    ;

    fn compute(&mut self, left_child: &Self, right_child: &Self)
        ensures
            forall|lo: nat, s: Seq<Self::LeafT>, ls: Seq<Self::LeafT>, rs: Seq<Self::LeafT>|
                #![trigger old(self).holds(lo, s), final(self).holds(lo, ls + rs)]
                old(self).holds(lo, s) && old(self).clean() && s.len() == ls.len() + rs.len() && left_child.holds(lo, ls)
                    && left_child.clean() && right_child.holds(lo + ls.len(), rs) && right_child.clean()
                    ==> final(self).holds(lo, ls + rs) && final(self).clean(),
    ;
}

/// Every value of `s` after the addition `d`.
pub open spec fn shifted<T: SegmentTreeState>(s: Seq<T::LeafT>, d: T::DeltaT) -> Seq<T::LeafT> {
    s.map_values(|x: T::LeafT| T::add_spec(x, d))
}

/// `vals`, covering positions from `lo`, with `d` added at the positions `l..=r`.
pub open spec fn added<T: SegmentTreeState>(vals: Seq<T::LeafT>, lo: nat, l: int, r: int, d: T::DeltaT) -> Seq<T::LeafT> {
    Seq::new(vals.len(), |i: int| if l <= lo + i <= r { T::add_spec(vals[i], d) } else { vals[i] })
}

/// The values of `vals`, covering positions from `lo`, at the positions `l..=r`.
pub open spec fn part<T: SegmentTreeState>(vals: Seq<T::LeafT>, lo: nat, l: int, r: int) -> Seq<T::LeafT> {
    let a = if l > lo { l } else { lo as int };
    let b = if r < lo + vals.len() - 1 { r } else { lo + vals.len() - 1 };
    if a > b {
        Seq::empty()
    } else {
        vals.subrange(a - lo, b - lo + 1)
    }
}

/// A lazy segment tree over `range_left..=range_right`, each inner node owning its two halves.
pub struct SegmentTree<NodeT: SegmentTreeState> {
    node_state: NodeT,
    left_node: Option<Box<SegmentTree<NodeT>>>,
    right_node: Option<Box<SegmentTree<NodeT>>>,
    range_left: usize,
    range_right: usize,
    vals: Ghost<Seq<NodeT::LeafT>>,
}

impl<NodeT: SegmentTreeState> SegmentTree<NodeT> {
    pub closed spec fn lo(&self) -> nat {
        self.range_left as nat
    }

    pub closed spec fn hi(&self) -> nat {
        self.range_right as nat
    }

    /// The current values of the covered positions.
    pub closed spec fn values(&self) -> Seq<NodeT::LeafT> {
        self.vals@
    }

    /// The root owes its children no addition.
    pub closed spec fn is_clean(&self) -> bool {
        self.node_state.clean()
    }

    /// Leaves have no children; an inner node splits its range at the midpoint and
    /// stands for its children's values with its own pending addition applied.
    pub closed spec fn wf(&self) -> bool
        decreases self,
    {
        &&& self.range_left <= self.range_right
        &&& self.vals@.len() == self.range_right - self.range_left + 1
        &&& self.node_state.holds(self.range_left as nat, self.vals@)
        &&& if self.range_left == self.range_right {
            self.left_node is None && self.right_node is None
        } else {
            match (self.left_node, self.right_node) {
                (Some(l), Some(r)) => {
                    let mid = (self.range_left + self.range_right) / 2;
                    &&& l.range_left == self.range_left
                    &&& l.range_right == mid
                    &&& r.range_left == mid + 1
                    &&& r.range_right == self.range_right
                    &&& self.vals@ == shifted::<NodeT>(l.vals@ + r.vals@, self.node_state.pending())
                    &&& l.wf()
                    &&& r.wf()
                },
                _ => false,
            }
        }
    }

    fn build(arr: &Vec<NodeT::LeafT>, left: usize, right: usize) -> (r: Self)
        requires
            left <= right < arr@.len(),
        ensures
            r.wf(),
            r.lo() == left,
            r.hi() == right,
            r.values() == arr@.subrange(left as int, right + 1),
            r.is_clean(),
        decreases right - left,
    {
        if left == right {
            let node_state = NodeT::new_with_leaf(arr[left], left);
            assert(seq![arr@[left as int]] =~= arr@.subrange(left as int, right + 1));
            return SegmentTree {
                node_state,
                left_node: None,
                right_node: None,
                range_left: left,
                range_right: right,
                vals: Ghost(arr@.subrange(left as int, right + 1)),
            };
        }
        let middle = left + (right - left) / 2;
        assert(middle == (left + right) / 2);
        let left_node = Self::build(arr, left, middle);
        let right_node = Self::build(arr, middle + 1, right);
        let node_state = NodeT::new_with_children(&left_node.node_state, &right_node.node_state);
        let ghost v = left_node.vals@ + right_node.vals@;
        proof {
            assert(v =~= arr@.subrange(left as int, right + 1));
            assert(node_state.holds(left as nat, v));
            node_state.lemma_clean_pending();
            assert(shifted::<NodeT>(v, node_state.pending()) =~= v);
        }
        SegmentTree {
            node_state,
            left_node: Some(Box::new(left_node)),
            right_node: Some(Box::new(right_node)),
            range_left: left,
            range_right: right,
            vals: Ghost(v),
        }
    }

    /// A tree over the whole of `arr`.
    pub fn new(arr: &Vec<NodeT::LeafT>) -> (r: Self)
        requires
            arr@.len() > 0,
        ensures
            r.wf(),
            r.lo() == 0,
            r.hi() == arr@.len() - 1,
            r.values() == arr@,
    {
        let r = Self::build(arr, 0, arr.len() - 1);
        assert(arr@.subrange(0, arr@.len() as int) =~= arr@);
        r
    }

    /// Passes the pending addition of this node down to its children.
    fn push_node(&mut self)
        requires
            old(self).wf(),
        ensures
            final(self).wf(),
            final(self).lo() == old(self).lo(),
            final(self).hi() == old(self).hi(),
            final(self).values() == old(self).values(),
            final(self).is_clean(),
    {
        if self.range_left == self.range_right {
            self.node_state.push_leaf();
        } else {
            let mut l = self.left_node.take().unwrap();
            let mut r = self.right_node.take().unwrap();
            let ghost l0 = *l;
            let ghost r0 = *r;
            let ghost d = self.node_state.pending();
            let ghost v = self.vals@;
            self.node_state.push(&mut l.node_state, &mut r.node_state);
            l.vals = Ghost(shifted::<NodeT>(l0.vals@, d));
            r.vals = Ghost(shifted::<NodeT>(r0.vals@, d));
            proof {
                assert(l0.wf());
                assert(r0.wf());
                lemma_shift_child(l0, *l, d);
                lemma_shift_child(r0, *r, d);
                self.node_state.lemma_clean_pending();
                assert(shifted::<NodeT>(l.vals@ + r.vals@, self.node_state.pending()) =~= l.vals@ + r.vals@);
                assert(l.vals@ + r.vals@ =~= v);
            }
            self.left_node = Some(l);
            self.right_node = Some(r);
        }
    }

    /// Adds `delta` to every position of `left..=right` within this node's range.
    pub fn update(&mut self, left: usize, right: usize, delta: &NodeT::DeltaT)
        requires
            old(self).wf(),
        ensures
            final(self).wf(),
            final(self).lo() == old(self).lo(),
            final(self).hi() == old(self).hi(),
            final(self).is_clean(),
            final(self).values() == added::<NodeT>(old(self).values(), old(self).lo(), left as int, right as int, *delta),
        decreases old(self).hi() - old(self).lo(),
    {
        let ghost v0 = self.vals@;
        let ghost lo = self.range_left as nat;
        let left_c = if left > self.range_left { left } else { self.range_left };
        let right_c = if right < self.range_right { right } else { self.range_right };
        if left_c > right_c {
            self.push_node();
            assert(added::<NodeT>(v0, lo, left as int, right as int, *delta) =~= v0);
            return;
        }
        if left_c == self.range_left && right_c == self.range_right {
            let ghost p0 = self.node_state.pending();
            self.node_state.update_delta(delta);
            self.vals = Ghost(shifted::<NodeT>(v0, *delta));
            proof {
                let nv = shifted::<NodeT>(v0, *delta);
                assert(v0.map_values(|x: NodeT::LeafT| NodeT::add_spec(x, *delta)) =~= nv);
                if self.range_left != self.range_right {
                    let l = self.left_node.unwrap();
                    let r = self.right_node.unwrap();
                    assert(nv =~= shifted::<NodeT>(l.vals@ + r.vals@, self.node_state.pending()));
                }
                assert(added::<NodeT>(v0, lo, left as int, right as int, *delta) =~= nv);
            }
            self.push_node();
            return;
        }
        self.push_node();
        proof {
            self.node_state.lemma_clean_pending();
            let ln = self.left_node.unwrap();
            let rn = self.right_node.unwrap();
            assert(shifted::<NodeT>(ln.vals@ + rn.vals@, self.node_state.pending()) =~= ln.vals@ + rn.vals@);
        }
        let mut l = self.left_node.take().unwrap();
        let mut r = self.right_node.take().unwrap();
        let ghost lv0 = l.vals@;
        let ghost rv0 = r.vals@;
        proof {
            assert(l.wf());
            assert(r.wf());
        }
        l.update(left_c, right_c, delta);
        r.update(left_c, right_c, delta);
        let ghost nv = l.vals@ + r.vals@;
        proof {
            assert(self.node_state.holds(lo, v0));
            assert(v0.len() == lv0.len() + rv0.len());
        }
        self.node_state.compute(&l.node_state, &r.node_state);
        proof {
            assert(self.node_state.holds(lo, nv));
            self.node_state.lemma_clean_pending();
            assert(shifted::<NodeT>(nv, self.node_state.pending()) =~= nv);
        }
        self.vals = Ghost(nv);
        proof {
            assert(v0 =~= lv0 + rv0);
            assert(nv =~= added::<NodeT>(v0, lo, left as int, right as int, *delta));
        }
        self.left_node = Some(l);
        self.right_node = Some(r);
    }

    /// The merged value of `left..=right` within this node's range.
    pub fn query(&mut self, left: usize, right: usize) -> (r: NodeT::LeafT)
        requires
            old(self).wf(),
        ensures
            final(self).wf(),
            final(self).lo() == old(self).lo(),
            final(self).hi() == old(self).hi(),
            final(self).values() == old(self).values(),
            r == NodeT::fold_spec(part::<NodeT>(old(self).values(), old(self).lo(), left as int, right as int)),
        decreases old(self).hi() - old(self).lo(),
    {
        let ghost v0 = self.vals@;
        let ghost lo = self.range_left as nat;
        let left_c = if left > self.range_left { left } else { self.range_left };
        let right_c = if right < self.range_right { right } else { self.range_right };
        if left_c > right_c {
            return NodeT::empty_value();
        }
        self.push_node();
        if left_c == self.range_left && right_c == self.range_right {
            assert(v0.subrange(0, v0.len() as int) =~= v0);
            return self.node_state.get_value();
        }
        proof {
            self.node_state.lemma_clean_pending();
            let ln = self.left_node.unwrap();
            let rn = self.right_node.unwrap();
            assert(shifted::<NodeT>(ln.vals@ + rn.vals@, self.node_state.pending()) =~= ln.vals@ + rn.vals@);
        }
        let mut l = self.left_node.take().unwrap();
        let mut r = self.right_node.take().unwrap();
        proof {
            assert(l.wf());
            assert(r.wf());
            assert(v0 =~= l.vals@ + r.vals@);
        }
        let ghost lv = l.vals@;
        let ghost rv = r.vals@;
        let a = l.query(left, right);
        let b = r.query(left, right);
        self.left_node = Some(l);
        self.right_node = Some(r);
        proof {
            let pl = part::<NodeT>(lv, lo, left as int, right as int);
            let pr = part::<NodeT>(rv, lo + lv.len(), left as int, right as int);
            NodeT::lemma_fold_concat(pl, pr);
            assert(pl + pr =~= part::<NodeT>(v0, lo, left as int, right as int));
        }
        NodeT::merge(a, b)
    }
}

/// A child pushed by its parent stays well formed with every value shifted.
proof fn lemma_shift_child<NodeT: SegmentTreeState>(c0: SegmentTree<NodeT>, c1: SegmentTree<NodeT>, d: NodeT::DeltaT)
    requires
        c0.wf(),
        c1.left_node == c0.left_node,
        c1.right_node == c0.right_node,
        c1.range_left == c0.range_left,
        c1.range_right == c0.range_right,
        c1.vals@ == shifted::<NodeT>(c0.vals@, d),
        forall|lo: nat, s: Seq<NodeT::LeafT>| #[trigger] c0.node_state.holds(lo, s) ==> c1.node_state.holds(
            lo,
            s.map_values(|x: NodeT::LeafT| NodeT::add_spec(x, d)),
        ),
        forall|x: NodeT::LeafT| #[trigger] NodeT::add_spec(x, c1.node_state.pending()) == NodeT::add_spec(
            NodeT::add_spec(x, c0.node_state.pending()),
            d,
        ),
    ensures
        c1.wf(),
{
    assert(c0.node_state.holds(c0.range_left as nat, c0.vals@));
    assert(c0.vals@.map_values(|x: NodeT::LeafT| NodeT::add_spec(x, d)) =~= c1.vals@);
    if c0.range_left != c0.range_right {
        let l = c0.left_node.unwrap();
        let r = c0.right_node.unwrap();
        assert(c1.vals@ =~= shifted::<NodeT>(l.vals@ + r.vals@, c1.node_state.pending()));
    }
}

} // verus!
