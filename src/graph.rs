use vstd::prelude::*;
use crate::traversal::{view_adj, reachable, bfs_reach, arcs_in_range, arc_to, symmetric, lemma_reachable_from_any};
use crate::rooted_tree::{TreeNode, index_tree, fill_ancestor_tables, record_ok, table_ok, anc, parents_of, pow2_of, bits, lemma_anc_in_range, lemma_anc_add, is_chain_ancestor, contains_interval, nested};

verus! {

/// A dense node id paired with the weight of the arc that leads to it.
pub type AdjEntry<E> = (usize, E);

/// The structural categories a graph can fall in, one bit each.
#[non_exhaustive]
pub struct GraphCategoryBits;

pub const BIDIR_BIT: u8 = 1;
pub const TREE_BIT: u8 = 2;
pub const CONNECTED_BIT: u8 = 4;
pub const FOREST_BIT: u8 = 8;
pub const DAG_BIT: u8 = 16;

/// The readable name of a category bit.
pub open spec fn category_name(bit: u8) -> Seq<char> {
    if bit == BIDIR_BIT {
        "Bidirectional"@
    } else if bit == TREE_BIT {
        "Tree"@
    } else if bit == CONNECTED_BIT {
        "Connected-bidirectional"@
    } else if bit == FOREST_BIT {
        "Forest"@
    } else {
        "Directed-acyclic-graph"@
    }
}

pub open spec fn is_category_bit(bit: u8) -> bool {
    bit == BIDIR_BIT || bit == TREE_BIT || bit == CONNECTED_BIT || bit == FOREST_BIT || bit == DAG_BIT
}

impl GraphCategoryBits {
    /// The readable name of a single category bit.
    pub fn name_from_bit(bit: u8) -> (r: String)
        requires
            is_category_bit(bit),
        ensures
            r@ == category_name(bit),
    {
        let s = if bit == BIDIR_BIT {
            "Bidirectional"
        } else if bit == TREE_BIT {
            "Tree"
        } else if bit == CONNECTED_BIT {
            "Connected-bidirectional"
        } else if bit == FOREST_BIT {
            "Forest"
        } else {
            "Directed-acyclic-graph"
        };
        proof {
            reveal_strlit("Bidirectional");
            reveal_strlit("Tree");
            reveal_strlit("Connected-bidirectional");
            reveal_strlit("Forest");
            reveal_strlit("Directed-acyclic-graph");
        }
        s.to_string()
    }
}

/// The categories whose bits are set in `mask`, in bit order.
pub open spec fn category_bits_in(mask: u8, k: nat) -> Seq<u8>
    decreases k,
{
    if k == 0 {
        Seq::empty()
    } else {
        let rest = category_bits_in(mask, (k - 1) as nat);
        let bit = category_bit((k - 1) as nat);
        if mask & bit != 0 {
            rest.push(bit)
        } else {
            rest
        }
    }
}

/// The `k`-th category bit, lowest first.
pub open spec fn category_bit(k: nat) -> u8 {
    if k == 0 {
        BIDIR_BIT
    } else if k == 1 {
        TREE_BIT
    } else if k == 2 {
        CONNECTED_BIT
    } else if k == 3 {
        FOREST_BIT
    } else {
        DAG_BIT
    }
}

impl GraphCategoryBits {
    /// The readable names of the categories whose bits are set in `mask`, lowest bit
    /// first; this is how a `MissingCategories` error is reported.
    pub fn names_from_mask(mask: u8) -> (r: Vec<String>)
        ensures
            r@.len() == category_bits_in(mask, 5).len(),
            forall|i: int| 0 <= i < r@.len() ==> (#[trigger] r@[i])@ == category_name(category_bits_in(mask, 5)[i]),
    {
        let bits: [u8; 5] = [BIDIR_BIT, TREE_BIT, CONNECTED_BIT, FOREST_BIT, DAG_BIT];
        let mut out: Vec<String> = Vec::new();
        let mut k: usize = 0;
        while k < 5
            invariant
                k <= 5,
                bits@ == seq![BIDIR_BIT, TREE_BIT, CONNECTED_BIT, FOREST_BIT, DAG_BIT],
                out@.len() == category_bits_in(mask, k as nat).len(),
                forall|i: int| 0 <= i < out@.len() ==> (#[trigger] out@[i])@ == category_name(category_bits_in(mask, k as nat)[i]),
            decreases 5 - k,
        {
            let bit = bits[k];
            assert(bit == category_bit(k as nat));
            if mask & bit != 0 {
                let name = Self::name_from_bit(bit);
                out.push(name);
            }
            k = k + 1;
        }
        out
    }
}

/// Why a graph operation could not be carried out.
#[derive(Debug, Clone, PartialEq, Eq)]
pub enum GraphError {
    /// The operation needs the categories whose bits are set in this mask.
    MissingCategories(u8),
    /// A label that was never given at construction.
    UnknownNode(String),
    /// No rooted-tree index has been computed.
    NotIndexed,
    /// The rooted-tree index was computed without ancestor tables.
    NoAncestorTable,
}

/// The label sequence after dropping every label already seen earlier.
pub open spec fn dedup(s: Seq<Seq<char>>) -> Seq<Seq<char>>
    decreases s.len(),
{
    if s.len() == 0 {
        Seq::empty()
    } else {
        let d = dedup(s.drop_last());
        if d.contains(s.last()) {
            d
        } else {
            d.push(s.last())
        }
    }
}

/// Adjacency lists after appending the arcs of the first `k` edges (given by ids).
pub open spec fn adjacency<E>(n: nat, ids: Seq<(usize, usize, E)>, bidir: bool, k: nat) -> Seq<Seq<AdjEntry<E>>>
    decreases k,
{
    if k == 0 || k > ids.len() {
        Seq::new(n, |i: int| Seq::<AdjEntry<E>>::empty())
    } else {
        let a = adjacency(n, ids, bidir, (k - 1) as nat);
        let (u, v, w) = ids[k - 1];
        let a1 = a.update(u as int, a[u as int].push((v, w)));
        if bidir {
            a1.update(v as int, a1[v as int].push((u, w)))
        } else {
            a1
        }
    }
}

/// Every endpoint of every edge is one of the labels.
pub open spec fn edges_known<E>(labels: Seq<Seq<char>>, edges: Seq<(String, String, E)>) -> bool {
    forall|k: int| 0 <= k < edges.len() ==> labels.contains(#[trigger] edges[k].0@) && labels.contains(edges[k].1@)
}

/// The edges with their endpoint labels replaced by ids.
pub open spec fn edge_ids<E>(labels: Seq<Seq<char>>, edges: Seq<(String, String, E)>) -> Seq<(usize, usize, E)> {
    edges.map_values(|e: (String, String, E)| (labels.index_of(e.0@) as usize, labels.index_of(e.1@) as usize, e.2))
}

pub struct Graph<E> {
    pub(crate) node_map_rev: Vec<String>,
    pub(crate) nbs: Vec<Vec<AdjEntry<E>>>,
    pub(crate) category: u8,
    pub(crate) rooted_tree_infos: Option<Vec<TreeNode>>,
    pub(crate) tree_root: usize,
    pub(crate) has_tables: bool,
}

impl<E> Graph<E> {
    /// The labels, indexed by id.
    pub closed spec fn labels(&self) -> Seq<Seq<char>> {
        self.node_map_rev@.map_values(|s: String| s@)
    }

    pub closed spec fn node_count(&self) -> nat {
        self.node_map_rev@.len()
    }

    /// The adjacency lists, indexed by id.
    pub closed spec fn adj(&self) -> Seq<Seq<AdjEntry<E>>> {
        view_adj(self.nbs@)
    }

    /// The id of a known label.
    pub open spec fn node_map(&self, label: Seq<char>) -> Option<nat> {
        if self.labels().contains(label) {
            Some(self.labels().index_of(label) as nat)
        } else {
            None
        }
    }

    /// The rooted-tree index, when present.
    pub closed spec fn index(&self) -> Option<Seq<TreeNode>> {
        match self.rooted_tree_infos {
            Some(v) => Some(v@),
            None => None,
        }
    }

    /// The root the index was computed from.
    pub closed spec fn root_id(&self) -> nat {
        self.tree_root as nat
    }

    pub closed spec fn wf(&self) -> bool {
        &&& self.rooted_tree_infos matches Some(infos) ==> index_ok(self.adj(), self.tree_root as int, infos@)
        &&& self.rooted_tree_infos matches Some(infos) ==> forall|v: int|
            0 <= v < infos@.len() ==> ((#[trigger] infos@[v]).pow2_ancestors is Some <==> self.has_tables)
        &&& self.labels().no_duplicates()
        &&& self.has_category(BIDIR_BIT) ==> symmetric(self.adj())
        &&& self.has_category(TREE_BIT) ==> self.has_category(BIDIR_BIT) && self.node_count() > 0 && forall|t: int|
            0 <= t < self.node_count() ==> reachable(self.adj(), 0, t)
        &&& self.node_count() <= usize::MAX
        &&& self.nbs@.len() == self.node_count()
        &&& arcs_in_range(self.adj())
    }

    /// The category bitmask.
    pub closed spec fn category_bits(&self) -> u8 {
        self.category
    }

    /// Whether a category bit is set.
    pub closed spec fn has_category(&self, bit: u8) -> bool {
        self.category & bit != 0
    }
}

/// What a complete rooted-tree index over `adj` from `root` satisfies.
pub open spec fn index_ok<E>(adj: Seq<Seq<AdjEntry<E>>>, root: int, infos: Seq<TreeNode>) -> bool {
    &&& 0 <= root < adj.len()
    &&& infos.len() == adj.len()
    &&& forall|v: int| 0 <= v < adj.len() ==> record_ok(adj, root, infos, v)
    &&& forall|v: int| 0 <= v < adj.len() ==> (#[trigger] infos[v]).parent_id < adj.len() && infos[v].level < adj.len()
    &&& forall|v: int| 0 <= v < adj.len() ==> (#[trigger] infos[v]).pow2_ancestors.is_some() ==> table_ok(infos, v)
    &&& nested(infos)
}

/// Looks a label up among the labels given so far.
fn find_label(labels: &Vec<String>, label: &String) -> (r: Option<usize>)
    ensures
        match r {
            Some(i) => i < labels@.len() && labels@[i as int]@ == label@ && forall|j: int|
                0 <= j < i ==> labels@[j]@ != label@,
            None => forall|j: int| 0 <= j < labels@.len() ==> labels@[j]@ != label@,
        },
{
    let mut i: usize = 0;
    while i < labels.len()
        invariant
            i <= labels@.len(),
            forall|j: int| 0 <= j < i ==> labels@[j]@ != label@,
        decreases labels@.len() - i,
    {
        if labels[i] == *label {
            return Some(i);
        }
        i = i + 1;
    }
    None
}


proof fn lemma_dedup(s: Seq<Seq<char>>)
    ensures
        dedup(s).no_duplicates(),
        forall|x: Seq<char>| dedup(s).contains(x) <==> s.contains(x),
    decreases s.len(),
{
    if s.len() > 0 {
        lemma_dedup(s.drop_last());
        let d = dedup(s.drop_last());
        assert forall|x: Seq<char>| s.contains(x) <==> (s.drop_last().contains(x) || x == s.last()) by {
            if s.contains(x) {
                let i = choose|i: int| 0 <= i < s.len() && s[i] == x;
                if i < s.len() - 1 {
                    assert(s.drop_last()[i] == x);
                }
            }
            if x == s.last() {
                assert(s[s.len() - 1] == x);
            }
            if s.drop_last().contains(x) {
                let i = choose|i: int| 0 <= i < s.len() - 1 && s.drop_last()[i] == x;
                assert(s[i] == x);
            }
        }
        if !d.contains(s.last()) {
            let e = d.push(s.last());
            assert forall|x: Seq<char>| e.contains(x) <==> (d.contains(x) || x == s.last()) by {
                if e.contains(x) {
                    let i = choose|i: int| 0 <= i < e.len() && e[i] == x;
                    if i < d.len() {
                        assert(d[i] == x);
                    }
                }
                if d.contains(x) {
                    let i = choose|i: int| 0 <= i < d.len() && d[i] == x;
                    assert(e[i] == x);
                }
                if x == s.last() {
                    assert(e[d.len() as int] == x);
                }
            }
        }
    }
}

/// With distinct labels, the position found by a scan is the label's index.
proof fn lemma_index_of_distinct(labels: Seq<Seq<char>>, i: int)
    requires
        labels.no_duplicates(),
        0 <= i < labels.len(),
    ensures
        labels.contains(labels[i]),
        labels.index_of(labels[i]) == i,
{
    assert(labels[i] == labels[i]);
    let j = labels.index_of(labels[i]);
    assert(labels.contains(labels[i]));
    assert(labels[j] == labels[i]);
}

proof fn lemma_index_of_in_range(labels: Seq<Seq<char>>, l: Seq<char>)
    requires
        labels.contains(l),
    ensures
        0 <= labels.index_of(l) < labels.len(),
        labels[labels.index_of(l)] == l,
{
}

/// Assigns dense ids to the labels in first-seen order.
fn collect_labels(nodes: &Vec<String>) -> (r: Vec<String>)
    ensures
        r@.map_values(|s: String| s@) == dedup(nodes@.map_values(|s: String| s@)),
{
    let ghost src = nodes@.map_values(|s: String| s@);
    let mut labels: Vec<String> = Vec::new();
    let mut i: usize = 0;
    while i < nodes.len()
        invariant
            i <= nodes@.len(),
            src == nodes@.map_values(|s: String| s@),
            labels@.map_values(|s: String| s@) == dedup(src.take(i as int)),
        decreases nodes@.len() - i,
    {
        proof {
            assert(src.take(i as int + 1).drop_last() == src.take(i as int));
            lemma_dedup(src.take(i as int));
        }
        let ghost before = labels@.map_values(|s: String| s@);
        match find_label(&labels, &nodes[i]) {
            Some(_) => {
                proof {
                    let j = choose|j: int| 0 <= j < labels@.len() && labels@[j]@ == nodes@[i as int]@;
                    assert(before[j] == src.take(i as int + 1).last());
                }
            },
            None => {
                proof {
                    assert forall|j: int| 0 <= j < before.len() implies before[j] != src.take(i as int + 1).last() by {
                        assert(labels@[j]@ != nodes@[i as int]@);
                    }
                }
                labels.push(nodes[i].clone());
                assert(labels@.map_values(|s: String| s@) == before.push(src.take(i as int + 1).last()));
            },
        }
        i = i + 1;
    }
    assert(src.take(nodes@.len() as int) == src);
    labels
}


/// Replaces the endpoint labels of each edge by their ids.
fn resolve_edges<E: Copy>(labels: &Vec<String>, edges: &Vec<(String, String, E)>) -> (r: Result<
    Vec<(usize, usize, E)>,
    GraphError,
>)
    requires
        labels@.map_values(|s: String| s@).no_duplicates(),
    ensures
        match r {
            Ok(ids) => {
                &&& edges_known(labels@.map_values(|s: String| s@), edges@)
                &&& ids@ == edge_ids(labels@.map_values(|s: String| s@), edges@)
                &&& ids_in_range(labels@.len(), ids@)
            },
            Err(GraphError::UnknownNode(l)) => {
                &&& !edges_known(labels@.map_values(|s: String| s@), edges@)
                &&& !labels@.map_values(|s: String| s@).contains(l@)
            },
            Err(_) => false,
        },
{
    let ghost lv = labels@.map_values(|s: String| s@);
    let ghost all = edge_ids(lv, edges@);
    let mut ids: Vec<(usize, usize, E)> = Vec::new();
    let mut k: usize = 0;
    while k < edges.len()
        invariant
            k <= edges@.len(),
            lv == labels@.map_values(|s: String| s@),
            lv.no_duplicates(),
            all == edge_ids(lv, edges@),
            ids@ == all.take(k as int),
            ids_in_range(labels@.len(), ids@),
            forall|j: int| 0 <= j < k ==> lv.contains(#[trigger] edges@[j].0@) && lv.contains(edges@[j].1@),
        decreases edges@.len() - k,
    {
        let u = match find_label(labels, &edges[k].0) {
            Some(u) => u,
            None => {
                proof {
                    assert forall|j: int| 0 <= j < lv.len() implies lv[j] != edges@[k as int].0@ by {}
                    assert(!lv.contains(edges@[k as int].0@));
                }
                return Err(GraphError::UnknownNode(edges[k].0.clone()));
            },
        };
        let v = match find_label(labels, &edges[k].1) {
            Some(v) => v,
            None => {
                proof {
                    assert forall|j: int| 0 <= j < lv.len() implies lv[j] != edges@[k as int].1@ by {}
                    assert(!lv.contains(edges@[k as int].1@));
                }
                return Err(GraphError::UnknownNode(edges[k].1.clone()));
            },
        };
        let w = edges[k].2;
        proof {
            lemma_index_of_distinct(lv, u as int);
            lemma_index_of_distinct(lv, v as int);
            assert(lv[u as int] == edges@[k as int].0@);
            assert(lv[v as int] == edges@[k as int].1@);
            assert(lv.contains(edges@[k as int].0@));
            assert(lv.contains(edges@[k as int].1@));
            assert(all[k as int] == (u, v, w));
        }
        ids.push((u, v, w));
        proof {
            assert(ids@ =~= all.take(k as int + 1));
            assert forall|j: int| 0 <= j < k + 1 implies lv.contains(#[trigger] edges@[j].0@) && lv.contains(edges@[j].1@) by {}
        }
        k = k + 1;
    }
    assert(ids@ =~= all);
    Ok(ids)
}

/// Endpoints of all edges are ids below `n`.
pub open spec fn ids_in_range<E>(n: nat, ids: Seq<(usize, usize, E)>) -> bool {
    forall|k: int| 0 <= k < ids.len() ==> (#[trigger] ids[k]).0 < n && ids[k].1 < n
}

/// Appends the arcs of one edge.
fn push_arcs<E: Copy>(nbs: &mut Vec<Vec<AdjEntry<E>>>, u: usize, v: usize, w: E, bidir: bool)
    requires
        u < old(nbs)@.len(),
        v < old(nbs)@.len(),
    ensures
        final(nbs)@.len() == old(nbs)@.len(),
        view_adj(final(nbs)@) == {
            let a = view_adj(old(nbs)@);
            let a1 = a.update(u as int, a[u as int].push((v, w)));
            if bidir {
                a1.update(v as int, a1[v as int].push((u, w)))
            } else {
                a1
            }
        },
{
    let ghost a = view_adj(nbs@);
    nbs[u].push((v, w));
    let ghost a1 = a.update(u as int, a[u as int].push((v, w)));
    assert(view_adj(nbs@) =~= a1);
    if bidir {
        nbs[v].push((u, w));
        assert(view_adj(nbs@) =~= a1.update(v as int, a1[v as int].push((u, w))));
    }
}

/// `n` empty adjacency lists.
fn empty_adjacency<E>(n: usize) -> (nbs: Vec<Vec<AdjEntry<E>>>)
    ensures
        nbs@.len() == n,
        view_adj(nbs@) == Seq::new(n as nat, |i: int| Seq::<AdjEntry<E>>::empty()),
{
    let mut nbs: Vec<Vec<AdjEntry<E>>> = Vec::new();
    let mut i: usize = 0;
    while i < n
        invariant
            i <= n,
            nbs@.len() == i,
            forall|j: int| 0 <= j < i ==> (#[trigger] nbs@[j])@ == Seq::<AdjEntry<E>>::empty(),
        decreases n - i,
    {
        let empty: Vec<AdjEntry<E>> = Vec::new();
        nbs.push(empty);
        i = i + 1;
    }
    assert(view_adj(nbs@) =~= Seq::new(n as nat, |i: int| Seq::<AdjEntry<E>>::empty()));
    nbs
}

/// Builds the adjacency lists: one arc per edge, or two when `bidir`, in edge order.
fn adjacency_of<E: Copy>(n: usize, ids: &Vec<(usize, usize, E)>, bidir: bool) -> (nbs: Vec<Vec<AdjEntry<E>>>)
    requires
        ids_in_range(n as nat, ids@),
    ensures
        nbs@.len() == n,
        view_adj(nbs@) == adjacency(n as nat, ids@, bidir, ids@.len()),
{
    let mut nbs = empty_adjacency(n);
    assert(adjacency(n as nat, ids@, bidir, 0) =~= Seq::new(n as nat, |j: int| Seq::<AdjEntry<E>>::empty()));
    let mut k: usize = 0;
    while k < ids.len()
        invariant
            k <= ids@.len(),
            ids_in_range(n as nat, ids@),
            nbs@.len() == n,
            view_adj(nbs@) == adjacency(n as nat, ids@, bidir, k as nat),
        decreases ids@.len() - k,
    {
        let (u, v, w) = ids[k];
        proof {
            assert(ids@[k as int].0 < n && ids@[k as int].1 < n);
        }
        push_arcs(&mut nbs, u, v, w, bidir);
        k = k + 1;
    }
    nbs
}

proof fn lemma_adjacency_arcs<E>(n: nat, ids: Seq<(usize, usize, E)>, bidir: bool, k: nat)
    requires
        ids_in_range(n, ids),
    ensures
        adjacency(n, ids, bidir, k).len() == n,
        arcs_in_range(adjacency(n, ids, bidir, k)),
    decreases k,
{
    if k > 0 && k <= ids.len() {
        lemma_adjacency_arcs(n, ids, bidir, (k - 1) as nat);
        let a = adjacency(n, ids, bidir, (k - 1) as nat);
        let (u, v, w) = ids[k - 1];
        assert(ids[k - 1].0 < n && ids[k - 1].1 < n);
        let a1 = a.update(u as int, a[u as int].push((v, w)));
        assert(arcs_in_range(a1)) by {
            assert forall|x: int, j: int| 0 <= x < a1.len() && 0 <= j < a1[x].len() implies (#[trigger] a1[x][j]).0 < a1.len() by {
                if x == u && j == a[u as int].len() {
                } else {
                    assert(a1[x][j] == a[x][j]);
                }
            }
        }
        if bidir {
            let a2 = a1.update(v as int, a1[v as int].push((u, w)));
            assert forall|x: int, j: int| 0 <= x < a2.len() && 0 <= j < a2[x].len() implies (#[trigger] a2[x][j]).0 < a2.len() by {
                if x == v && j == a1[v as int].len() {
                } else {
                    assert(a2[x][j] == a1[x][j]);
                }
            }
        }
    } else if k > 0 {
    } else {
        assert forall|x: int, j: int| 0 <= x < adjacency(n, ids, bidir, k).len() && 0 <= j < adjacency(n, ids, bidir, k)[x].len()
            implies (#[trigger] adjacency(n, ids, bidir, k)[x][j]).0 < n by {}
    }
}

/// No arc `u -> v` whose tail `u` can be reached back from its head `v`.
pub open spec fn directed_acyclic<E>(adj: Seq<Seq<AdjEntry<E>>>) -> bool {
    forall|u: int, j: int|
        0 <= u < adj.len() && 0 <= j < adj[u].len() ==> !reachable(adj, (#[trigger] adj[u][j]).0 as int, u)
}

/// No edge joins two ids that the edges before it already connect.
pub open spec fn undirected_acyclic<E>(n: nat, ids: Seq<(usize, usize, E)>) -> bool {
    forall|k: int|
        0 <= k < ids.len() ==> !reachable(adjacency(n, ids, true, k as nat), (#[trigger] ids[k]).0 as int, ids[k].1 as int)
}

/// `m` edges over a non-empty node set, every node reachable from id 0.
pub open spec fn tree_shape<E>(adj: Seq<Seq<AdjEntry<E>>>, m: nat) -> bool {
    &&& adj.len() > 0
    &&& m + 1 == adj.len()
    &&& forall|t: int| 0 <= t < adj.len() ==> reachable(adj, 0, t)
}

/// Directed cycle check: some arc whose head leads back to its tail.
fn has_cycle<E>(nbs: &Vec<Vec<AdjEntry<E>>>) -> (r: bool)
    requires
        arcs_in_range(view_adj(nbs@)),
    ensures
        r == !directed_acyclic(view_adj(nbs@)),
{
    let ghost adj = view_adj(nbs@);
    let mut u: usize = 0;
    while u < nbs.len()
        invariant
            u <= nbs@.len(),
            adj == view_adj(nbs@),
            arcs_in_range(adj),
            forall|x: int, j: int|
                0 <= x < u && 0 <= j < adj[x].len() ==> !reachable(adj, (#[trigger] adj[x][j]).0 as int, x),
        decreases nbs@.len() - u,
    {
        let mut j: usize = 0;
        assert(adj[u as int] == nbs@[u as int]@);
        while j < nbs[u].len()
            invariant
                u < nbs@.len(),
                j <= adj[u as int].len(),
                adj == view_adj(nbs@),
                adj[u as int] == nbs@[u as int]@,
                arcs_in_range(adj),
                forall|x: int, jj: int|
                    0 <= x < u && 0 <= jj < adj[x].len() ==> !reachable(adj, (#[trigger] adj[x][jj]).0 as int, x),
                forall|jj: int| 0 <= jj < j ==> !reachable(adj, (#[trigger] adj[u as int][jj]).0 as int, u as int),
            decreases adj[u as int].len() - j,
        {
            let v = nbs[u][j].0;
            assert(v == adj[u as int][j as int].0);
            let back = bfs_reach(nbs, v);
            if back[u] {
                return true;
            }
            j = j + 1;
        }
        u = u + 1;
    }
    false
}

/// Undirected cycle check: some edge whose endpoints the earlier edges already connect.
fn has_cycle_bidir<E: Copy>(n: usize, ids: &Vec<(usize, usize, E)>) -> (r: bool)
    requires
        ids_in_range(n as nat, ids@),
    ensures
        r == !undirected_acyclic(n as nat, ids@),
{
    let mut nbs = empty_adjacency(n);
    assert(adjacency(n as nat, ids@, true, 0) =~= Seq::new(n as nat, |j: int| Seq::<AdjEntry<E>>::empty()));
    let mut k: usize = 0;
    while k < ids.len()
        invariant
            k <= ids@.len(),
            ids_in_range(n as nat, ids@),
            nbs@.len() == n,
            view_adj(nbs@) == adjacency(n as nat, ids@, true, k as nat),
            forall|j: int|
                0 <= j < k ==> !reachable(adjacency(n as nat, ids@, true, j as nat), (#[trigger] ids@[j]).0 as int, ids@[j].1 as int),
        decreases ids@.len() - k,
    {
        let (u, v, w) = ids[k];
        proof {
            assert(ids@[k as int].0 < n && ids@[k as int].1 < n);
            lemma_adjacency_arcs(n as nat, ids@, true, k as nat);
        }
        let seen = bfs_reach(&nbs, u);
        if seen[v] {
            return true;
        }
        push_arcs(&mut nbs, u, v, w, true);
        k = k + 1;
    }
    false
}

/// Tree check: exactly `n - 1` edges, and every node reachable from id 0.
fn is_tree_shaped<E>(nbs: &Vec<Vec<AdjEntry<E>>>, m: usize) -> (r: bool)
    requires
        arcs_in_range(view_adj(nbs@)),
    ensures
        r == tree_shape(view_adj(nbs@), m as nat),
{
    let n = nbs.len();
    if n == 0 || m != n - 1 {
        return false;
    }
    let seen = bfs_reach(nbs, 0);
    let mut t: usize = 0;
    while t < n
        invariant
            n == nbs@.len(),
            n > 0,
            m + 1 == n,
            t <= n,
            seen@.len() == n,
            forall|x: int| 0 <= x < n ==> (seen@[x] <==> reachable(view_adj(nbs@), 0, x)),
            forall|x: int| 0 <= x < t ==> reachable(view_adj(nbs@), 0, x),
        decreases n - t,
    {
        if !seen[t] {
            return false;
        }
        t = t + 1;
    }
    true
}


/// Packs the category facts into a bitmask.
fn category_mask(bidir: bool, tree: bool, forest: bool, dag: bool) -> (c: u8)
    ensures
        (c & BIDIR_BIT != 0) == bidir,
        (c & TREE_BIT != 0) == tree,
        (c & CONNECTED_BIT != 0) == tree,
        (c & FOREST_BIT != 0) == forest,
        (c & DAG_BIT != 0) == dag,
{
    let a: u8 = if bidir { 1 } else { 0 };
    let b: u8 = if tree { 6 } else { 0 };
    let f: u8 = if forest { 8 } else { 0 };
    let d: u8 = if dag { 16 } else { 0 };
    let c = a | b | f | d;
    assert((c & 1u8 != 0) == (a == 1) && (c & 2u8 != 0) == (b == 6) && (c & 4u8 != 0) == (b == 6)
        && (c & 8u8 != 0) == (f == 8) && (c & 16u8 != 0) == (d == 16)) by (bit_vector)
        requires
            a == 0 || a == 1,
            b == 0 || b == 6,
            f == 0 || f == 8,
            d == 0 || d == 16,
            c == a | b | f | d,
    ;
    c
}

impl<E: Copy> Graph<E> {
    /// A directed graph: one arc per edge. Labels get ids in first-seen order.
    pub fn new(nodes: &Vec<String>, edges: &Vec<(String, String, E)>) -> (r: Result<Self, GraphError>)
        ensures
            Self::built(r, nodes@.map_values(|s: String| s@), edges@, false),
            match r {
                Ok(g) => {
                    &&& !g.has_category(BIDIR_BIT)
                    &&& !g.has_category(TREE_BIT)
                    &&& !g.has_category(CONNECTED_BIT)
                    &&& !g.has_category(FOREST_BIT)
                    &&& g.has_category(DAG_BIT) == directed_acyclic(g.adj())
                },
                Err(_) => true,
            },
    {
        let node_map_rev = collect_labels(nodes);
        proof {
            lemma_dedup(nodes@.map_values(|s: String| s@));
        }
        let ids = match resolve_edges(&node_map_rev, edges) {
            Ok(ids) => ids,
            Err(e) => return Err(e),
        };
        let n = node_map_rev.len();
        let nbs = adjacency_of(n, &ids, false);
        proof {
            lemma_adjacency_arcs(n as nat, ids@, false, ids@.len());
        }
        let dag = !has_cycle(&nbs);
        let category = category_mask(false, false, false, dag);
        Ok(Graph { node_map_rev, nbs, category, rooted_tree_infos: None, tree_root: 0, has_tables: false })
    }

    /// An undirected graph: two arcs per edge, one each way, with the same weight.
    pub fn new_bidir(nodes: &Vec<String>, edges: &Vec<(String, String, E)>) -> (r: Result<Self, GraphError>)
        ensures
            Self::built(r, nodes@.map_values(|s: String| s@), edges@, true),
            match r {
                Ok(g) => {
                    &&& g.has_category(BIDIR_BIT)
                    &&& g.has_category(TREE_BIT) == tree_shape(g.adj(), edges@.len())
                    &&& g.has_category(CONNECTED_BIT) == g.has_category(TREE_BIT)
                    &&& g.has_category(FOREST_BIT) == (g.has_category(TREE_BIT) || undirected_acyclic(
                        g.node_count(),
                        edge_ids(g.labels(), edges@),
                    ))
                    &&& !g.has_category(DAG_BIT)
                },
                Err(_) => true,
            },
    {
        let node_map_rev = collect_labels(nodes);
        proof {
            lemma_dedup(nodes@.map_values(|s: String| s@));
        }
        let ids = match resolve_edges(&node_map_rev, edges) {
            Ok(ids) => ids,
            Err(e) => return Err(e),
        };
        let n = node_map_rev.len();
        let nbs = adjacency_of(n, &ids, true);
        proof {
            lemma_adjacency_arcs(n as nat, ids@, true, ids@.len());
            lemma_adjacency_symmetric(n as nat, ids@, ids@.len());
        }
        let tree = is_tree_shaped(&nbs, ids.len());
        let forest = tree || !has_cycle_bidir(n, &ids);
        let category = category_mask(true, tree, forest, false);
        Ok(Graph { node_map_rev, nbs, category, rooted_tree_infos: None, tree_root: 0, has_tables: false })
    }

    /// What both constructors promise: ids, adjacency, and when construction fails.
    pub open spec fn built(
        r: Result<Self, GraphError>,
        nodes: Seq<Seq<char>>,
        edges: Seq<(String, String, E)>,
        bidir: bool,
    ) -> bool {
        match r {
            Ok(g) => {
                &&& g.wf()
                &&& g.index() is None
                &&& edges_known(dedup(nodes), edges)
                &&& g.labels() == dedup(nodes)
                &&& g.adj() == adjacency(g.node_count(), edge_ids(g.labels(), edges), bidir, edges.len())
            },
            Err(GraphError::UnknownNode(l)) => {
                &&& !edges_known(dedup(nodes), edges)
                &&& !nodes.contains(l@)
            },
            Err(_) => false,
        }
    }
}


/// Indexes the tree rooted at `root_id`, every node being reachable from it.
#[verifier::rlimit(100)]
#[verifier::spinoff_prover]
fn build_index<E>(nbs: &Vec<Vec<AdjEntry<E>>>, root_id: usize, include_pow2_ancestors: bool) -> (infos: Vec<TreeNode>)
    requires
        root_id < nbs@.len(),
        arcs_in_range(view_adj(nbs@)),
        forall|t: int| 0 <= t < nbs@.len() ==> reachable(view_adj(nbs@), root_id as int, t),
    ensures
        index_ok(view_adj(nbs@), root_id as int, infos@),
        forall|v: int| 0 <= v < nbs@.len() ==> (#[trigger] infos@[v]).pow2_ancestors.is_some() == include_pow2_ancestors,
{
    let ghost adj = view_adj(nbs@);
    let mut infos = index_tree(nbs, root_id);
    assert forall|v: int| 0 <= v < infos@.len() implies record_ok(adj, root_id as int, infos@, v) by {
        assert(reachable(adj, root_id as int, v));
        assert(infos@[v].exit_time.is_some());
    }
    let ghost before = infos@;
    if include_pow2_ancestors {
        assert forall|v: int| 0 <= v < infos@.len() implies (#[trigger] infos@[v]).parent_id < infos@.len() && infos@[v].level < infos@.len() by {}
        fill_ancestor_tables(&mut infos);
        assert(parents_of(infos@) =~= parents_of(before));
        assert forall|a: int, b: int|
            0 <= a < infos@.len() && 0 <= b < infos@.len() && infos@[a].enter_time <= infos@[b].enter_time
                && infos@[b].enter_time <= infos@[a].exit_time.unwrap() implies #[trigger] is_chain_ancestor(infos@, a, b) by {
            assert(is_chain_ancestor(before, a, b));
        }
        assert forall|v: int| 0 <= v < infos@.len() implies record_ok(adj, root_id as int, infos@, v) by {
            assert(record_ok(adj, root_id as int, before, v));
            let p = before[v].parent_id as int;
            assert(infos@[v].parent_id == before[v].parent_id);
            assert(infos@[p].enter_time == before[p].enter_time);
        }
    }
    infos
}

/// The (child, parent) label pairs of the ids below `k` whose edge to the parent is a bridge.
pub open spec fn bridge_list(labels: Seq<Seq<char>>, infos: Seq<TreeNode>, k: nat) -> Seq<(Seq<char>, Seq<char>)>
    decreases k,
{
    if k == 0 {
        Seq::empty()
    } else {
        let v = (k - 1) as int;
        let rest = bridge_list(labels, infos, (k - 1) as nat);
        if infos[v].parent_id != v && infos[v].subtree_upnode_cnt == Some(0usize) {
            rest.push((labels[v], labels[infos[v].parent_id as int]))
        } else {
            rest
        }
    }
}

/// The less deep of two nodes; the first one when they are equally deep.
pub open spec fn shallower(infos: Seq<TreeNode>, a: int, b: int) -> int {
    if infos[a].level > infos[b].level {
        b
    } else {
        a
    }
}

impl<E: Copy> Graph<E> {
    pub fn is_bidir(&self) -> (r: bool)
        ensures
            r == self.has_category(BIDIR_BIT),
    {
        self.category & BIDIR_BIT != 0
    }

    pub fn is_tree(&self) -> (r: bool)
        ensures
            r == self.has_category(TREE_BIT),
    {
        self.category & TREE_BIT != 0
    }

    pub fn is_connected(&self) -> (r: bool)
        ensures
            r == self.has_category(CONNECTED_BIT),
    {
        self.category & CONNECTED_BIT != 0
    }

    pub fn is_forest(&self) -> (r: bool)
        ensures
            r == self.has_category(FOREST_BIT),
    {
        self.category & FOREST_BIT != 0
    }

    pub fn is_dag(&self) -> (r: bool)
        ensures
            r == self.has_category(DAG_BIT),
    {
        self.category & DAG_BIT != 0
    }

    /// Succeeds when every bit of `bits` is set; otherwise names the missing ones.
    fn assert_categories(&self, bits: u8) -> (r: Result<(), GraphError>)
        ensures
            r matches Ok(_) <==> self.category & bits == bits,
            r matches Err(GraphError::MissingCategories(m)) ==> m == bits & !self.category,
            !(r matches Err(GraphError::UnknownNode(_))),
            !(r matches Err(GraphError::NotIndexed)),
            !(r matches Err(GraphError::NoAncestorTable)),
    {
        if self.category & bits == bits {
            Ok(())
        } else {
            Err(GraphError::MissingCategories(bits & !self.category))
        }
    }

    /// The id of a label.
    pub fn node_id(&self, label: &String) -> (r: Option<usize>)
        requires
            self.wf(),
        ensures
            r matches Some(i) ==> self.node_map(label@) == Some(i as nat),
            r is None <==> self.node_map(label@) is None,
    {
        let r = find_label(&self.node_map_rev, label);
        proof {
            if let Some(i) = r {
                lemma_index_of_distinct(self.labels(), i as int);
            } else {
                assert forall|j: int| 0 <= j < self.labels().len() implies self.labels()[j] != label@ by {
                    assert(self.node_map_rev@[j]@ != label@);
                }
            }
        }
        r
    }

    /// The label of an id.
    pub fn node_label(&self, id: usize) -> (r: Option<&String>)
        ensures
            r matches Some(l) ==> id < self.node_count() && l@ == self.labels()[id as int],
            r is None <==> id >= self.node_count(),
    {
        if id < self.node_map_rev.len() {
            Some(&self.node_map_rev[id])
        } else {
            None
        }
    }

    fn lookup(&self, label: &String) -> (r: Result<usize, GraphError>)
        requires
            self.wf(),
        ensures
            r matches Ok(i) ==> self.node_map(label@) == Some(i as nat) && i < self.node_count(),
            r matches Err(e) ==> self.node_map(label@) is None && e == GraphError::UnknownNode(*label),
    {
        match self.node_id(label) {
            Some(i) => Ok(i),
            None => Err(GraphError::UnknownNode(label.clone())),
        }
    }

    /// The neighbours of a node with the weights of the arcs, in adjacency order.
    pub fn node_iter(&self, node: &String) -> (r: Result<Vec<(String, E)>, GraphError>)
        requires
            self.wf(),
        ensures
            r is Err <==> self.node_map(node@) is None,
            r matches Err(e) ==> e == GraphError::UnknownNode(*node),
            r matches Ok(l) ==> {
                let u = self.node_map(node@).unwrap() as int;
                &&& l@.len() == self.adj()[u].len()
                &&& forall|j: int| 0 <= j < l@.len() ==> {
                    &&& (#[trigger] l@[j]).0@ == self.labels()[self.adj()[u][j].0 as int]
                    &&& l@[j].1 == self.adj()[u][j].1
                }
            },
    {
        let u = match self.lookup(node) {
            Ok(u) => u,
            Err(e) => return Err(e),
        };
        let ghost a = self.adj()[u as int];
        assert(a == self.nbs@[u as int]@);
        let mut out: Vec<(String, E)> = Vec::new();
        let mut j: usize = 0;
        while j < self.nbs[u].len()
            invariant
                self.wf(),
                u < self.node_count(),
                a == self.nbs@[u as int]@,
                a == self.adj()[u as int],
                j <= a.len(),
                out@.len() == j,
                forall|x: int| 0 <= x < j ==> {
                    &&& (#[trigger] out@[x]).0@ == self.labels()[a[x].0 as int]
                    &&& out@[x].1 == a[x].1
                },
            decreases a.len() - j,
        {
            let (v, w) = self.nbs[u][j];
            assert(v < self.node_count());
            out.push((self.node_map_rev[v].clone(), w));
            j = j + 1;
        }
        Ok(out)
    }

    /// Euler-interval containment: `a` is an ancestor of `b` (or `b` itself).
    fn is_ancestor_ids(&self, a: usize, b: usize) -> (r: bool)
        requires
            self.wf(),
            self.index() is Some,
            a < self.node_count(),
            b < self.node_count(),
        ensures
            r == contains_interval(self.index().unwrap(), a as int, b as int),
    {
        let infos = self.rooted_tree_infos.as_ref().unwrap();
        assert(record_ok(self.adj(), self.tree_root as int, infos@, a as int));
        assert(record_ok(self.adj(), self.tree_root as int, infos@, b as int));
        infos[a].enter_time <= infos[b].enter_time && infos[a].exit_time.unwrap() >= infos[b].exit_time.unwrap()
    }

    /// Binary-lifting search for the lowest common ancestor of two ids.
    fn common_ancestor_ids(&self, node1_id: usize, node2_id: usize) -> (r: usize)
        requires
            self.wf(),
            self.index() is Some,
            node1_id < self.node_count(),
            node2_id < self.node_count(),
            forall|v: int| 0 <= v < self.node_count() ==> (#[trigger] self.index().unwrap()[v]).pow2_ancestors.is_some(),
        ensures
            r < self.node_count(),
            ({
                let infos = self.index().unwrap();
                let (u, v) = if infos[node1_id as int].level > infos[node2_id as int].level {
                    (node2_id as int, node1_id as int)
                } else {
                    (node1_id as int, node2_id as int)
                };
                &&& contains_interval(infos, u, v) ==> r == u
                &&& is_chain_ancestor(infos, r as int, shallower(infos, node1_id as int, node2_id as int))
                &&& contains_interval(infos, r as int, node1_id as int)
                &&& contains_interval(infos, r as int, node2_id as int)
                &&& forall|c: int|
                    0 <= c < infos.len() && contains_interval(infos, c, node1_id as int) && contains_interval(
                        infos,
                        c,
                        node2_id as int,
                    ) ==> #[trigger] contains_interval(infos, c, r as int)
            }),
    {
        let infos = self.rooted_tree_infos.as_ref().unwrap();
        let ghost n = self.node_count();
        let ghost parents = parents_of(infos@);
        let mut u = node1_id;
        let mut v = node2_id;
        if infos[u].level > infos[v].level {
            u = node2_id;
            v = node1_id;
        }
        let ghost adj = self.adj();
        let ghost root = self.tree_root as int;
        proof {
            assert(anc(parents_of(infos@), u as int, 0) == u as int);
            lemma_chain_contains(adj, root, infos@, u as int, 0);
        }
        if self.is_ancestor_ids(u, v) {
            return u;
        }
        proof {
            assert forall|x: int| 0 <= x < n implies (#[trigger] parents[x]) < n by {
                assert(parents[x] == infos@[x].parent_id);
            }
        }
        let mut common_ancestor = u;
        let ghost mut dist: nat = 0;
        assert(table_ok(infos@, u as int));
        let mut bit = infos[u].pow2_ancestors.as_ref().unwrap().len();
        proof {
            lemma_pow2_exceeds_bits(infos@[u as int].level as nat);
            lemma_pow2_mono(bits(infos@[u as int].level as nat), bit as nat);
            lemma_anc_beyond_depth(adj, root, infos@, u as int, pow2_of(bit as nat));
            lemma_root_contains(adj, root, infos@, v as int, infos@[v as int].level as nat);
        }
        while bit > 0
            invariant
                self.wf(),
                self.rooted_tree_infos == Some(*infos),
                n == self.node_count(),
                infos@.len() == n,
                parents == parents_of(infos@),
                forall|x: int| 0 <= x < n ==> (#[trigger] parents[x]) < n,
                forall|x: int| 0 <= x < n ==> (#[trigger] infos@[x]).pow2_ancestors.is_some(),
                common_ancestor < n,
                u < n,
                v < n,
                anc(parents, u as int, dist) == common_ancestor,
                adj == self.adj(),
                root == self.tree_root as int,
                index_ok(adj, root, infos@),
                contains_interval(infos@, anc(parents, common_ancestor as int, pow2_of(bit as nat)), v as int),
                !contains_interval(infos@, common_ancestor as int, v as int),
            decreases bit,
        {
            let ghost old_ca = common_ancestor as int;
            let ghost old_bit = bit as nat;
            bit = bit - 1;
            assert(table_ok(infos@, common_ancestor as int));
            let table = infos[common_ancestor].pow2_ancestors.as_ref().unwrap();
            proof {
                assert(pow2_of(old_bit) == pow2_of(bit as nat) + pow2_of(bit as nat));
                lemma_anc_add(parents, old_ca, pow2_of(bit as nat), pow2_of(bit as nat));
                lemma_anc_in_range(parents, old_ca, pow2_of(bit as nat));
                if bit >= table@.len() {
                    lemma_pow2_exceeds_bits(infos@[old_ca].level as nat);
                    lemma_pow2_mono(bits(infos@[old_ca].level as nat), bit as nat);
                    lemma_anc_beyond_depth(adj, root, infos@, old_ca, pow2_of(bit as nat));
                    lemma_root_contains(adj, root, infos@, v as int, infos@[v as int].level as nat);
                }
            }
            if bit < table.len() {
                let next_node = table[bit];
                proof {
                    lemma_anc_in_range(parents, common_ancestor as int, pow2_of(bit as nat));
                }
                if !self.is_ancestor_ids(next_node, v) {
                    proof {
                        lemma_anc_add(parents, u as int, dist, pow2_of(bit as nat));
                        dist = dist + pow2_of(bit as nat);
                    }
                    common_ancestor = next_node;
                }
            }
        }
        proof {
            lemma_anc_add(parents, u as int, dist, 1);
            reveal_with_fuel(anc, 2);
            assert(anc(parents, common_ancestor as int, 1) == parents[common_ancestor as int]);
            assert(parents[common_ancestor as int] == infos@[common_ancestor as int].parent_id);
            lemma_chain_contains(adj, root, infos@, u as int, dist + 1);
            lemma_lowest(adj, root, infos@, u as int, v as int, dist);
        }
        infos[common_ancestor].parent_id
    }

    /// The lowest common ancestor of two nodes in the indexed tree.
    pub fn common_ancestor(&self, node1: &String, node2: &String) -> (r: Result<&String, GraphError>)
        requires
            self.wf(),
        ensures
            !self.has_category(TREE_BIT) ==> r == Err::<&String, GraphError>(GraphError::MissingCategories(TREE_BIT)),
            self.has_category(TREE_BIT) && (self.node_map(node1@) is None || self.node_map(node2@) is None) ==> r
                matches Err(GraphError::UnknownNode(_)),
            r matches Err(GraphError::UnknownNode(l)) ==> (l == *node1 && self.node_map(node1@) is None) || (l == *node2
                && self.node_map(node2@) is None),
            r matches Err(GraphError::UnknownNode(_)) <==> (self.has_category(TREE_BIT) && (self.node_map(node1@) is None
                || self.node_map(node2@) is None)),
            r matches Err(GraphError::NotIndexed) <==> (self.has_category(TREE_BIT) && self.node_map(node1@) is Some
                && self.node_map(node2@) is Some && self.index() is None),
            r matches Err(GraphError::NoAncestorTable) <==> (self.has_category(TREE_BIT) && self.node_map(node1@) is Some
                && self.node_map(node2@) is Some && self.index() is Some && exists|v: int|
                0 <= v < self.node_count() && (#[trigger] self.index().unwrap()[v]).pow2_ancestors is None),
            r is Ok <==> (self.has_category(TREE_BIT) && self.node_map(node1@) is Some && self.node_map(node2@) is Some
                && self.index() is Some && forall|v: int|
                0 <= v < self.node_count() ==> (#[trigger] self.index().unwrap()[v]).pow2_ancestors is Some),
            r matches Ok(l) ==> self.labels().contains(l@),
            r matches Ok(l) ==> {
                let infos = self.index().unwrap();
                let a = self.node_map(node1@).unwrap() as int;
                let b = self.node_map(node2@).unwrap() as int;
                let (u, v) = if infos[a].level > infos[b].level {
                    (b, a)
                } else {
                    (a, b)
                };
                &&& contains_interval(infos, u, v) ==> l@ == self.labels()[u]
                &&& exists|c: int|
                    0 <= c < self.node_count() && #[trigger] self.labels()[c] == l@ && is_chain_ancestor(infos, c, shallower(infos, a, b))
                        && contains_interval(infos, c, a) && contains_interval(infos, c, b) && forall|c2: int|
                        0 <= c2 < self.node_count() && contains_interval(infos, c2, a) && contains_interval(infos, c2, b)
                            ==> #[trigger] contains_interval(infos, c2, c)
            },
    {
        match self.assert_categories(TREE_BIT) {
            Ok(()) => {},
            Err(e) => {
                proof {
                    let c = self.category;
                    assert(c & 2u8 != 2u8 ==> c & 2u8 == 0 && 2u8 & !c == 2u8) by (bit_vector);
                }
                return Err(e);
            },
        }
        proof {
            let c = self.category;
            assert(c & 2u8 == 2u8 ==> c & 2u8 != 0) by (bit_vector);
        }
        let node1_id = match self.lookup(node1) {
            Ok(i) => i,
            Err(e) => return Err(e),
        };
        let node2_id = match self.lookup(node2) {
            Ok(i) => i,
            Err(e) => return Err(e),
        };
        if self.rooted_tree_infos.is_none() {
            return Err(GraphError::NotIndexed);
        }
        if !self.has_tables {
            proof {
                let infos = self.index().unwrap();
                assert(self.node_count() > 0);
                assert(infos[0].pow2_ancestors is None);
            }
            return Err(GraphError::NoAncestorTable);
        }
        let id = self.common_ancestor_ids(node1_id, node2_id);
        assert(self.labels()[id as int] == self.node_map_rev@[id as int]@);
        proof {
            let infos = self.index().unwrap();
            let (u, v) = if infos[node1_id as int].level > infos[node2_id as int].level {
                (node2_id as int, node1_id as int)
            } else {
                (node1_id as int, node2_id as int)
            };
            assert(is_chain_ancestor(infos, id as int, shallower(infos, node1_id as int, node2_id as int)));
            assert(0 <= id < self.node_count() && self.labels()[id as int] == self.node_map_rev@[id as int]@);
        }
        Ok(&self.node_map_rev[id])
    }

    /// The tree edges that are bridges, as (child, parent) label pairs in id order.
    pub fn get_bridges(&self) -> (r: Result<Vec<(String, String)>, GraphError>)
        requires
            self.wf(),
        ensures
            !self.has_category(TREE_BIT) ==> r == Err::<Vec<(String, String)>, GraphError>(GraphError::MissingCategories(TREE_BIT)),
            self.has_category(TREE_BIT) && self.index() is None ==> r == Err::<Vec<(String, String)>, GraphError>(GraphError::NotIndexed),
            r is Ok <==> self.has_category(TREE_BIT) && self.index() is Some,
            r matches Ok(l) ==> l@.map_values(|p: (String, String)| (p.0@, p.1@)) == bridge_list(
                self.labels(),
                self.index().unwrap(),
                self.node_count(),
            ),
    {
        match self.assert_categories(TREE_BIT) {
            Ok(()) => {},
            Err(e) => {
                proof {
                    let c = self.category;
                    assert(c & 2u8 != 2u8 ==> c & 2u8 == 0 && 2u8 & !c == 2u8) by (bit_vector);
                }
                return Err(e);
            },
        }
        proof {
            let c = self.category;
            assert(c & 2u8 == 2u8 ==> c & 2u8 != 0) by (bit_vector);
        }
        if self.rooted_tree_infos.is_none() {
            return Err(GraphError::NotIndexed);
        }
        let infos = self.rooted_tree_infos.as_ref().unwrap();
        let n = self.node_map_rev.len();
        let mut out: Vec<(String, String)> = Vec::new();
        let mut v: usize = 0;
        while v < n
            invariant
                self.wf(),
                self.rooted_tree_infos == Some(*infos),
                n == self.node_count(),
                v <= n,
                out@.map_values(|p: (String, String)| (p.0@, p.1@)) == bridge_list(self.labels(), infos@, v as nat),
            decreases n - v,
        {
            assert(record_ok(self.adj(), self.tree_root as int, infos@, v as int));
            let ghost before = out@;
            let p = infos[v].parent_id;
            if p != v && infos[v].subtree_upnode_cnt.unwrap() == 0 {
                out.push((self.node_map_rev[v].clone(), self.node_map_rev[p].clone()));
                assert(out@.map_values(|p: (String, String)| (p.0@, p.1@)) =~= before.map_values(
                    |p: (String, String)| (p.0@, p.1@),
                ).push((self.labels()[v as int], self.labels()[p as int])));
            }
            v = v + 1;
        }
        Ok(out)
    }

    /// The index record of a node, once the tree has been indexed.
    pub fn node_info(&self, node: &String) -> (r: Option<&TreeNode>)
        requires
            self.wf(),
        ensures
            r is Some <==> self.index() is Some && self.node_map(node@) is Some,
            r matches Some(t) ==> *t == self.index().unwrap()[self.node_map(node@).unwrap() as int],
    {
        match &self.rooted_tree_infos {
            None => None,
            Some(infos) => match self.node_id(node) {
                Some(i) => Some(&infos[i]),
                None => None,
            },
        }
    }

    /// Roots the tree at `root` and indexes it: Euler-tour times, depths, subtree
    /// aggregates and, when asked for, ancestor tables. Replaces any earlier index.
    pub fn compute_rooted_tree(&mut self, root: &String, include_pow2_ancestors: bool) -> (r: Result<(), GraphError>)
        requires
            old(self).wf(),
        ensures
            final(self).wf(),
            final(self).labels() == old(self).labels(),
            final(self).adj() == old(self).adj(),
            final(self).category_bits() == old(self).category_bits(),
            forall|b: u8| #[trigger] final(self).has_category(b) == old(self).has_category(b),
            !old(self).has_category(TREE_BIT) ==> r == Err::<(), GraphError>(GraphError::MissingCategories(TREE_BIT)),
            old(self).has_category(TREE_BIT) && old(self).node_map(root@) is None ==> r == Err::<(), GraphError>(
                GraphError::UnknownNode(*root),
            ),
            r is Ok <==> old(self).has_category(TREE_BIT) && old(self).node_map(root@) is Some,
            r is Ok ==> {
                &&& old(self).node_map(root@) == Some(final(self).root_id())
                &&& final(self).index() is Some
                &&& index_ok(final(self).adj(), final(self).root_id() as int, final(self).index().unwrap())
                &&& forall|v: int| 0 <= v < final(self).node_count() ==> (#[trigger] final(self).index().unwrap()[v]).pow2_ancestors.is_some()
                    == include_pow2_ancestors
                &&& include_pow2_ancestors ==> forall|v: int| 0 <= v < final(self).node_count() ==> table_ok(final(self).index().unwrap(), v)
            },
            r is Err ==> final(self).index() == old(self).index() && final(self).root_id() == old(self).root_id(),
    {
        match self.assert_categories(TREE_BIT) {
            Ok(()) => {},
            Err(e) => {
                proof {
                    let c = self.category;
                    assert(c & 2u8 != 2u8 ==> c & 2u8 == 0 && 2u8 & !c == 2u8) by (bit_vector);
                }
                return Err(e);
            },
        }
        let root_id = match self.lookup(root) {
            Ok(i) => i,
            Err(e) => return Err(e),
        };
        proof {
            let c = self.category;
            assert(c & 2u8 == 2u8 ==> c & 2u8 != 0) by (bit_vector);
            lemma_reachable_from_any(self.adj(), 0, root_id as int);
        }
        let infos = build_index(&self.nbs, root_id, include_pow2_ancestors);
        assert forall|v: int| 0 <= v < infos@.len() implies ((#[trigger] infos@[v]).pow2_ancestors is Some
            <==> include_pow2_ancestors) by {
            assert(infos@.len() == self.nbs@.len());
        }
        self.rooted_tree_infos = Some(infos);
        self.tree_root = root_id;
        self.has_tables = include_pow2_ancestors;
        Ok(())
    }
}


/// An element of a list stays in it when the list, or another list, gains an element.
proof fn lemma_contains_after_step<E>(a: Seq<Seq<AdjEntry<E>>>, x: int, y: int, e: AdjEntry<E>, item: AdjEntry<E>)
    requires
        0 <= x < a.len(),
        0 <= y < a.len(),
        a[y].contains(item),
    ensures
        a.update(x, a[x].push(e))[y].contains(item),
{
    let i = choose|i: int| 0 <= i < a[y].len() && a[y][i] == item;
    assert(a.update(x, a[x].push(e))[y][i] == item);
}

proof fn lemma_adjacency_has_edge<E>(n: nat, ids: Seq<(usize, usize, E)>, k: int, upto: nat)
    requires
        ids_in_range(n, ids),
        0 <= k < upto <= ids.len(),
    ensures
        adjacency(n, ids, true, upto)[ids[k].0 as int].contains((ids[k].1, ids[k].2)),
        adjacency(n, ids, true, upto)[ids[k].1 as int].contains((ids[k].0, ids[k].2)),
    decreases upto,
{
    let a = adjacency(n, ids, true, (upto - 1) as nat);
    lemma_adjacency_arcs(n, ids, true, (upto - 1) as nat);
    let (u, v, w) = ids[upto - 1];
    assert(ids[upto - 1].0 < n && ids[upto - 1].1 < n);
    let a1 = a.update(u as int, a[u as int].push((v, w)));
    let a2 = a1.update(v as int, a1[v as int].push((u, w)));
    assert(adjacency(n, ids, true, upto) == a2);
    let (ku, kv, kw) = ids[k];
    assert(ids[k].0 < n && ids[k].1 < n);
    if k == upto - 1 {
        assert(a1[u as int][a[u as int].len() as int] == (v, w));
        assert(a1[u as int].contains((v, w)));
        lemma_contains_after_step(a1, v as int, u as int, (u, w), (v, w));
        assert(a2[v as int][a1[v as int].len() as int] == (u, w));
        assert(a2[v as int].contains((u, w)));
    } else {
        lemma_adjacency_has_edge(n, ids, k, (upto - 1) as nat);
        lemma_contains_after_step(a, u as int, ku as int, (v, w), (kv, kw));
        lemma_contains_after_step(a1, v as int, ku as int, (u, w), (kv, kw));
        lemma_contains_after_step(a, u as int, kv as int, (v, w), (ku, kw));
        lemma_contains_after_step(a1, v as int, kv as int, (u, w), (ku, kw));
    }
}

/// The id map and the label list are mutual inverses, and ids are exactly `0..n`.
pub proof fn lemma_node_map_inverse<E>(g: Graph<E>)
    requires
        g.wf(),
    ensures
        forall|i: int| 0 <= i < g.node_count() ==> g.node_map(#[trigger] g.labels()[i]) == Some(i as nat),
        forall|l: Seq<char>| #[trigger] g.node_map(l) is Some ==> g.node_map(l).unwrap() < g.node_count()
            && g.labels()[g.node_map(l).unwrap() as int] == l,
{
    assert forall|i: int| 0 <= i < g.node_count() implies g.node_map(#[trigger] g.labels()[i]) == Some(i as nat) by {
        lemma_index_of_distinct(g.labels(), i);
    }
    assert forall|l: Seq<char>| #[trigger] g.node_map(l) is Some implies g.node_map(l).unwrap() < g.node_count()
        && g.labels()[g.node_map(l).unwrap() as int] == l by {
        if g.labels().contains(l) {
            lemma_index_of_in_range(g.labels(), l);
        }
    }
}

/// Undirected construction lists every edge `(u, v, w)` at `u` as `(v, w)` and at `v` as `(u, w)`.
pub proof fn lemma_undirected_edges_listed<E: Copy>(g: Graph<E>, nodes: Seq<Seq<char>>, edges: Seq<(String, String, E)>)
    requires
        Graph::built(Ok::<Graph<E>, GraphError>(g), nodes, edges, true),
    ensures
        forall|k: int| 0 <= k < edges.len() ==> {
            let u = g.node_map((#[trigger] edges[k]).0@).unwrap();
            let v = g.node_map(edges[k].1@).unwrap();
            &&& g.adj()[u as int].contains((v as usize, edges[k].2))
            &&& g.adj()[v as int].contains((u as usize, edges[k].2))
        },
{
    let lv = g.labels();
    let ids = edge_ids(lv, edges);
    assert(g.node_count() <= usize::MAX && lv.len() == g.node_count());
    lemma_dedup(nodes);
    assert forall|k: int| 0 <= k < ids.len() implies (#[trigger] ids[k]).0 < g.node_count() && ids[k].1 < g.node_count() by {
        assert(lv.contains(edges[k].0@));
        assert(lv.contains(edges[k].1@));
        lemma_index_of_in_range(lv, edges[k].0@);
        lemma_index_of_in_range(lv, edges[k].1@);
    }
    assert forall|k: int| 0 <= k < edges.len() implies {
        let u = g.node_map((#[trigger] edges[k]).0@).unwrap();
        let v = g.node_map(edges[k].1@).unwrap();
        &&& g.adj()[u as int].contains((v as usize, edges[k].2))
        &&& g.adj()[v as int].contains((u as usize, edges[k].2))
    } by {
        assert(lv.contains(edges[k].0@));
        assert(lv.contains(edges[k].1@));
        lemma_index_of_in_range(lv, edges[k].0@);
        lemma_index_of_in_range(lv, edges[k].1@);
        lemma_adjacency_has_edge(g.node_count(), ids, k, edges.len());
        let iu = lv.index_of(edges[k].0@);
        let iv = lv.index_of(edges[k].1@);
        assert(ids[k] == (iu as usize, iv as usize, edges[k].2));
        assert(g.node_map(edges[k].0@) == Some(iu as nat));
        assert(g.node_map(edges[k].1@) == Some(iv as nat));
        assert(g.adj() == adjacency(g.node_count(), ids, true, edges.len()));
    }
}

/// A graph is classified as a tree exactly when it has `n - 1` edges and all of
/// it is reachable from one node; one more edge then clears the tree shape.
pub proof fn lemma_tree_classification<E>(adj: Seq<Seq<AdjEntry<E>>>, m: nat)
    ensures
        tree_shape(adj, m) <==> (adj.len() > 0 && m + 1 == adj.len() && forall|t: int|
            0 <= t < adj.len() ==> reachable(adj, 0, t)),
        tree_shape(adj, m) ==> forall|other: Seq<Seq<AdjEntry<E>>>| other.len() == adj.len() ==> !tree_shape(other, m + 1),
{
}

/// Every index record lies inside its own Euler interval, and the root's interval
/// contains every node's.
pub proof fn lemma_euler_root_contains_all<E>(g: Graph<E>)
    requires
        g.wf(),
        g.index() is Some,
    ensures
        forall|a: int| 0 <= a < g.node_count() ==> contains_interval(g.index().unwrap(), a, a),
        forall|x: int| 0 <= x < g.node_count() ==> contains_interval(g.index().unwrap(), g.root_id() as int, x),
{
    let infos = g.index().unwrap();
    assert forall|x: int| 0 <= x < g.node_count() implies contains_interval(infos, g.root_id() as int, x) by {
        lemma_root_contains(g.adj(), g.root_id() as int, infos, x, infos[x].level as nat);
    }
}

proof fn lemma_root_contains<E>(adj: Seq<Seq<AdjEntry<E>>>, root: int, infos: Seq<TreeNode>, x: int, d: nat)
    requires
        index_ok(adj, root, infos),
        0 <= x < adj.len(),
        infos[x].level == d,
    ensures
        contains_interval(infos, root, x),
    decreases d,
{
    assert(record_ok(adj, root, infos, x));
    assert(record_ok(adj, root, infos, root));
    if x != root {
        let p = infos[x].parent_id as int;
        assert(record_ok(adj, root, infos, p));
        lemma_root_contains(adj, root, infos, p, (d - 1) as nat);
    }
}


/// Undirected adjacency lists pair every arc with its reverse.
proof fn lemma_adjacency_symmetric<E>(n: nat, ids: Seq<(usize, usize, E)>, k: nat)
    requires
        ids_in_range(n, ids),
    ensures
        symmetric(adjacency(n, ids, true, k)),
    decreases k,
{
    if k > 0 && k <= ids.len() {
        lemma_adjacency_symmetric(n, ids, (k - 1) as nat);
        lemma_adjacency_arcs(n, ids, true, (k - 1) as nat);
        let a = adjacency(n, ids, true, (k - 1) as nat);
        let (u, v, w) = ids[k - 1];
        assert(ids[k - 1].0 < n && ids[k - 1].1 < n);
        let a1 = a.update(u as int, a[u as int].push((v, w)));
        let a2 = a1.update(v as int, a1[v as int].push((u, w)));
        assert(adjacency(n, ids, true, k) == a2);
        assert(a.len() == n);
        assert(a2[u as int][a[u as int].len() as int] == (v, w));
        assert(a2[v as int][a1[v as int].len() as int] == (u, w));
        assert(a2[u as int][a[u as int].len() as int].0 == v);
        assert(a2[v as int][a1[v as int].len() as int].0 == u);
        assert(arc_to(a2, u as int, v as int));
        assert(arc_to(a2, v as int, u as int));
        assert forall|x: int, j: int| 0 <= x < a2.len() && 0 <= j < a2[x].len() implies arc_to(
            a2,
            (#[trigger] a2[x][j]).0 as int,
            x,
        ) by {
            if j < a[x].len() {
                assert(a2[x][j] == a[x][j]);
                let y = a[x][j].0 as int;
                assert(arc_to(a, y, x));
                let jj = choose|jj: int| 0 <= jj < a[y].len() && #[trigger] a[y][jj].0 == x;
                assert(a2[y][jj] == a[y][jj]);
            } else if x == u && j == a[u as int].len() {
            } else {
                assert(a2[x][j] == (u, w));
            }
        }
    } else {
        let a = adjacency(n, ids, true, k);
        assert forall|x: int, j: int| 0 <= x < a.len() && 0 <= j < a[x].len() implies arc_to(
            a,
            (#[trigger] a[x][j]).0 as int,
            x,
        ) by {
            if k > 0 {
                assert(a == Seq::new(n, |i: int| Seq::<AdjEntry<E>>::empty()));
            }
        }
    }
}


proof fn lemma_chain_contains<E>(adj: Seq<Seq<AdjEntry<E>>>, root: int, infos: Seq<TreeNode>, b: int, d: nat)
    requires
        index_ok(adj, root, infos),
        0 <= b < adj.len(),
    ensures
        0 <= anc(parents_of(infos), b, d) < adj.len(),
        contains_interval(infos, anc(parents_of(infos), b, d), b),
    decreases d,
{
    assert(record_ok(adj, root, infos, b));
    if d > 0 {
        let p = infos[b].parent_id as int;
        assert(parents_of(infos)[b] == infos[b].parent_id);
        assert(record_ok(adj, root, infos, p));
        lemma_chain_contains(adj, root, infos, p, (d - 1) as nat);
    }
}

/// A node on the parent chain of another has an Euler interval containing the other's.
pub proof fn lemma_chain_ancestor_contains<E>(g: Graph<E>, a: int, b: int)
    requires
        g.wf(),
        g.index() is Some,
        0 <= b < g.node_count(),
        is_chain_ancestor(g.index().unwrap(), a, b),
    ensures
        0 <= a < g.node_count(),
        contains_interval(g.index().unwrap(), a, b),
{
    let infos = g.index().unwrap();
    let d = choose|d: nat| anc(parents_of(infos), b, d) == a;
    lemma_chain_contains(g.adj(), g.root_id() as int, infos, b, d);
}


proof fn lemma_anc_of_root(parents: Seq<usize>, root: int, d: nat)
    requires
        parents[root] == root,
    ensures
        anc(parents, root, d) == root,
    decreases d,
{
    if d > 0 {
        lemma_anc_of_root(parents, root, (d - 1) as nat);
    }
}

/// Going up at least as many steps as a node is deep ends at the root.
proof fn lemma_anc_beyond_depth<E>(adj: Seq<Seq<AdjEntry<E>>>, root: int, infos: Seq<TreeNode>, x: int, d: nat)
    requires
        index_ok(adj, root, infos),
        0 <= x < adj.len(),
        d >= infos[x].level,
    ensures
        anc(parents_of(infos), x, d) == root,
    decreases infos[x].level,
{
    let parents = parents_of(infos);
    assert(record_ok(adj, root, infos, x));
    assert(record_ok(adj, root, infos, root));
    assert(parents[root] == infos[root].parent_id);
    if x == root {
        lemma_anc_of_root(parents, root, d);
    } else {
        let p = infos[x].parent_id as int;
        assert(parents[x] == infos[x].parent_id);
        lemma_anc_beyond_depth(adj, root, infos, p, (d - 1) as nat);
    }
}

proof fn lemma_pow2_exceeds_bits(x: nat)
    ensures
        pow2_of(bits(x)) > x,
    decreases x,
{
    if x > 0 {
        lemma_pow2_exceeds_bits(x / 2);
        assert(pow2_of(bits(x)) == 2 * pow2_of(bits(x / 2)));
    }
}

proof fn lemma_pow2_mono(a: nat, b: nat)
    requires
        a <= b,
    ensures
        pow2_of(a) <= pow2_of(b),
    decreases b,
{
    if a < b {
        lemma_pow2_mono(a, (b - 1) as nat);
        assert(pow2_of(b) == 2 * pow2_of((b - 1) as nat));
    }
}


/// If `ca` is on the chain of `u` but does not contain `v`, every node containing
/// both `u` and `v` contains the parent of `ca`.
proof fn lemma_lowest<E>(adj: Seq<Seq<AdjEntry<E>>>, root: int, infos: Seq<TreeNode>, u: int, v: int, dist: nat)
    requires
        index_ok(adj, root, infos),
        0 <= u < adj.len(),
        0 <= v < adj.len(),
        !contains_interval(infos, anc(parents_of(infos), u, dist), v),
    ensures
        forall|c: int|
            0 <= c < adj.len() && contains_interval(infos, c, u) && contains_interval(infos, c, v) ==> contains_interval(
                infos,
                c,
                anc(parents_of(infos), u, dist + 1),
            ),
{
    let p = parents_of(infos);
    let ca = anc(p, u, dist);
    assert forall|c: int|
        0 <= c < adj.len() && contains_interval(infos, c, u) && contains_interval(infos, c, v) implies contains_interval(
            infos,
            c,
            anc(p, u, dist + 1),
        ) by {
        lemma_contains_chain(adj, root, infos, c, u);
        let d2 = choose|d: nat| anc(p, u, d) == c;
        if d2 <= dist {
            lemma_anc_add(p, u, d2, (dist - d2) as nat);
            lemma_chain_contains(adj, root, infos, c, (dist - d2) as nat);
            assert(contains_interval(infos, ca, c));
            assert(false);
        } else {
            lemma_anc_add(p, u, dist + 1, (d2 - dist - 1) as nat);
            lemma_chain_contains(adj, root, infos, u, dist + 1);
            lemma_chain_contains(adj, root, infos, anc(p, u, dist + 1), (d2 - dist - 1) as nat);
        }
    }
}


/// After indexing, `a`'s Euler interval contains `b`'s exactly when `a` is on the
/// parent chain of `b`.
pub proof fn lemma_euler_nesting<E>(g: Graph<E>)
    requires
        g.wf(),
        g.index() is Some,
    ensures
        forall|a: int, b: int|
            0 <= a < g.node_count() && 0 <= b < g.node_count() ==> (contains_interval(g.index().unwrap(), a, b)
                <==> is_chain_ancestor(g.index().unwrap(), a, b)),
{
    let infos = g.index().unwrap();
    assert forall|a: int, b: int| 0 <= a < g.node_count() && 0 <= b < g.node_count() implies (contains_interval(
        infos,
        a,
        b,
    ) <==> is_chain_ancestor(infos, a, b)) by {
        if is_chain_ancestor(infos, a, b) {
            lemma_chain_ancestor_contains(g, a, b);
        }
        if contains_interval(infos, a, b) {
            lemma_contains_chain(g.adj(), g.root_id() as int, infos, a, b);
        }
    }
}


/// Containment of intervals puts the outer node on the inner one's parent chain.
proof fn lemma_contains_chain<E>(adj: Seq<Seq<AdjEntry<E>>>, root: int, infos: Seq<TreeNode>, a: int, b: int)
    requires
        index_ok(adj, root, infos),
        0 <= a < adj.len(),
        0 <= b < adj.len(),
        contains_interval(infos, a, b),
    ensures
        is_chain_ancestor(infos, a, b),
{
    assert(record_ok(adj, root, infos, b));
    assert(is_chain_ancestor(infos, a, b));
}

/// Any two Euler intervals of the index are nested or disjoint.
pub proof fn lemma_intervals_laminar<E>(g: Graph<E>, a: int, b: int)
    requires
        g.wf(),
        g.index() is Some,
        0 <= a < g.node_count(),
        0 <= b < g.node_count(),
    ensures
        ({
            let t = g.index().unwrap();
            ||| contains_interval(t, a, b)
            ||| contains_interval(t, b, a)
            ||| t[a].exit_time.unwrap() < t[b].enter_time
            ||| t[b].exit_time.unwrap() < t[a].enter_time
        }),
{
    let t = g.index().unwrap();
    if t[a].enter_time <= t[b].enter_time && t[b].enter_time <= t[a].exit_time.unwrap() {
        assert(is_chain_ancestor(t, a, b));
        lemma_chain_ancestor_contains(g, a, b);
    } else if t[b].enter_time <= t[a].enter_time && t[a].enter_time <= t[b].exit_time.unwrap() {
        assert(is_chain_ancestor(t, b, a));
        lemma_chain_ancestor_contains(g, b, a);
    }
}


/// The label list, the adjacency lists and any index all have one entry per node.
pub proof fn lemma_lengths<E>(g: Graph<E>)
    requires
        g.wf(),
    ensures
        g.labels().len() == g.node_count(),
        g.adj().len() == g.node_count(),
        g.index() matches Some(t) ==> t.len() == g.node_count(),
{
}

} // verus!
