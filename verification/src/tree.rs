use std::collections::{HashMap, HashSet};
use vstd::prelude::*;
use vstd::std_specs::iter::IteratorSpec;

verus! {

broadcast use vstd::std_specs::hash::group_hash_axioms;

/// The children of each node, as sequences.
pub open spec fn children_of(nodes: Map<u64, Vec<u64>>) -> Map<u64, Seq<u64>> {
    nodes.map_values(|v: Vec<u64>| v@)
}

/// `c` is child number `i` of `p`.
pub open spec fn is_child(nodes: Map<u64, Seq<u64>>, p: u64, i: int, c: u64) -> bool {
    nodes.contains_key(p) && 0 <= i < nodes[p].len() && nodes[p][i] == c
}

/// The nodes and roots form a forest: each child is a known node that is no root and
/// has no other parent and no other position, every known node that is no root is
/// someone's child, and `rank` falls along every edge, so no node is its own
/// descendant.
pub open spec fn is_forest(roots: Set<u64>, nodes: Map<u64, Seq<u64>>, rank: Map<u64, int>) -> bool {
    &&& roots.subset_of(nodes.dom())
    &&& nodes.dom().subset_of(rank.dom())
    &&& forall|p: u64, i: int, c: u64|
        #[trigger] is_child(nodes, p, i, c) ==> nodes.contains_key(c) && !roots.contains(c)
            && rank[c] < rank[p]
    &&& forall|p1: u64, i1: int, p2: u64, i2: int, c: u64|
        #[trigger] is_child(nodes, p1, i1, c) && #[trigger] is_child(nodes, p2, i2, c) ==> p1
            == p2 && i1 == i2
    &&& forall|x: u64|
        #[trigger] nodes.contains_key(x) && !roots.contains(x) ==> exists|p: u64, i: int|
            is_child(nodes, p, i, x)
}

/// Collects parent-child pairs and builds the forest they describe.
pub struct TreeBuilder {
    roots: HashSet<u64>,
    nodes: HashMap<u64, Vec<u64>>,
    rank: Ghost<Map<u64, int>>,
    low: Ghost<int>,
    high: Ghost<int>,
}

impl TreeBuilder {
    /// The nodes without a parent.
    pub closed spec fn spec_roots(&self) -> Set<u64> {
        self.roots@
    }

    /// The children of each known node, in insertion order.
    pub closed spec fn spec_nodes(&self) -> Map<u64, Seq<u64>> {
        children_of(self.nodes@)
    }

    pub closed spec fn wf(&self) -> bool {
        &&& is_forest(self.roots@, children_of(self.nodes@), self.rank@)
        &&& forall|k: u64|
            #[trigger] self.rank@.contains_key(k) ==> self.low@ <= self.rank@[k] <= self.high@
    }

    /// A builder used through its methods holds a forest: roots are known nodes, each
    /// child is a known node that is no root and has one parent, every other known node
    /// is someone's child, and following children never comes back to a node.
    pub proof fn lemma_forest(&self)
        requires
            self.wf(),
        ensures
            exists|rank: Map<u64, int>| is_forest(self.spec_roots(), self.spec_nodes(), rank),
    {
        assert(is_forest(self.spec_roots(), self.spec_nodes(), self.rank@));
    }

    /// The empty builder.
    pub fn new() -> (r: Self)
        ensures
            r.wf(),
            r.spec_roots() == Set::<u64>::empty(),
            r.spec_nodes() == Map::<u64, Seq<u64>>::empty(),
    {
        let r = Self { roots: HashSet::new(), nodes: HashMap::new(), rank: Ghost(Map::empty()), low: Ghost(0), high: Ghost(0) };
        assert(r.spec_nodes() =~= Map::<u64, Seq<u64>>::empty());
        r
    }

    /// Adds `node` as a root without children; tells whether it was new.
    pub fn insert_single(&mut self, node: u64) -> (r: bool)
        requires
            old(self).wf(),
        ensures
            final(self).wf(),
            r == !old(self).spec_nodes().contains_key(node),
            r ==> final(self).spec_nodes() == old(self).spec_nodes().insert(node, Seq::empty())
                && final(self).spec_roots() == old(self).spec_roots().insert(node),
            !r ==> final(self).spec_nodes() == old(self).spec_nodes() && final(self).spec_roots()
                == old(self).spec_roots(),
    {
        if self.nodes.contains_key(&node) {
            return false;
        }
        let ghost old_nodes = self.spec_nodes();
        let ghost old_roots = self.roots@;
        let ghost old_rank = self.rank@;
        self.nodes.insert(node, Vec::new());
        self.roots.insert(node);
        self.rank = Ghost(self.rank@.insert(node, 0));
        self.low = Ghost(if self.low@ < 0 { self.low@ } else { 0 });
        self.high = Ghost(if self.high@ > 0 { self.high@ } else { 0 });
        proof {
            let n = self.spec_nodes();
            assert(n =~= old_nodes.insert(node, Seq::empty()));
            assert forall|p: u64, i: int, c: u64| #[trigger] is_child(n, p, i, c) implies is_child(
                old_nodes,
                p,
                i,
                c,
            ) by {}
            assert forall|x: u64| #[trigger] n.contains_key(x) && !self.roots@.contains(x) implies exists|
                p: u64,
                i: int,
            | is_child(n, p, i, x) by {
                assert(old_nodes.contains_key(x));
                let (p, i) = choose|p: u64, i: int| is_child(old_nodes, p, i, x);
                assert(is_child(n, p, i, x));
            }
        }
        true
    }

    /// Records `child` under `parent`: when `child` is a root and `parent` is unknown,
    /// `parent` becomes the root above it; when only `parent` is known, `child` joins
    /// its children; when neither is known, both are added as a new tree. Otherwise
    /// nothing changes. A pair of equal nodes inserts that node on its own. Tells
    /// whether anything changed.
    pub fn insert_pair(&mut self, parent: u64, child: u64) -> (r: bool)
        requires
            old(self).wf(),
        ensures
            final(self).wf(),
            ({
                let n = old(self).spec_nodes();
                let roots = old(self).spec_roots();
                if parent == child {
                    &&& r == !n.contains_key(parent)
                    &&& r ==> final(self).spec_nodes() == n.insert(parent, Seq::empty())
                        && final(self).spec_roots() == roots.insert(parent)
                    &&& !r ==> final(self).spec_nodes() == n && final(self).spec_roots() == roots
                } else if roots.contains(child) && !n.contains_key(parent) {
                    &&& r
                    &&& final(self).spec_nodes() == n.insert(parent, seq![child])
                    &&& final(self).spec_roots() == roots.remove(child).insert(parent)
                } else if !n.contains_key(child) && n.contains_key(parent) {
                    &&& r
                    &&& final(self).spec_nodes() == n.insert(parent, n[parent].push(child)).insert(
                        child,
                        Seq::empty(),
                    )
                    &&& final(self).spec_roots() == roots
                } else if !n.contains_key(child) && !n.contains_key(parent) {
                    &&& r
                    &&& final(self).spec_nodes() == n.insert(child, Seq::empty()).insert(
                        parent,
                        seq![child],
                    )
                    &&& final(self).spec_roots() == roots.insert(parent)
                } else {
                    &&& !r
                    &&& final(self).spec_nodes() == n
                    &&& final(self).spec_roots() == roots
                }
            }),
    {
        if parent == child {
            return self.insert_single(parent);
        }
        let is_child_root = self.roots.contains(&child);
        let does_contain_child = self.nodes.contains_key(&child);
        let does_contain_parent = self.nodes.contains_key(&parent);
        let ghost n = self.spec_nodes();
        let ghost roots = self.roots@;
        let ghost rank = self.rank@;
        if is_child_root && !does_contain_parent {
            self.roots.remove(&child);
            self.roots.insert(parent);
            let mut v: Vec<u64> = Vec::new();
            v.push(child);
            self.nodes.insert(parent, v);
            self.rank = Ghost(rank.insert(parent, rank[child] + 1));
            self.high = Ghost(if self.high@ > rank[child] + 1 { self.high@ } else { rank[child] + 1 });
            proof {
                let n2 = self.spec_nodes();
                assert(n2 =~= n.insert(parent, seq![child]));
                lemma_root_gets_parent(roots, n, rank, parent, child);
            }
            return true;
        }
        if !does_contain_child && does_contain_parent {
            let mut v = match self.nodes.remove(&parent) {
                Some(v) => v,
                None => Vec::new(),
            };
            v.push(child);
            self.nodes.insert(parent, v);
            self.nodes.insert(child, Vec::new());
            self.rank = Ghost(rank.insert(child, rank[parent] - 1));
            self.low = Ghost(if self.low@ < rank[parent] - 1 { self.low@ } else { rank[parent] - 1 });
            proof {
                let n2 = self.spec_nodes();
                assert(n2 =~= n.insert(parent, n[parent].push(child)).insert(child, Seq::empty()));
                lemma_leaf_joins(roots, n, rank, parent, child);
            }
            return true;
        }
        if !does_contain_child && !does_contain_parent {
            self.nodes.insert(child, Vec::new());
            let mut v: Vec<u64> = Vec::new();
            v.push(child);
            self.nodes.insert(parent, v);
            self.roots.insert(parent);
            self.rank = Ghost(rank.insert(child, 0).insert(parent, 1));
            self.low = Ghost(if self.low@ < 0 { self.low@ } else { 0 });
            self.high = Ghost(if self.high@ > 1 { self.high@ } else { 1 });
            proof {
                let n2 = self.spec_nodes();
                assert(n2 =~= n.insert(child, Seq::empty()).insert(parent, seq![child]));
                lemma_new_pair(roots, n, rank, parent, child);
            }
            return true;
        }
        false
    }

    /// The nodes without a parent.
    pub fn roots(&self) -> (r: &HashSet<u64>)
        ensures
            r@ == self.spec_roots(),
    {
        &self.roots
    }

    /// The children of each known node.
    pub fn nodes(&self) -> (r: &HashMap<u64, Vec<u64>>)
        ensures
            children_of(r@) == self.spec_nodes(),
    {
        &self.nodes
    }
}

/// A node of a built forest: a value and its subtrees, in order.
#[derive(Debug)]
pub struct TreeNode {
    pub value: u64,
    pub children: Vec<TreeNode>,
}

impl TreeNode {
    /// The values of the tree in pre-order: this node's, then each subtree's in turn,
    /// depth first.
    pub fn values_preorder(&self) -> (r: Vec<u64>)
        ensures
            r@ == preorder(*self),
        decreases self,
    {
        let mut out: Vec<u64> = Vec::new();
        out.push(self.value);
        let ghost s = subtree_values(*self);
        let mut i: usize = 0;
        assert(s.take(0) =~= Seq::<Seq<u64>>::empty());
        assert(out@ =~= seq![self.value] + concat_all(s.take(0)));
        while i < self.children.len()
            invariant
                i <= self.children@.len(),
                s == subtree_values(*self),
                out@ == seq![self.value] + concat_all(s.take(i as int)),
            decreases self.children@.len() - i,
        {
            let sub = self.children[i].values_preorder();
            let ghost before = out@;
            let mut j: usize = 0;
            while j < sub.len()
                invariant
                    j <= sub@.len(),
                    out@ == before + sub@.take(j as int),
                decreases sub@.len() - j,
            {
                out.push(sub[j]);
                j += 1;
                assert(out@ =~= before + sub@.take(j as int));
            }
            proof {
                assert(sub@.take(sub@.len() as int) =~= sub@);
                assert(s.take(i + 1).drop_last() =~= s.take(i as int));
                assert(s.take(i + 1).last() == s[i as int]);
            }
            i += 1;
            assert(out@ =~= seq![self.value] + concat_all(s.take(i as int)));
        }
        assert(s.take(s.len() as int) =~= s);
        out
    }
}

/// `t` is the tree that `nodes` describes below `t.value`: each node's subtrees are
/// those of its recorded children, in their order.
pub open spec fn tree_ok(t: TreeNode, nodes: Map<u64, Seq<u64>>) -> bool
    decreases t,
{
    &&& nodes.contains_key(t.value)
    &&& t.children@.len() == nodes[t.value].len()
    &&& forall|i: int|
        #![trigger t.children@[i]]
        0 <= i < t.children@.len() ==> t.children@[i].value == nodes[t.value][i] && tree_ok(
            t.children@[i],
            nodes,
        )
}

impl TreeBuilder {
    /// The forest: one tree per root, in no particular order, each node with the
    /// subtrees of its recorded children.
    pub fn build(self) -> (r: Vec<TreeNode>)
        requires
            self.wf(),
        ensures
            r@.len() == self.spec_roots().len(),
            r@.map_values(|t: TreeNode| t.value).no_duplicates(),
            r@.map_values(|t: TreeNode| t.value).to_set() == self.spec_roots(),
            forall|k: int| 0 <= k < r@.len() ==> tree_ok(#[trigger] r@[k], self.spec_nodes()),
            forest_values(r@).no_duplicates(),
            forest_values(r@).to_set() == self.spec_nodes().dom(),
    {
        let mut roots: Vec<TreeNode> = Vec::new();
        let ghost n = self.spec_nodes();
        let ghost keys = vstd::std_specs::hash::spec_hash_keys_iter(&self.roots).remaining();
        for root in it: self.roots.iter()
            invariant
                it.seq() == keys,
                self.wf(),
                n == self.spec_nodes(),
                roots@.len() == it.index(),
                forall|k: int| 0 <= k < roots@.len() ==> (#[trigger] roots@[k]).value == *it.seq()[k],
                forall|k: int| 0 <= k < roots@.len() ==> tree_ok(#[trigger] roots@[k], n),
        {
            let t = Self::to_tree_node_recursive(&self, *root);
            roots.push(t);
        }
        proof {
            let vals = roots@.map_values(|t: TreeNode| t.value);
            assert(vals =~= keys.unref());
            lemma_forest_values(roots@, self.roots@, n, self.rank@, self.high@);
        }
        roots
    }

    fn to_tree_node_recursive(&self, parent: u64) -> (r: TreeNode)
        requires
            self.wf(),
            self.spec_nodes().contains_key(parent),
        ensures
            r.value == parent,
            tree_ok(r, self.spec_nodes()),
        decreases self.rank@[parent] - self.low@,
    {
        let ids = match self.nodes.get(&parent) {
            Some(v) => v,
            None => {
                return TreeNode { value: parent, children: Vec::new() };
            },
        };
        let mut children: Vec<TreeNode> = Vec::new();
        let mut i: usize = 0;
        while i < ids.len()
            invariant
                self.wf(),
                self.spec_nodes().contains_key(parent),
                ids@ == self.spec_nodes()[parent],
                i <= ids@.len(),
                children@.len() == i,
                forall|k: int|
                    #![trigger children@[k]]
                    0 <= k < i ==> children@[k].value == ids@[k] && tree_ok(
                        children@[k],
                        self.spec_nodes(),
                    ),
            decreases ids@.len() - i,
        {
            let c = ids[i];
            proof {
                assert(is_child(self.spec_nodes(), parent, i as int, c));
            }
            let t = Self::to_tree_node_recursive(self, c);
            children.push(t);
            i += 1;
        }
        TreeNode { value: parent, children }
    }
}

/// The pieces of `s`, one after another.
pub open spec fn concat_all(s: Seq<Seq<u64>>) -> Seq<u64>
    decreases s.len(),
{
    if s.len() == 0 {
        Seq::empty()
    } else {
        concat_all(s.drop_last()) + s.last()
    }
}

/// The values of `t` in pre-order: the node's value, then the values of each subtree
/// in order.
pub open spec fn preorder(t: TreeNode) -> Seq<u64>
    decreases t, 1int,
{
    seq![t.value] + concat_all(subtree_values(t))
}

/// The pre-order values of each subtree of `t`.
pub open spec fn subtree_values(t: TreeNode) -> Seq<Seq<u64>>
    decreases t, 0int,
{
    Seq::new(
        t.children@.len(),
        |i: int|
            if 0 <= i < t.children@.len() {
                preorder(t.children@[i])
            } else {
                Seq::empty()
            },
    )
}

/// The values of every node of the trees of `f`, tree after tree, each in pre-order.
pub open spec fn forest_values(f: Seq<TreeNode>) -> Seq<u64> {
    concat_all(Seq::new(f.len(), |i: int| preorder(f[i])))
}

proof fn lemma_preorder_unfold(t: TreeNode)
    ensures
        preorder(t) == seq![t.value] + concat_all(subtree_values(t)),
{
}

proof fn lemma_concat_contains(s: Seq<Seq<u64>>, x: u64)
    ensures
        concat_all(s).contains(x) <==> exists|i: int| 0 <= i < s.len() && #[trigger] s[i].contains(x),
    decreases s.len(),
{
    broadcast use vstd::seq_lib::lemma_seq_concat_contains_all_elements;

    if s.len() > 0 {
        lemma_concat_contains(s.drop_last(), x);
        if concat_all(s).contains(x) {
            if s.last().contains(x) {
                assert(s[s.len() - 1].contains(x));
            } else {
                let i = choose|i: int| 0 <= i < s.drop_last().len() && #[trigger] s.drop_last()[i].contains(x);
                assert(s[i].contains(x));
            }
        }
        if exists|i: int| 0 <= i < s.len() && #[trigger] s[i].contains(x) {
            let i = choose|i: int| 0 <= i < s.len() && #[trigger] s[i].contains(x);
            if i < s.len() - 1 {
                assert(s.drop_last()[i].contains(x));
            }
        }
    }
}

proof fn lemma_concat_no_dup(s: Seq<Seq<u64>>)
    requires
        forall|i: int| 0 <= i < s.len() ==> (#[trigger] s[i]).no_duplicates(),
        forall|i: int, j: int, x: u64|
            0 <= i < s.len() && 0 <= j < s.len() && i != j && #[trigger] s[i].contains(x) ==> !(
            #[trigger] s[j].contains(x)),
    ensures
        concat_all(s).no_duplicates(),
    decreases s.len(),
{
    if s.len() > 0 {
        let a = s.drop_last();
        assert forall|i: int| 0 <= i < a.len() implies (#[trigger] a[i]).no_duplicates() by {
            assert(a[i] == s[i]);
        }
        assert forall|i: int, j: int, x: u64|
            0 <= i < a.len() && 0 <= j < a.len() && i != j && #[trigger] a[i].contains(x) implies !(
            #[trigger] a[j].contains(x)) by {
            assert(a[i] == s[i] && a[j] == s[j]);
        }
        lemma_concat_no_dup(a);
        let b = s.last();
        assert(b == s[s.len() - 1]);
        assert forall|i: int, j: int| 0 <= i < concat_all(a).len() && 0 <= j < b.len() implies concat_all(
            a,
        )[i] != b[j] by {
            let x = concat_all(a)[i];
            assert(concat_all(a).contains(x));
            lemma_concat_contains(a, x);
            let k = choose|k: int| 0 <= k < a.len() && #[trigger] a[k].contains(x);
            assert(s[k].contains(x));
            if b[j] == x {
                assert(s[s.len() - 1].contains(x));
            }
        }
        vstd::seq_lib::lemma_no_dup_in_concat(concat_all(a), b);
    }
}

/// What a tree that `nodes` describes holds: known nodes, none ranked above the root
/// and every one below it ranked lower, each with its parent in the tree too.
proof fn lemma_tree_facts(t: TreeNode, roots: Set<u64>, nodes: Map<u64, Seq<u64>>, rank: Map<u64, int>)
    requires
        is_forest(roots, nodes, rank),
        tree_ok(t, nodes),
    ensures
        forall|x: u64|
            #[trigger] preorder(t).contains(x) ==> nodes.contains_key(x) && rank[x] <= rank[t.value]
                && (x != t.value ==> rank[x] < rank[t.value] && exists|p: u64, j: int|
                is_child(nodes, p, j, x) && preorder(t).contains(p)),
        preorder(t).contains(t.value),
    decreases t,
{
    lemma_preorder_unfold(t);
    assert(preorder(t)[0] == t.value);
    assert forall|x: u64| #[trigger] preorder(t).contains(x) implies nodes.contains_key(x) && rank[x]
        <= rank[t.value] && (x != t.value ==> rank[x] < rank[t.value] && exists|p: u64, j: int|
        is_child(nodes, p, j, x) && preorder(t).contains(p)) by {
        if x != t.value {
            let k = choose|k: int| 0 <= k < preorder(t).len() && preorder(t)[k] == x;
            assert(k > 0);
            assert(concat_all(subtree_values(t))[k - 1] == x);
            assert(concat_all(subtree_values(t)).contains(x));
            lemma_concat_contains(subtree_values(t), x);
            let i = choose|i: int|
                0 <= i < subtree_values(t).len() && #[trigger] subtree_values(t)[i].contains(x);
            let c = t.children@[i];
            assert(tree_ok(c, nodes));
            lemma_tree_facts(c, roots, nodes, rank);
            assert(preorder(c).contains(x));
            assert(is_child(nodes, t.value, i, c.value));
            if x == c.value {
                assert(is_child(nodes, t.value, i, x) && preorder(t).contains(t.value));
            } else {
                let (p, j) = choose|p: u64, j: int| is_child(nodes, p, j, x) && preorder(c).contains(p);
                assert(subtree_values(t)[i].contains(p));
                lemma_concat_contains(subtree_values(t), p);
                let m = choose|m: int| 0 <= m < concat_all(subtree_values(t)).len() && concat_all(subtree_values(t))[m] == p;
                assert(preorder(t)[m + 1] == p);
                assert(is_child(nodes, p, j, x) && preorder(t).contains(p));
            }
        }
    }
}

proof fn lemma_subtrees_disjoint(
    t: TreeNode,
    roots: Set<u64>,
    nodes: Map<u64, Seq<u64>>,
    rank: Map<u64, int>,
    i: int,
    j: int,
    x: u64,
)
    requires
        is_forest(roots, nodes, rank),
        tree_ok(t, nodes),
        0 <= i < t.children@.len(),
        0 <= j < t.children@.len(),
        i != j,
    ensures
        !(preorder(t.children@[i]).contains(x) && preorder(t.children@[j]).contains(x)),
    decreases rank[t.value] - rank[x],
{
    if preorder(t.children@[i]).contains(x) && preorder(t.children@[j]).contains(x) {
        let ci = t.children@[i];
        let cj = t.children@[j];
        assert(tree_ok(ci, nodes) && tree_ok(cj, nodes));
        lemma_tree_facts(ci, roots, nodes, rank);
        lemma_tree_facts(cj, roots, nodes, rank);
        assert(is_child(nodes, t.value, i, ci.value));
        assert(is_child(nodes, t.value, j, cj.value));
        if x == ci.value {
            if x == cj.value {
                assert(is_child(nodes, t.value, j, x));
            } else {
                let (p, k) = choose|p: u64, k: int| is_child(nodes, p, k, x) && preorder(cj).contains(p);
                assert(is_child(nodes, t.value, i, x));
                assert(p == t.value);
            }
        } else if x == cj.value {
            let (p, k) = choose|p: u64, k: int| is_child(nodes, p, k, x) && preorder(ci).contains(p);
            assert(is_child(nodes, t.value, j, x));
            assert(p == t.value);
        } else {
            let (p1, k1) = choose|p: u64, k: int| is_child(nodes, p, k, x) && preorder(ci).contains(p);
            let (p2, k2) = choose|p: u64, k: int| is_child(nodes, p, k, x) && preorder(cj).contains(p);
            assert(is_child(nodes, p1, k1, x) && is_child(nodes, p2, k2, x));
            assert(p1 == p2);
            assert(rank[x] < rank[p1]);
            lemma_subtrees_disjoint(t, roots, nodes, rank, i, j, p1);
        }
    }
}

/// A tree that `nodes` describes holds each of its nodes once.
proof fn lemma_tree_no_dup(t: TreeNode, roots: Set<u64>, nodes: Map<u64, Seq<u64>>, rank: Map<u64, int>)
    requires
        is_forest(roots, nodes, rank),
        tree_ok(t, nodes),
    ensures
        preorder(t).no_duplicates(),
    decreases t,
{
    let s = subtree_values(t);
    assert forall|i: int| 0 <= i < s.len() implies (#[trigger] s[i]).no_duplicates() by {
        assert(tree_ok(t.children@[i], nodes));
        lemma_tree_no_dup(t.children@[i], roots, nodes, rank);
    }
    assert forall|i: int, j: int, x: u64|
        0 <= i < s.len() && 0 <= j < s.len() && i != j && #[trigger] s[i].contains(x) implies !(
        #[trigger] s[j].contains(x)) by {
        if s[j].contains(x) {
            lemma_subtrees_disjoint(t, roots, nodes, rank, i, j, x);
        }
    }
    lemma_concat_no_dup(s);
    lemma_preorder_unfold(t);
    assert forall|a: int, b: int| 0 <= a < 1 && 0 <= b < concat_all(s).len() implies seq![t.value][a]
        != concat_all(s)[b] by {
        let x = concat_all(s)[b];
        assert(concat_all(s).contains(x));
        lemma_concat_contains(s, x);
        let i = choose|i: int| 0 <= i < s.len() && #[trigger] s[i].contains(x);
        let c = t.children@[i];
        assert(tree_ok(c, nodes));
        lemma_tree_facts(c, roots, nodes, rank);
        assert(is_child(nodes, t.value, i, c.value));
    }
    vstd::seq_lib::lemma_no_dup_in_concat(seq![t.value], concat_all(s));
}

/// A child of a node in a tree that `nodes` describes is in the tree too.
proof fn lemma_child_in_tree(t: TreeNode, nodes: Map<u64, Seq<u64>>, y: u64, j: int, k: u64)
    requires
        tree_ok(t, nodes),
        preorder(t).contains(y),
        is_child(nodes, y, j, k),
    ensures
        preorder(t).contains(k),
    decreases t,
{
    let s = subtree_values(t);
    lemma_preorder_unfold(t);
    if y == t.value {
        let c = t.children@[j];
        assert(c.value == k);
        lemma_preorder_unfold(c);
        assert(preorder(c)[0] == k);
        assert(s[j].contains(k));
    } else {
        let m = choose|m: int| 0 <= m < preorder(t).len() && preorder(t)[m] == y;
        assert(m > 0);
        assert(concat_all(s)[m - 1] == y);
        lemma_concat_contains(s, y);
        let i = choose|i: int| 0 <= i < s.len() && #[trigger] s[i].contains(y);
        assert(tree_ok(t.children@[i], nodes));
        lemma_child_in_tree(t.children@[i], nodes, y, j, k);
        assert(s[i].contains(k));
    }
    lemma_concat_contains(s, k);
    let m = choose|m: int| 0 <= m < concat_all(s).len() && concat_all(s)[m] == k;
    assert(preorder(t)[m + 1] == k);
}

proof fn lemma_trees_disjoint(
    f: Seq<TreeNode>,
    roots: Set<u64>,
    nodes: Map<u64, Seq<u64>>,
    rank: Map<u64, int>,
    i: int,
    j: int,
    x: u64,
)
    requires
        is_forest(roots, nodes, rank),
        forall|k: int| 0 <= k < f.len() ==> tree_ok(#[trigger] f[k], nodes),
        forall|k: int| 0 <= k < f.len() ==> roots.contains(#[trigger] f[k].value),
        0 <= i < f.len(),
        0 <= j < f.len(),
        f[i].value != f[j].value,
    ensures
        !(preorder(f[i]).contains(x) && preorder(f[j]).contains(x)),
    decreases rank[f[i].value] - rank[x],
{
    if preorder(f[i]).contains(x) && preorder(f[j]).contains(x) {
        assert(tree_ok(f[i], nodes) && tree_ok(f[j], nodes));
        lemma_tree_facts(f[i], roots, nodes, rank);
        lemma_tree_facts(f[j], roots, nodes, rank);
        assert(roots.contains(f[i].value) && roots.contains(f[j].value));
        if x == f[i].value {
            let (p, k) = choose|p: u64, k: int| is_child(nodes, p, k, x) && preorder(f[j]).contains(p);
            assert(is_child(nodes, p, k, x));
        } else if x == f[j].value {
            let (p, k) = choose|p: u64, k: int| is_child(nodes, p, k, x) && preorder(f[i]).contains(p);
            assert(is_child(nodes, p, k, x));
        } else {
            let (p1, k1) = choose|p: u64, k: int| is_child(nodes, p, k, x) && preorder(f[i]).contains(p);
            let (p2, k2) = choose|p: u64, k: int| is_child(nodes, p, k, x) && preorder(f[j]).contains(p);
            assert(is_child(nodes, p1, k1, x) && is_child(nodes, p2, k2, x));
            assert(p1 == p2);
            lemma_trees_disjoint(f, roots, nodes, rank, i, j, p1);
        }
    }
}

proof fn lemma_forest_covers(
    f: Seq<TreeNode>,
    roots: Set<u64>,
    nodes: Map<u64, Seq<u64>>,
    rank: Map<u64, int>,
    high: int,
    x: u64,
)
    requires
        is_forest(roots, nodes, rank),
        forall|k: u64| #[trigger] rank.contains_key(k) ==> rank[k] <= high,
        forall|k: int| 0 <= k < f.len() ==> tree_ok(#[trigger] f[k], nodes),
        forall|r: u64| #[trigger] roots.contains(r) ==> exists|i: int| 0 <= i < f.len() && f[i].value == r,
        nodes.contains_key(x),
    ensures
        exists|i: int| 0 <= i < f.len() && #[trigger] preorder(f[i]).contains(x),
    decreases high - rank[x],
{
    if roots.contains(x) {
        let i = choose|i: int| 0 <= i < f.len() && f[i].value == x;
        assert(tree_ok(f[i], nodes));
        lemma_tree_facts(f[i], roots, nodes, rank);
        assert(preorder(f[i]).contains(x));
    } else {
        let (p, j) = choose|p: u64, j: int| is_child(nodes, p, j, x);
        assert(rank[x] < rank[p]);
        lemma_forest_covers(f, roots, nodes, rank, high, p);
        let i = choose|i: int| 0 <= i < f.len() && #[trigger] preorder(f[i]).contains(p);
        lemma_child_in_tree(f[i], nodes, p, j, x);
    }
}

/// A forest built from a builder holds each known node exactly once.
proof fn lemma_forest_values(
    f: Seq<TreeNode>,
    roots: Set<u64>,
    nodes: Map<u64, Seq<u64>>,
    rank: Map<u64, int>,
    high: int,
)
    requires
        is_forest(roots, nodes, rank),
        forall|k: u64| #[trigger] rank.contains_key(k) ==> rank[k] <= high,
        forall|k: int| 0 <= k < f.len() ==> tree_ok(#[trigger] f[k], nodes),
        f.map_values(|t: TreeNode| t.value).no_duplicates(),
        f.map_values(|t: TreeNode| t.value).to_set() == roots,
    ensures
        forest_values(f).no_duplicates(),
        forest_values(f).to_set() == nodes.dom(),
{
    let vals = f.map_values(|t: TreeNode| t.value);
    let s = Seq::new(f.len(), |i: int| preorder(f[i]));
    assert forall|k: int| 0 <= k < f.len() implies roots.contains(#[trigger] f[k].value) by {
        assert(vals[k] == f[k].value);
        assert(vals.to_set().contains(vals[k]));
    }
    assert forall|r: u64| #[trigger] roots.contains(r) implies exists|i: int|
        0 <= i < f.len() && f[i].value == r by {
        assert(vals.to_set().contains(r));
        let i = choose|i: int| 0 <= i < vals.len() && vals[i] == r;
        assert(f[i].value == r);
    }
    assert forall|i: int| 0 <= i < s.len() implies (#[trigger] s[i]).no_duplicates() by {
        assert(tree_ok(f[i], nodes));
        lemma_tree_no_dup(f[i], roots, nodes, rank);
    }
    assert forall|i: int, j: int, x: u64|
        0 <= i < s.len() && 0 <= j < s.len() && i != j && #[trigger] s[i].contains(x) implies !(
        #[trigger] s[j].contains(x)) by {
        if s[j].contains(x) {
            assert(vals[i] == f[i].value && vals[j] == f[j].value);
            lemma_trees_disjoint(f, roots, nodes, rank, i, j, x);
        }
    }
    lemma_concat_no_dup(s);
    assert forall|x: u64| forest_values(f).to_set().contains(x) <==> nodes.dom().contains(x) by {
        lemma_concat_contains(s, x);
        if forest_values(f).contains(x) {
            let i = choose|i: int| 0 <= i < s.len() && #[trigger] s[i].contains(x);
            assert(tree_ok(f[i], nodes));
            lemma_tree_facts(f[i], roots, nodes, rank);
        }
        if nodes.dom().contains(x) {
            lemma_forest_covers(f, roots, nodes, rank, high, x);
            let i = choose|i: int| 0 <= i < f.len() && #[trigger] preorder(f[i]).contains(x);
            assert(s[i].contains(x));
        }
    }
    assert(forest_values(f).to_set() =~= nodes.dom());
}

proof fn lemma_root_gets_parent(
    roots: Set<u64>,
    n: Map<u64, Seq<u64>>,
    rank: Map<u64, int>,
    parent: u64,
    child: u64,
)
    requires
        is_forest(roots, n, rank),
        roots.contains(child),
        !n.contains_key(parent),
        parent != child,
    ensures
        is_forest(
            roots.remove(child).insert(parent),
            n.insert(parent, seq![child]),
            rank.insert(parent, rank[child] + 1),
        ),
{
    let r2 = roots.remove(child).insert(parent);
    let n2 = n.insert(parent, seq![child]);
    let k2 = rank.insert(parent, rank[child] + 1);
    assert forall|p: u64, i: int, c: u64| #[trigger] is_child(n2, p, i, c) implies (p == parent
        && i == 0 && c == child) || (p != parent && is_child(n, p, i, c)) by {}
    assert forall|p: u64, i: int, c: u64| #[trigger] is_child(n2, p, i, c) implies n2.contains_key(
        c,
    ) && !r2.contains(c) && k2[c] < k2[p] by {
        if p != parent {
            assert(is_child(n, p, i, c));
            assert(c != child);
            assert(c != parent);
        }
    }
    assert forall|p1: u64, i1: int, p2: u64, i2: int, c: u64|
        #[trigger] is_child(n2, p1, i1, c) && #[trigger] is_child(n2, p2, i2, c) implies p1 == p2
        && i1 == i2 by {
        if p1 != parent && p2 != parent {
            assert(is_child(n, p1, i1, c) && is_child(n, p2, i2, c));
        } else if p1 == parent && p2 != parent {
            assert(is_child(n, p2, i2, child));
        } else if p2 == parent && p1 != parent {
            assert(is_child(n, p1, i1, child));
        }
    }
    assert forall|x: u64| #[trigger] n2.contains_key(x) && !r2.contains(x) implies exists|
        p: u64,
        i: int,
    | is_child(n2, p, i, x) by {
        if x == child {
            assert(is_child(n2, parent, 0, child));
        } else {
            assert(n.contains_key(x) && !roots.contains(x));
            let (p, i) = choose|p: u64, i: int| is_child(n, p, i, x);
            assert(p != parent);
            assert(is_child(n2, p, i, x));
        }
    }
}

proof fn lemma_leaf_joins(
    roots: Set<u64>,
    n: Map<u64, Seq<u64>>,
    rank: Map<u64, int>,
    parent: u64,
    child: u64,
)
    requires
        is_forest(roots, n, rank),
        !n.contains_key(child),
        n.contains_key(parent),
    ensures
        is_forest(
            roots,
            n.insert(parent, n[parent].push(child)).insert(child, Seq::empty()),
            rank.insert(child, rank[parent] - 1),
        ),
{
    let n2 = n.insert(parent, n[parent].push(child)).insert(child, Seq::empty());
    let k2 = rank.insert(child, rank[parent] - 1);
    let last = n[parent].len() as int;
    assert(parent != child);
    assert forall|p: u64, i: int, c: u64| #[trigger] is_child(n2, p, i, c) implies (p == parent
        && i == last && c == child) || (is_child(n, p, i, c) && c != child) by {
        if p == parent && i < last {
            assert(n2[p][i] == n[p][i]);
        }
    }
    assert forall|p: u64, i: int, c: u64| #[trigger] is_child(n2, p, i, c) implies n2.contains_key(
        c,
    ) && !roots.contains(c) && k2[c] < k2[p] by {
        if !(p == parent && i == last) {
            assert(is_child(n, p, i, c));
        } else {
            assert(!roots.contains(child));
        }
    }
    assert forall|p1: u64, i1: int, p2: u64, i2: int, c: u64|
        #[trigger] is_child(n2, p1, i1, c) && #[trigger] is_child(n2, p2, i2, c) implies p1 == p2
        && i1 == i2 by {
        if !(p1 == parent && i1 == last) && !(p2 == parent && i2 == last) {
            assert(is_child(n, p1, i1, c) && is_child(n, p2, i2, c));
        }
    }
    assert forall|x: u64| #[trigger] n2.contains_key(x) && !roots.contains(x) implies exists|
        p: u64,
        i: int,
    | is_child(n2, p, i, x) by {
        if x == child {
            assert(is_child(n2, parent, last, child));
        } else {
            assert(n.contains_key(x));
            let (p, i) = choose|p: u64, i: int| is_child(n, p, i, x);
            if p == parent {
                assert(n2[p][i] == n[p][i]);
            }
            assert(is_child(n2, p, i, x));
        }
    }
}

proof fn lemma_new_pair(
    roots: Set<u64>,
    n: Map<u64, Seq<u64>>,
    rank: Map<u64, int>,
    parent: u64,
    child: u64,
)
    requires
        is_forest(roots, n, rank),
        !n.contains_key(child),
        !n.contains_key(parent),
        parent != child,
    ensures
        is_forest(
            roots.insert(parent),
            n.insert(child, Seq::empty()).insert(parent, seq![child]),
            rank.insert(child, 0).insert(parent, 1),
        ),
{
    let r2 = roots.insert(parent);
    let n2 = n.insert(child, Seq::empty()).insert(parent, seq![child]);
    let k2 = rank.insert(child, 0).insert(parent, 1);
    assert forall|p: u64, i: int, c: u64| #[trigger] is_child(n2, p, i, c) implies (p == parent
        && i == 0 && c == child) || (is_child(n, p, i, c) && c != child && c != parent) by {
        if p != parent {
            assert(p != child);
        }
    }
    assert forall|p: u64, i: int, c: u64| #[trigger] is_child(n2, p, i, c) implies n2.contains_key(
        c,
    ) && !r2.contains(c) && k2[c] < k2[p] by {
        if p != parent {
            assert(is_child(n, p, i, c));
        } else {
            assert(!roots.contains(child));
        }
    }
    assert forall|p1: u64, i1: int, p2: u64, i2: int, c: u64|
        #[trigger] is_child(n2, p1, i1, c) && #[trigger] is_child(n2, p2, i2, c) implies p1 == p2
        && i1 == i2 by {
        if p1 != parent && p2 != parent {
            assert(is_child(n, p1, i1, c) && is_child(n, p2, i2, c));
        }
    }
    assert forall|x: u64| #[trigger] n2.contains_key(x) && !r2.contains(x) implies exists|
        p: u64,
        i: int,
    | is_child(n2, p, i, x) by {
        if x == child {
            assert(is_child(n2, parent, 0, child));
        } else {
            assert(n.contains_key(x) && !roots.contains(x));
            let (p, i) = choose|p: u64, i: int| is_child(n, p, i, x);
            assert(p != parent && p != child);
            assert(is_child(n2, p, i, x));
        }
    }
}

} // verus!
