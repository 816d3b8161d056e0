//! The namespace tree: a flat key space folded into a hierarchy at every `_`.
use vstd::prelude::*;
use crate::text::{
    compare_text, first_index_of, is_first_at, lemma_first_index_range, lemma_lt_total,
    lemma_lt_transitive, lower_of, seq_lt, split_first, split_once_char, strip_prefix_text, texts,
    to_lowercase,
};

verus! {

/// The model of a node: the scalar recorded at its path and its children,
/// each under its path segment.
pub struct Tree {
    pub scalar: Seq<char>,
    pub children: Seq<(Seq<char>, Tree)>,
}

pub open spec fn empty_tree() -> Tree {
    Tree { scalar: Seq::empty(), children: Seq::empty() }
}

pub open spec fn leaf(v: Seq<char>) -> Tree {
    Tree { scalar: v, children: Seq::empty() }
}

pub open spec fn is_key_at(cs: Seq<(Seq<char>, Tree)>, k: Seq<char>, i: int) -> bool {
    &&& 0 <= i < cs.len()
    &&& cs[i].0 == k
    &&& forall|j: int| 0 <= j < i ==> cs[j].0 != k
}

/// The position of the child under segment `k`, or -1.
pub open spec fn key_index(cs: Seq<(Seq<char>, Tree)>, k: Seq<char>) -> int {
    if exists|i: int| is_key_at(cs, k, i) {
        choose|i: int| is_key_at(cs, k, i)
    } else {
        -1
    }
}

/// The child under segment `k`.
pub open spec fn lookup(cs: Seq<(Seq<char>, Tree)>, k: Seq<char>) -> Option<Tree> {
    let i = key_index(cs, k);
    if 0 <= i < cs.len() {
        Some(cs[i].1)
    } else {
        None
    }
}

pub open spec fn is_pos_at(cs: Seq<(Seq<char>, Tree)>, k: Seq<char>, i: int) -> bool {
    &&& 0 <= i <= cs.len()
    &&& forall|j: int| 0 <= j < i ==> seq_lt(#[trigger] cs[j].0, k)
    &&& i < cs.len() ==> !seq_lt(cs[i].0, k)
}

/// Where a new segment `k` goes so that the segments stay in ascending order.
pub open spec fn insert_pos(cs: Seq<(Seq<char>, Tree)>, k: Seq<char>) -> int {
    choose|i: int| is_pos_at(cs, k, i)
}

/// The children with `c` placed under segment `k`, replacing any child there.
pub open spec fn set_child(cs: Seq<(Seq<char>, Tree)>, k: Seq<char>, c: Tree) -> Seq<(Seq<char>, Tree)> {
    let i = key_index(cs, k);
    if 0 <= i < cs.len() {
        cs.update(i, (k, c))
    } else {
        cs.insert(insert_pos(cs, k), (k, c))
    }
}

/// The tree after recording value `v` at path `k`: the key is split at its
/// first `_`, the head names a child (created if absent) and the rest is
/// recorded into it; a key without `_` sets the scalar of its child and
/// keeps that child's own children.
pub open spec fn tree_push(t: Tree, k: Seq<char>, v: Seq<char>) -> Tree
    decreases k.len()
    via tree_push_decreases
{
    match split_first(k, '_') {
        None => {
            let c = match lookup(t.children, k) {
                Some(c) => Tree { scalar: v, children: c.children },
                None => leaf(v),
            };
            Tree { scalar: t.scalar, children: set_child(t.children, k, c) }
        },
        Some((h, rest)) => {
            let c = match lookup(t.children, h) {
                Some(c) => c,
                None => empty_tree(),
            };
            Tree { scalar: t.scalar, children: set_child(t.children, h, tree_push(c, rest, v)) }
        },
    }
}

/// The node at path `p`, found by the same first-`_` descent as insertion.
pub open spec fn tree_get(t: Tree, p: Seq<char>) -> Option<Tree>
    decreases p.len()
    via tree_get_decreases
{
    match split_first(p, '_') {
        None => lookup(t.children, p),
        Some((h, rest)) => match lookup(t.children, h) {
            None => None,
            Some(c) => tree_get(c, rest),
        },
    }
}

#[via_fn]
proof fn tree_push_decreases(t: Tree, k: Seq<char>, v: Seq<char>) {
    lemma_split_shorter(k);
}

#[via_fn]
proof fn tree_get_decreases(t: Tree, p: Seq<char>) {
    lemma_split_shorter(p);
}

/// Children in strictly ascending order of segment, recursively.
pub open spec fn tree_wf(t: Tree) -> bool
    decreases t,
{
    &&& forall|i: int, j: int|
        0 <= i < j < t.children.len() ==> seq_lt(#[trigger] t.children[i].0, #[trigger] t.children[j].0)
    &&& forall|i: int| 0 <= i < t.children.len() ==> tree_wf(#[trigger] t.children[i].1)
}

pub proof fn lemma_split_shorter(k: Seq<char>)
    ensures
        split_first(k, '_') matches Some((h, rest)) ==> rest.len() < k.len() && k == h + seq!['_'] + rest
            && first_index_of(h, '_') == -1,
{
    lemma_first_index_range(k, '_');
    let i = first_index_of(k, '_');
    if i >= 0 {
        assert(k =~= k.take(i) + seq!['_'] + k.skip(i + 1));
        if exists|j: int| is_first_at(k.take(i), '_', j) {
            let j = choose|j: int| is_first_at(k.take(i), '_', j);
            assert(k[j] == '_');
        }
    }
}

proof fn lemma_key_at(cs: Seq<(Seq<char>, Tree)>, k: Seq<char>, i: int)
    requires
        is_key_at(cs, k, i),
    ensures
        key_index(cs, k) == i,
{
    let m = choose|m: int| is_key_at(cs, k, m);
    assert(is_key_at(cs, k, m));
    if m < i {
        assert(cs[m].0 != k);
    }
    if i < m {
        assert(cs[i].0 != k);
    }
}

proof fn lemma_key_none(cs: Seq<(Seq<char>, Tree)>, k: Seq<char>)
    requires
        forall|j: int| 0 <= j < cs.len() ==> cs[j].0 != k,
    ensures
        key_index(cs, k) == -1,
{
}

proof fn lemma_key_index_range(cs: Seq<(Seq<char>, Tree)>, k: Seq<char>)
    ensures
        key_index(cs, k) == -1 || is_key_at(cs, k, key_index(cs, k)),
        key_index(cs, k) == -1 ==> forall|j: int| 0 <= j < cs.len() ==> cs[j].0 != k,
{
    if key_index(cs, k) == -1 {
        assert forall|j: int| 0 <= j < cs.len() implies cs[j].0 != k by {
            if cs[j].0 == k {
                lemma_first_key(cs, k, j);
            }
        }
    }
}

proof fn lemma_first_key(cs: Seq<(Seq<char>, Tree)>, k: Seq<char>, j: int)
    requires
        0 <= j < cs.len(),
        cs[j].0 == k,
    ensures
        exists|i: int| is_key_at(cs, k, i),
    decreases j,
{
    if forall|m: int| 0 <= m < j ==> cs[m].0 != k {
        assert(is_key_at(cs, k, j));
    } else {
        let m = choose|m: int| 0 <= m < j && cs[m].0 == k;
        lemma_first_key(cs, k, m);
    }
}

proof fn lemma_pos_exists(cs: Seq<(Seq<char>, Tree)>, k: Seq<char>, i: int)
    requires
        is_pos_at(cs, k, i),
    ensures
        insert_pos(cs, k) == i,
{
    let m = choose|m: int| is_pos_at(cs, k, m);
    assert(is_pos_at(cs, k, m));
    if m < i {
        assert(seq_lt(cs[m].0, k));
    }
    if i < m {
        assert(seq_lt(cs[i].0, k));
    }
}

proof fn lemma_pos_always(cs: Seq<(Seq<char>, Tree)>, k: Seq<char>, i: int)
    requires
        0 <= i <= cs.len(),
        forall|j: int| 0 <= j < i ==> seq_lt(#[trigger] cs[j].0, k),
    ensures
        exists|m: int| is_pos_at(cs, k, m),
    decreases cs.len() - i,
{
    if i == cs.len() || !seq_lt(cs[i].0, k) {
        assert(is_pos_at(cs, k, i));
    } else {
        lemma_pos_always(cs, k, i + 1);
    }
}

/// `set_child` keeps the children in strictly ascending order of segment.
pub proof fn lemma_set_child_sorted(cs: Seq<(Seq<char>, Tree)>, k: Seq<char>, c: Tree)
    requires
        forall|i: int, j: int| 0 <= i < j < cs.len() ==> seq_lt(#[trigger] cs[i].0, #[trigger] cs[j].0),
    ensures
        forall|i: int, j: int|
            0 <= i < j < set_child(cs, k, c).len() ==> seq_lt(
                #[trigger] set_child(cs, k, c)[i].0,
                #[trigger] set_child(cs, k, c)[j].0,
            ),
        forall|i: int|
            0 <= i < set_child(cs, k, c).len() ==> (#[trigger] set_child(cs, k, c)[i] == (k, c)
                || exists|j: int| 0 <= j < cs.len() && set_child(cs, k, c)[i] == cs[j]),
        set_child(cs, k, c).len() >= cs.len(),
{
    lemma_key_index_range(cs, k);
    let i = key_index(cs, k);
    let ns = set_child(cs, k, c);
    if 0 <= i < cs.len() {
        assert forall|a: int| 0 <= a < ns.len() implies (#[trigger] ns[a] == (k, c) || exists|j: int|
            0 <= j < cs.len() && ns[a] == cs[j]) by {
            if a != i {
                assert(ns[a] == cs[a]);
            }
        }
    } else {
        lemma_pos_always(cs, k, 0);
        let w = choose|w: int| is_pos_at(cs, k, w);
        lemma_pos_exists(cs, k, w);
        let p = w;
        assert forall|a: int, b: int| 0 <= a < b < ns.len() implies seq_lt(
            #[trigger] ns[a].0,
            #[trigger] ns[b].0,
        ) by {
            if b < p {
                assert(ns[a] == cs[a] && ns[b] == cs[b]);
            } else if b == p {
                assert(ns[a] == cs[a]);
            } else if a < p {
                assert(ns[a] == cs[a] && ns[b] == cs[b - 1]);
                if p < cs.len() {
                    if p < b - 1 {
                        assert(seq_lt(cs[p].0, cs[b - 1].0));
                    }
                    assert(cs[p].0 != k);
                    lemma_lt_total(cs[p].0, k);
                    assert(seq_lt(k, cs[p].0));
                    lemma_lt_transitive(cs[a].0, k, cs[p].0);
                    if p < b - 1 {
                        lemma_lt_transitive(cs[a].0, cs[p].0, cs[b - 1].0);
                    }
                }
            } else if a == p {
                assert(ns[b] == cs[b - 1]);
                assert(cs[p].0 != k);
                lemma_lt_total(cs[p].0, k);
                if p < b - 1 {
                    assert(seq_lt(cs[p].0, cs[b - 1].0));
                    lemma_lt_transitive(k, cs[p].0, cs[b - 1].0);
                }
            } else {
                assert(ns[a] == cs[a - 1] && ns[b] == cs[b - 1]);
            }
        }
        assert forall|a: int| 0 <= a < ns.len() implies (#[trigger] ns[a] == (k, c) || exists|j: int|
            0 <= j < cs.len() && ns[a] == cs[j]) by {
            if a < p {
                assert(ns[a] == cs[a]);
            } else if a > p {
                assert(ns[a] == cs[a - 1]);
            }
        }
    }
}

/// Looking a segment up after `set_child` finds the new child under its own
/// segment and the old children elsewhere.
pub proof fn lemma_lookup_set_child(cs: Seq<(Seq<char>, Tree)>, k: Seq<char>, c: Tree, k2: Seq<char>)
    ensures
        lookup(set_child(cs, k, c), k2) == if k2 == k {
            Some(c)
        } else {
            lookup(cs, k2)
        },
{
    lemma_key_index_range(cs, k);
    lemma_key_index_range(cs, k2);
    let i = key_index(cs, k);
    let ns = set_child(cs, k, c);
    if 0 <= i < cs.len() {
        if k2 == k {
            lemma_key_at(ns, k, i);
        } else {
            let i2 = key_index(cs, k2);
            if i2 >= 0 {
                lemma_key_at(ns, k2, i2);
            } else {
                assert forall|j: int| 0 <= j < ns.len() implies ns[j].0 != k2 by {
                    if j != i {
                        assert(ns[j] == cs[j]);
                    }
                }
                lemma_key_none(ns, k2);
            }
        }
    } else {
        let p = insert_pos(cs, k);
        lemma_pos_always(cs, k, 0);
        let w = choose|w: int| is_pos_at(cs, k, w);
        lemma_pos_exists(cs, k, w);
        assert(ns == cs.insert(p, (k, c)));
        if k2 == k {
            assert forall|j: int| 0 <= j < p implies ns[j].0 != k by {
                assert(ns[j] == cs[j]);
            }
            lemma_key_at(ns, k, p);
        } else {
            let i2 = key_index(cs, k2);
            if i2 >= 0 {
                if i2 < p {
                    assert forall|j: int| 0 <= j < i2 implies ns[j].0 != k2 by {
                        assert(ns[j] == cs[j]);
                    }
                    lemma_key_at(ns, k2, i2);
                } else {
                    assert forall|j: int| 0 <= j < i2 + 1 implies ns[j].0 != k2 by {
                        if j < p {
                            assert(ns[j] == cs[j]);
                        } else if j > p {
                            assert(ns[j] == cs[j - 1]);
                        }
                    }
                    lemma_key_at(ns, k2, i2 + 1);
                }
            } else {
                assert forall|j: int| 0 <= j < ns.len() implies ns[j].0 != k2 by {
                    if j < p {
                        assert(ns[j] == cs[j]);
                    } else if j > p {
                        assert(ns[j] == cs[j - 1]);
                    }
                }
                lemma_key_none(ns, k2);
            }
        }
    }
}


/// Recording a value keeps the tree well formed.
pub proof fn lemma_push_wf(t: Tree, k: Seq<char>, v: Seq<char>)
    requires
        tree_wf(t),
    ensures
        tree_wf(tree_push(t, k, v)),
        tree_push(t, k, v).scalar == t.scalar,
    decreases k.len(),
{
    lemma_split_shorter(k);
    lemma_key_index_range(t.children, k);
    let r = tree_push(t, k, v);
    match split_first(k, '_') {
        None => {
            let c = match lookup(t.children, k) {
                Some(c) => Tree { scalar: v, children: c.children },
                None => leaf(v),
            };
            if let Some(old) = lookup(t.children, k) {
                assert(tree_wf(old));
            }
            assert(tree_wf(c));
            lemma_set_child_sorted(t.children, k, c);
            assert forall|i: int| 0 <= i < r.children.len() implies tree_wf(#[trigger] r.children[i].1) by {
                if r.children[i] != (k, c) {
                    let j = choose|j: int| 0 <= j < t.children.len() && r.children[i] == t.children[j];
                }
            }
        },
        Some((h, rest)) => {
            lemma_key_index_range(t.children, h);
            let c = match lookup(t.children, h) {
                Some(c) => c,
                None => empty_tree(),
            };
            assert(tree_wf(c));
            lemma_push_wf(c, rest, v);
            let nc = tree_push(c, rest, v);
            lemma_set_child_sorted(t.children, h, nc);
            assert forall|i: int| 0 <= i < r.children.len() implies tree_wf(#[trigger] r.children[i].1) by {
                if r.children[i] != (h, nc) {
                    let j = choose|j: int| 0 <= j < t.children.len() && r.children[i] == t.children[j];
                }
            }
        },
    }
}

/// After recording `v` at `k`, the node at `k` holds `v`.
pub proof fn lemma_push_get_same(t: Tree, k: Seq<char>, v: Seq<char>)
    ensures
        tree_get(tree_push(t, k, v), k) matches Some(n) && n.scalar == v,
    decreases k.len(),
{
    lemma_split_shorter(k);
    match split_first(k, '_') {
        None => {
            let c = match lookup(t.children, k) {
                Some(c) => Tree { scalar: v, children: c.children },
                None => leaf(v),
            };
            lemma_lookup_set_child(t.children, k, c, k);
        },
        Some((h, rest)) => {
            let c = match lookup(t.children, h) {
                Some(c) => c,
                None => empty_tree(),
            };
            lemma_lookup_set_child(t.children, h, tree_push(c, rest, v), h);
            lemma_push_get_same(c, rest, v);
        },
    }
}

/// Recording at `k` keeps every other node that was there, with its scalar.
pub proof fn lemma_push_get_other(t: Tree, k: Seq<char>, v: Seq<char>, p: Seq<char>)
    requires
        p != k,
        tree_get(t, p) is Some,
    ensures
        tree_get(tree_push(t, k, v), p) matches Some(n) && n.scalar == tree_get(t, p)->0.scalar,
    decreases k.len(),
{
    lemma_split_shorter(k);
    lemma_split_shorter(p);
    let r = tree_push(t, k, v);
    match split_first(k, '_') {
        None => {
            let c = match lookup(t.children, k) {
                Some(c) => Tree { scalar: v, children: c.children },
                None => leaf(v),
            };
            match split_first(p, '_') {
                None => {
                    lemma_lookup_set_child(t.children, k, c, p);
                },
                Some((hp, rp)) => {
                    lemma_lookup_set_child(t.children, k, c, hp);
                    if hp == k {
                        let old = lookup(t.children, k)->0;
                        assert(c.children == old.children);
                        lemma_get_children_only(c, old, rp);
                    }
                },
            }
        },
        Some((h, rest)) => {
            let c = match lookup(t.children, h) {
                Some(c) => c,
                None => empty_tree(),
            };
            let nc = tree_push(c, rest, v);
            lemma_push_wf_scalar(c, rest, v);
            match split_first(p, '_') {
                None => {
                    lemma_lookup_set_child(t.children, h, nc, p);
                },
                Some((hp, rp)) => {
                    lemma_lookup_set_child(t.children, h, nc, hp);
                    if hp == h {
                        assert(rp != rest);
                        lemma_push_get_other(c, rest, v, rp);
                    }
                },
            }
        },
    }
}

proof fn lemma_push_wf_scalar(t: Tree, k: Seq<char>, v: Seq<char>)
    ensures
        tree_push(t, k, v).scalar == t.scalar,
{
    lemma_split_shorter(k);
}

proof fn lemma_get_children_only(a: Tree, b: Tree, p: Seq<char>)
    requires
        a.children == b.children,
    ensures
        tree_get(a, p) == tree_get(b, p),
{
}


/// A node of the namespace tree: the value recorded at its path (empty when
/// none was) and its children, each under one path segment, in ascending
/// order of segment.
#[derive(Debug)]
pub struct Node {
    scalar: String,
    children: Vec<(String, Node)>,
}

impl View for Node {
    type V = Tree;

    open spec fn view(&self) -> Tree {
        self.model()
    }
}

impl Node {
    /// The model of this node.
    pub closed spec fn model(&self) -> Tree
        decreases self,
    {
        Tree {
            scalar: self.scalar@,
            children: Seq::new(
                self.children@.len(),
                |i: int|
                    if 0 <= i < self.children@.len() {
                        (self.children@[i].0@, self.children@[i].1.model())
                    } else {
                        (Seq::empty(), empty_tree())
                    },
            ),
        }
    }

    pub open spec fn wf(&self) -> bool {
        tree_wf(self@)
    }

    proof fn lemma_model_child(&self, i: int)
        requires
            0 <= i < self.children@.len(),
        ensures
            self@.children.len() == self.children@.len(),
            self@.children[i] == (self.children@[i].0@, self.children@[i].1@),
            self@.scalar == self.scalar@,
    {
    }

    proof fn lemma_model_shape(&self)
        ensures
            self@.children.len() == self.children@.len(),
            self@.scalar == self.scalar@,
    {
    }

    proof fn lemma_model_all(&self)
        ensures
            self@.children.len() == self.children@.len(),
            self@.scalar == self.scalar@,
            forall|j: int|
                0 <= j < self.children@.len() ==> #[trigger] self@.children[j] == (
                    self.children@[j].0@,
                    self.children@[j].1@,
                ),
    {
    }

    /// A node holding `v` and no children.
    pub fn new(v: &str) -> (r: Node)
        ensures
            r@ == leaf(v@),
            r.wf(),
    {
        let r = Node { scalar: String::from_str(v), children: Vec::new() };
        assert(r@.children =~= Seq::<(Seq<char>, Tree)>::empty());
        r
    }

    /// The value recorded at this node.
    pub fn value(&self) -> (r: &str)
        ensures
            r@ == self@.scalar,
    {
        self.scalar.as_str()
    }

    /// The value recorded at this node, taken by value.
    pub fn into_value(self) -> (r: String)
        ensures
            r@ == self@.scalar,
    {
        self.scalar
    }

    /// Whether this node holds neither a value nor children.
    pub fn is_empty(&self) -> (r: bool)
        ensures
            r == (self@.scalar.len() == 0 && self@.children.len() == 0),
    {
        proof {
            self.lemma_model_shape();
        }
        self.scalar.as_str().unicode_len() == 0 && self.children.len() == 0
    }

    /// Whether this node has children.
    pub fn has_children(&self) -> (r: bool)
        ensures
            r == (self@.children.len() > 0),
    {
        proof {
            self.lemma_model_shape();
        }
        self.children.len() > 0
    }

    fn child_index(&self, k: &str) -> (r: Option<usize>)
        ensures
            match r {
                Some(i) => key_index(self@.children, k@) == i && i < self.children@.len(),
                None => key_index(self@.children, k@) == -1,
            },
    {
        proof {
            self.lemma_model_shape();
        }
        let n = self.children.len();
        let mut i: usize = 0;
        while i < n
            invariant
                n == self.children@.len(),
                n == self@.children.len(),
                0 <= i <= n,
                forall|j: int| 0 <= j < i ==> self@.children[j].0 != k@,
            decreases n - i,
        {
            proof {
                self.lemma_model_child(i as int);
            }
            if compare_text(self.children[i].0.as_str(), k) == 0 {
                proof {
                    lemma_key_at(self@.children, k@, i as int);
                }
                return Some(i);
            }
            i += 1;
        }
        proof {
            lemma_key_none(self@.children, k@);
        }
        None
    }

    fn insert_position(&self, k: &str) -> (r: usize)
        ensures
            insert_pos(self@.children, k@) == r,
            r <= self.children@.len(),
    {
        proof {
            self.lemma_model_shape();
        }
        let n = self.children.len();
        let mut i: usize = 0;
        while i < n && compare_text(self.children[i].0.as_str(), k) < 0
            invariant
                n == self.children@.len(),
                n == self@.children.len(),
                0 <= i <= n,
                forall|j: int| 0 <= j < i ==> seq_lt(#[trigger] self@.children[j].0, k@),
            decreases n - i,
        {
            proof {
                self.lemma_model_child(i as int);
            }
            i += 1;
        }
        proof {
            if i < n {
                self.lemma_model_child(i as int);
            }
            lemma_pos_exists(self@.children, k@, i as int);
        }
        i
    }

    /// Records value `v` at path `k`, creating the nodes on the way.
    pub fn push(&mut self, k: &str, v: &str)
        requires
            old(self).wf(),
        ensures
            final(self)@ == tree_push(old(self)@, k@, v@),
            final(self).wf(),
        decreases k@.len(),
    {
        proof {
            lemma_split_shorter(k@);
            lemma_push_wf(self@, k@, v@);
            self.lemma_model_all();
        }
        let ghost before = self@;
        match split_once_char(k, '_') {
            None => match self.child_index(k) {
                Some(i) => {
                    let (key, mut child) = self.children.remove(i);
                    let ghost old_child = child@;
                    proof {
                        child.lemma_model_shape();
                    }
                    child.scalar = String::from_str(v);
                    proof {
                        child.lemma_model_shape();
                        assert(child@.children =~= old_child.children);
                    }
                    self.children.insert(i, (key, child));
                    proof {
                        self.lemma_model_all();
                        assert(self@.children =~= tree_push(before, k@, v@).children);
                    }
                },
                None => {
                    let pos = self.insert_position(k);
                    self.children.insert(pos, (String::from_str(k), Node::new(v)));
                    proof {
                        self.lemma_model_all();
                        assert(self@.children =~= tree_push(before, k@, v@).children);
                    }
                },
            },
            Some((h, rest)) => match self.child_index(h.as_str()) {
                Some(i) => {
                    let (key, mut child) = self.children.remove(i);
                    assert(child@ == before.children[i as int].1);
                    child.push(rest.as_str(), v);
                    self.children.insert(i, (key, child));
                    proof {
                        self.lemma_model_all();
                        assert(self@.children =~= tree_push(before, k@, v@).children);
                    }
                },
                None => {
                    proof {
                        reveal_strlit("");
                        assert(""@ =~= Seq::<char>::empty());
                    }
                    let mut child = Node::new("");
                    assert(child@ == empty_tree());
                    child.push(rest.as_str(), v);
                    let pos = self.insert_position(h.as_str());
                    self.children.insert(pos, (h, child));
                    proof {
                        self.lemma_model_all();
                        assert(self@.children =~= tree_push(before, k@, v@).children);
                    }
                },
            },
        }
    }

    /// The node at path `k`: `get("a_b")` is the child `b` of the child `a`.
    pub fn get(&self, k: &str) -> (r: Option<&Node>)
        ensures
            match r {
                Some(n) => tree_get(self@, k@) == Some(n@),
                None => tree_get(self@, k@) is None,
            },
        decreases k@.len(),
    {
        proof {
            lemma_split_shorter(k@);
        }
        match split_once_char(k, '_') {
            None => match self.child_index(k) {
                None => None,
                Some(i) => {
                    proof {
                        self.lemma_model_child(i as int);
                    }
                    Some(&self.children[i].1)
                },
            },
            Some((h, rest)) => match self.child_index(h.as_str()) {
                None => None,
                Some(i) => {
                    proof {
                        self.lemma_model_child(i as int);
                    }
                    self.children[i].1.get(rest.as_str())
                },
            },
        }
    }
}


/// The texts of a sequence of key/value pairs.
pub open spec fn pairs_view(ps: Seq<(String, String)>) -> Seq<(Seq<char>, Seq<char>)> {
    ps.map_values(|p: (String, String)| (p.0@, p.1@))
}

/// The tree built from `ps` in order: keys are folded to lower case, pairs
/// with an empty value are dropped, and each other pair is recorded.
pub open spec fn build(ps: Seq<(Seq<char>, Seq<char>)>) -> Tree
    decreases ps.len(),
{
    if ps.len() == 0 {
        empty_tree()
    } else {
        let t = build(ps.drop_last());
        let (k, v) = ps.last();
        if v.len() == 0 {
            t
        } else {
            tree_push(t, lower_of(k), v)
        }
    }
}

/// The key under which a pair is recorded when only keys beginning with
/// `prefix` and `_` take part: the folded key without the folded prefix and
/// its separator.
pub open spec fn key_under_prefix(k: Seq<char>, prefix: Seq<char>) -> Option<Seq<char>> {
    let lk = lower_of(k);
    let lp = lower_of(prefix) + seq!['_'];
    if lp.is_prefix_of(lk) {
        Some(lk.skip(lp.len() as int))
    } else {
        None
    }
}

/// As `build`, keeping only the pairs whose key begins with `prefix` and
/// `_`, with that part taken off.
pub open spec fn build_with_prefix(ps: Seq<(Seq<char>, Seq<char>)>, prefix: Seq<char>) -> Tree
    decreases ps.len(),
{
    if ps.len() == 0 {
        empty_tree()
    } else {
        let t = build_with_prefix(ps.drop_last(), prefix);
        let (k, v) = ps.last();
        match key_under_prefix(k, prefix) {
            Some(key) => if v.len() == 0 {
                t
            } else {
                tree_push(t, key, v)
            },
            None => t,
        }
    }
}

impl Node {
    /// This node with `child` under segment `key`, replacing any child there.
    pub fn with_child(self, key: &str, child: Node) -> (r: Node)
        requires
            self.wf(),
            child.wf(),
        ensures
            r@ == (Tree { scalar: self@.scalar, children: set_child(self@.children, key@, child@) }),
            r.wf(),
    {
        let mut r = self;
        let ghost before = r@;
        proof {
            r.lemma_model_all();
            lemma_key_index_range(before.children, key@);
            lemma_set_child_sorted(before.children, key@, child@);
        }
        match r.child_index(key) {
            Some(i) => {
                r.children.set(i, (String::from_str(key), child));
            },
            None => {
                let pos = r.insert_position(key);
                r.children.insert(pos, (String::from_str(key), child));
            },
        }
        proof {
            r.lemma_model_all();
            assert(r@.children =~= set_child(before.children, key@, child@));
            let ns = set_child(before.children, key@, child@);
            assert forall|i: int| 0 <= i < ns.len() implies tree_wf(#[trigger] ns[i].1) by {
                if ns[i] != (key@, child@) {
                    let j = choose|j: int| 0 <= j < before.children.len() && ns[i] == before.children[j];
                }
            }
        }
        r
    }

    /// A copy of this node and everything below it.
    pub fn duplicate(&self) -> (r: Node)
        ensures
            r@ == self@,
        decreases self,
    {
        proof {
            self.lemma_model_all();
        }
        let mut children: Vec<(String, Node)> = Vec::new();
        let n = self.children.len();
        let mut i: usize = 0;
        while i < n
            invariant
                n == self.children@.len(),
                n == self@.children.len(),
                0 <= i <= n,
                children@.len() == i,
                forall|j: int| 0 <= j < i ==> (#[trigger] children@[j]).0@ == self@.children[j].0 && children@[j].1@ == self@.children[j].1,
            decreases n - i,
        {
            proof {
                self.lemma_model_child(i as int);
            }
            children.push((self.children[i].0.clone(), self.children[i].1.duplicate()));
            i += 1;
        }
        let r = Node { scalar: self.scalar.clone(), children };
        proof {
            r.lemma_model_all();
            assert(r@.children =~= self@.children);
        }
        r
    }

    fn same_tree(&self, other: &Node) -> (r: bool)
        ensures
            r == (self@ == other@),
        decreases self,
    {
        proof {
            self.lemma_model_all();
            other.lemma_model_all();
        }
        if compare_text(self.scalar.as_str(), other.scalar.as_str()) != 0 {
            return false;
        }
        let n = self.children.len();
        if n != other.children.len() {
            return false;
        }
        let mut i: usize = 0;
        while i < n
            invariant
                n == self.children@.len(),
                n == other.children@.len(),
                n == self@.children.len(),
                n == other@.children.len(),
                0 <= i <= n,
                forall|j: int| 0 <= j < i ==> self@.children[j] == other@.children[j],
            decreases n - i,
        {
            proof {
                self.lemma_model_child(i as int);
                other.lemma_model_child(i as int);
            }
            if compare_text(self.children[i].0.as_str(), other.children[i].0.as_str()) != 0 {
                return false;
            }
            if !self.children[i].1.same_tree(&other.children[i].1) {
                return false;
            }
            i += 1;
        }
        proof {
            assert(self@.children =~= other@.children);
        }
        true
    }

    /// The tree of the pairs `pairs`: each key is folded to lower case, each
    /// pair with an empty value is dropped, and each other pair is recorded
    /// in order, a later value at the same key replacing an earlier one.
    pub fn from_iter(pairs: &Vec<(String, String)>) -> (r: Node)
        ensures
            r@ == build(pairs_view(pairs@)),
            r.wf(),
    {
        proof {
            reveal_strlit("");
            assert(""@ =~= Seq::<char>::empty());
        }
        let mut root = Node::new("");
        let n = pairs.len();
        let mut i: usize = 0;
        proof {
            assert(pairs_view(pairs@).take(0) =~= Seq::<(Seq<char>, Seq<char>)>::empty());
        }
        while i < n
            invariant
                n == pairs@.len(),
                0 <= i <= n,
                root@ == build(pairs_view(pairs@).take(i as int)),
                root.wf(),
            decreases n - i,
        {
            let ghost ps = pairs_view(pairs@).take(i + 1);
            proof {
                assert(ps.drop_last() =~= pairs_view(pairs@).take(i as int));
                assert(ps.last() == (pairs@[i as int].0@, pairs@[i as int].1@));
            }
            let value = pairs[i].1.as_str();
            if value.unicode_len() > 0 {
                let key = to_lowercase(pairs[i].0.as_str());
                root.push(key.as_str(), value);
            }
            i += 1;
        }
        proof {
            assert(pairs_view(pairs@).take(n as int) =~= pairs_view(pairs@));
        }
        root
    }

    /// As `from_iter`, keeping only the pairs whose key begins with `prefix`
    /// and `_` (both folded to lower case), with that part taken off.
    pub fn from_iter_with_prefix(pairs: &Vec<(String, String)>, prefix: &str) -> (r: Node)
        ensures
            r@ == build_with_prefix(pairs_view(pairs@), prefix@),
            r.wf(),
    {
        proof {
            reveal_strlit("");
            reveal_strlit("_");
            assert(""@ =~= Seq::<char>::empty());
            assert("_"@ =~= seq!['_']);
        }
        let lead = to_lowercase(prefix).concat("_");
        let mut root = Node::new("");
        let n = pairs.len();
        let mut i: usize = 0;
        proof {
            assert(pairs_view(pairs@).take(0) =~= Seq::<(Seq<char>, Seq<char>)>::empty());
        }
        while i < n
            invariant
                n == pairs@.len(),
                0 <= i <= n,
                lead@ == lower_of(prefix@) + seq!['_'],
                root@ == build_with_prefix(pairs_view(pairs@).take(i as int), prefix@),
                root.wf(),
            decreases n - i,
        {
            let ghost ps = pairs_view(pairs@).take(i + 1);
            proof {
                assert(ps.drop_last() =~= pairs_view(pairs@).take(i as int));
                assert(ps.last() == (pairs@[i as int].0@, pairs@[i as int].1@));
            }
            let value = pairs[i].1.as_str();
            if value.unicode_len() > 0 {
                let key = to_lowercase(pairs[i].0.as_str());
                match strip_prefix_text(key.as_str(), lead.as_str()) {
                    Some(rest) => {
                        root.push(rest.as_str(), value);
                    },
                    None => {},
                }
            }
            i += 1;
        }
        proof {
            assert(pairs_view(pairs@).take(n as int) =~= pairs_view(pairs@));
        }
        root
    }
}

/// `prefix` and `k` joined by `_`, or `k` alone where `prefix` is empty.
pub open spec fn join_path(prefix: Seq<char>, k: Seq<char>) -> Seq<char> {
    if prefix.len() == 0 {
        k
    } else {
        prefix + seq!['_'] + k
    }
}

/// Whether `p` is among the full paths below `t` (each written after
/// `prefix`) whose node holds a value or has children.
pub open spec fn in_flatten(t: Tree, prefix: Seq<char>, p: Seq<char>) -> bool
    decreases t,
{
    exists|i: int|
        0 <= i < t.children.len() && ({
            let pk = join_path(prefix, (#[trigger] t.children[i]).0);
            let c = t.children[i].1;
            (p == pk && (c.scalar.len() > 0 || c.children.len() > 0)) || in_flatten(c, pk, p)
        })
}

/// The full paths below `t` whose node holds a value or has children.
pub open spec fn flatten_set(t: Tree, prefix: Seq<char>) -> Set<Seq<char>> {
    Set::new(|p: Seq<char>| in_flatten(t, prefix, p))
}

/// Strictly ascending in code-point order.
pub open spec fn ascending(ss: Seq<Seq<char>>) -> bool {
    forall|i: int, j: int| 0 <= i < j < ss.len() ==> seq_lt(#[trigger] ss[i], #[trigger] ss[j])
}

proof fn lemma_ascending_insert(ss: Seq<Seq<char>>, pos: int, x: Seq<char>)
    requires
        ascending(ss),
        0 <= pos <= ss.len(),
        forall|j: int| 0 <= j < pos ==> seq_lt(#[trigger] ss[j], x),
        pos < ss.len() ==> seq_lt(x, ss[pos]),
    ensures
        ascending(ss.insert(pos, x)),
{
    let ns = ss.insert(pos, x);
    assert forall|a: int, b: int| 0 <= a < b < ns.len() implies seq_lt(#[trigger] ns[a], #[trigger] ns[b]) by {
        if b < pos {
            assert(ns[a] == ss[a] && ns[b] == ss[b]);
        } else if b == pos {
            assert(ns[a] == ss[a]);
        } else if a < pos {
            assert(ns[a] == ss[a] && ns[b] == ss[b - 1]);
            lemma_lt_transitive(ss[a], x, ss[pos]);
            if pos < b - 1 {
                lemma_lt_transitive(ss[a], ss[pos], ss[b - 1]);
            }
        } else if a == pos {
            assert(ns[b] == ss[b - 1]);
            if pos < b - 1 {
                lemma_lt_transitive(x, ss[pos], ss[b - 1]);
            }
        } else {
            assert(ns[a] == ss[a - 1] && ns[b] == ss[b - 1]);
        }
    }
}

/// Adds `s` to the ascending set of texts `acc`.
fn insert_text(acc: &mut Vec<String>, s: String)
    requires
        ascending(texts(old(acc)@)),
    ensures
        ascending(texts(final(acc)@)),
        texts(final(acc)@).to_set() == texts(old(acc)@).to_set().insert(s@),
{
    let n = acc.len();
    let mut i: usize = 0;
    while i < n && compare_text(acc[i].as_str(), s.as_str()) < 0
        invariant
            n == acc@.len(),
            0 <= i <= n,
            forall|j: int| 0 <= j < i ==> seq_lt(#[trigger] texts(acc@)[j], s@),
        decreases n - i,
    {
        i += 1;
    }
    if i < n && compare_text(acc[i].as_str(), s.as_str()) == 0 {
        assert(texts(acc@).to_set().insert(s@) =~= texts(acc@).to_set()) by {
            assert(texts(acc@)[i as int] == s@);
        }
        return;
    }
    let ghost before = texts(acc@);
    proof {
        if i < n {
            assert(before[i as int] != s@);
            lemma_lt_total(before[i as int], s@);
        }
        lemma_ascending_insert(before, i as int, s@);
    }
    acc.insert(i, s);
    proof {
        assert(texts(acc@) =~= before.insert(i as int, s@));
        assert forall|x: Seq<char>| texts(acc@).to_set().contains(x) <==> before.to_set().insert(
            s@,
        ).contains(x) by {
            let ns = before.insert(i as int, s@);
            if ns.contains(x) {
                let k = choose|k: int| 0 <= k < ns.len() && ns[k] == x;
                if k < i {
                    assert(before[k] == x);
                } else if k > i {
                    assert(before[k - 1] == x);
                }
            }
            if before.contains(x) {
                let k = choose|k: int| 0 <= k < before.len() && before[k] == x;
                if k < i {
                    assert(ns[k] == x);
                } else {
                    assert(ns[k + 1] == x);
                }
            }
            if x == s@ {
                assert(ns[i as int] == x);
            }
        }
        assert(texts(acc@).to_set() =~= before.to_set().insert(s@));
    }
}

fn join_text(prefix: &str, k: &str) -> (r: String)
    ensures
        r@ == join_path(prefix@, k@),
{
    proof {
        reveal_strlit("_");
        assert("_"@ =~= seq!['_']);
    }
    if prefix.unicode_len() == 0 {
        String::from_str(k)
    } else {
        String::from_str(prefix).concat("_").concat(k)
    }
}

impl Node {
    fn flatten_into(&self, prefix: &str, acc: &mut Vec<String>)
        requires
            ascending(texts(old(acc)@)),
        ensures
            ascending(texts(final(acc)@)),
            texts(final(acc)@).to_set() == texts(old(acc)@).to_set().union(flatten_set(self@, prefix@)),
        decreases self,
    {
        proof {
            self.lemma_model_all();
        }
        let ghost start = texts(acc@).to_set();
        let ghost t = self@;
        let n = self.children.len();
        let mut i: usize = 0;
        proof {
            assert(start =~= start.union(Set::new(|p: Seq<char>| exists|j: int| 0 <= j < 0 && flatten_part(t, prefix@, p, j))));
        }
        while i < n
            invariant
                n == self.children@.len(),
                n == t.children.len(),
                t == self@,
                0 <= i <= n,
                ascending(texts(acc@)),
                texts(acc@).to_set() == start.union(
                    Set::new(|p: Seq<char>| exists|j: int| 0 <= j < i && flatten_part(t, prefix@, p, j)),
                ),
            decreases n - i,
        {
            proof {
                self.lemma_model_child(i as int);
            }
            let ghost mid = texts(acc@).to_set();
            let child = &self.children[i].1;
            let path = join_text(prefix, self.children[i].0.as_str());
            let keep = child.value().unicode_len() > 0 || child.has_children();
            if keep {
                insert_text(acc, path.clone());
            }
            let ghost mid2 = texts(acc@).to_set();
            child.flatten_into(path.as_str(), acc);
            proof {
                let pk = join_path(prefix@, t.children[i as int].0);
                let c = t.children[i as int].1;
                assert(keep == (c.scalar.len() > 0 || c.children.len() > 0));
                assert(mid2 == if keep { mid.insert(pk) } else { mid });
                let want = start.union(
                    Set::new(|p: Seq<char>| exists|j: int| 0 <= j < i + 1 && flatten_part(t, prefix@, p, j)),
                );
                assert forall|p: Seq<char>| texts(acc@).to_set().contains(p) <==> want.contains(p) by {
                    if flatten_part(t, prefix@, p, i as int) {
                        assert(p == pk && keep || in_flatten(c, pk, p));
                    }
                    if exists|j: int| 0 <= j < i + 1 && flatten_part(t, prefix@, p, j) {
                        let j = choose|j: int| 0 <= j < i + 1 && flatten_part(t, prefix@, p, j);
                        if j < i {
                            assert(exists|j: int| 0 <= j < i && flatten_part(t, prefix@, p, j));
                        }
                    }
                    if exists|j: int| 0 <= j < i && flatten_part(t, prefix@, p, j) {
                        let j = choose|j: int| 0 <= j < i && flatten_part(t, prefix@, p, j);
                        assert(0 <= j < i + 1 && flatten_part(t, prefix@, p, j));
                    }
                    if p == pk && keep || in_flatten(c, pk, p) {
                        assert(flatten_part(t, prefix@, p, i as int));
                    }
                }
                assert(texts(acc@).to_set() =~= want);
            }
            i += 1;
        }
        proof {
            assert forall|p: Seq<char>| (exists|j: int| 0 <= j < n && flatten_part(t, prefix@, p, j)) <==> in_flatten(t, prefix@, p) by {
                if in_flatten(t, prefix@, p) {
                    let j = choose|j: int| 0 <= j < t.children.len() && ({
                        let pk = join_path(prefix@, (#[trigger] t.children[j]).0);
                        let c = t.children[j].1;
                        (p == pk && (c.scalar.len() > 0 || c.children.len() > 0)) || in_flatten(c, pk, p)
                    });
                    assert(flatten_part(t, prefix@, p, j));
                }
                if exists|j: int| 0 <= j < n && flatten_part(t, prefix@, p, j) {
                    let j = choose|j: int| 0 <= j < n && flatten_part(t, prefix@, p, j);
                    assert(t.children[j] == t.children[j]);
                }
            }
            assert(Set::new(|p: Seq<char>| exists|j: int| 0 <= j < n && flatten_part(t, prefix@, p, j)) =~= flatten_set(t, prefix@));
        }
    }

    /// The full paths below this node (each written after `prefix` and `_`
    /// where `prefix` is not empty) whose node holds a value or has
    /// children, in ascending order.
    pub fn flatten(&self, prefix: &str) -> (r: Vec<String>)
        ensures
            ascending(texts(r@)),
            texts(r@).to_set() == flatten_set(self@, prefix@),
    {
        let mut acc: Vec<String> = Vec::new();
        proof {
            assert(texts(acc@).to_set() =~= Set::<Seq<char>>::empty());
        }
        self.flatten_into(prefix, &mut acc);
        proof {
            assert(texts(acc@).to_set() =~= flatten_set(self@, prefix@));
        }
        acc
    }
}

/// The paths that child `i` of `t` contributes to `flatten_set`.
pub open spec fn flatten_part(t: Tree, prefix: Seq<char>, p: Seq<char>, i: int) -> bool {
    0 <= i < t.children.len() && ({
        let pk = join_path(prefix, t.children[i].0);
        let c = t.children[i].1;
        (p == pk && (c.scalar.len() > 0 || c.children.len() > 0)) || in_flatten(c, pk, p)
    })
}

/// Round trip: a pair with a non-empty value whose folded key is not
/// recorded again later with a non-empty value is found at that folded key,
/// holding its value, whatever other keys were recorded around it.
pub proof fn law_round_trip(ps: Seq<(Seq<char>, Seq<char>)>, i: int)
    requires
        0 <= i < ps.len(),
        ps[i].1.len() > 0,
        forall|j: int| i < j < ps.len() && ps[j].1.len() > 0 ==> lower_of(#[trigger] ps[j].0) != lower_of(ps[i].0),
    ensures
        tree_get(build(ps), lower_of(ps[i].0)) matches Some(n) && n.scalar == ps[i].1,
    decreases ps.len(),
{
    let k = lower_of(ps[i].0);
    let last = ps.last();
    if i == ps.len() - 1 {
        lemma_push_get_same(build(ps.drop_last()), k, ps[i].1);
    } else {
        let rest = ps.drop_last();
        assert forall|j: int| i < j < rest.len() && rest[j].1.len() > 0 implies lower_of(#[trigger] rest[j].0) != lower_of(rest[i].0) by {
            assert(rest[j] == ps[j]);
        }
        law_round_trip(rest, i);
        assert(rest[i] == ps[i]);
        if last.1.len() > 0 {
            assert(ps[ps.len() - 1] == last);
            lemma_push_get_other(build(rest), lower_of(last.0), last.1, k);
        }
    }
}

/// Coexistence: a key and an extension of it by `_` and a suffix both keep
/// their values, in whichever order they are recorded.
pub proof fn law_coexistence(t: Tree, a: Seq<char>, b: Seq<char>, x: Seq<char>, y: Seq<char>)
    ensures
        tree_get(tree_push(tree_push(t, a, x), a + seq!['_'] + b, y), a) matches Some(n) && n.scalar == x,
        tree_get(tree_push(tree_push(t, a, x), a + seq!['_'] + b, y), a + seq!['_'] + b) matches Some(n)
            && n.scalar == y,
        tree_get(tree_push(tree_push(t, a + seq!['_'] + b, y), a, x), a) matches Some(n) && n.scalar == x,
        tree_get(tree_push(tree_push(t, a + seq!['_'] + b, y), a, x), a + seq!['_'] + b) matches Some(n)
            && n.scalar == y,
{
    let ab = a + seq!['_'] + b;
    assert(ab.len() > a.len());
    lemma_push_get_same(t, a, x);
    lemma_push_get_other(tree_push(t, a, x), ab, y, a);
    lemma_push_get_same(tree_push(t, a, x), ab, y);
    lemma_push_get_same(t, ab, y);
    lemma_push_get_other(tree_push(t, ab, y), a, x, ab);
    lemma_push_get_same(tree_push(t, ab, y), a, x);
}

/// Case folding: pairs whose keys fold to the same lower-case text, with
/// the same values, build the same tree.
pub proof fn law_case_insensitive(ps: Seq<(Seq<char>, Seq<char>)>, qs: Seq<(Seq<char>, Seq<char>)>)
    requires
        ps.len() == qs.len(),
        forall|i: int| 0 <= i < ps.len() ==> lower_of(#[trigger] ps[i].0) == lower_of(qs[i].0) && ps[i].1 == qs[i].1,
    ensures
        build(ps) == build(qs),
    decreases ps.len(),
{
    if ps.len() > 0 {
        let (rp, rq) = (ps.drop_last(), qs.drop_last());
        assert forall|i: int| 0 <= i < rp.len() implies lower_of(#[trigger] rp[i].0) == lower_of(rq[i].0) && rp[i].1 == rq[i].1 by {
            assert(rp[i] == ps[i] && rq[i] == qs[i]);
        }
        law_case_insensitive(rp, rq);
        assert(ps.last() == ps[ps.len() - 1]);
        assert(qs.last() == qs[qs.len() - 1]);
    }
}

impl PartialEq for Node {
    fn eq(&self, other: &Node) -> (r: bool) {
        self.same_tree(other)
    }
}

impl vstd::std_specs::cmp::PartialEqSpecImpl for Node {
    open spec fn obeys_eq_spec() -> bool {
        true
    }

    open spec fn eq_spec(&self, other: &Node) -> bool {
        self@ == other@
    }
}

} // verus!
