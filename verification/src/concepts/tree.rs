//! An ordered tree of string keys. The siblings at every level are kept in
//! strictly ascending order, so that a key is found by binary search.

use vstd::prelude::*;
use crate::text::{compare_text, path_view, text_lt, Comparison};
use crate::text::{
    lemma_text_lt_then_le, lemma_text_lt_transitive, lemma_text_order_equal, lemma_text_order_flip,
};

verus! {

broadcast use vstd::std_specs::vec::axiom_vec_index_decreases;

/// What a node of a tree is, mathematically: its key and, where it has one,
/// the tree below it.
pub struct NodeView {
    pub key: Seq<char>,
    pub tree: Option<TreeView>,
}

/// What a tree is, mathematically: the sequence of its nodes.
pub struct TreeView {
    pub children: Seq<NodeView>,
}

impl TreeView {
    /// The tree without nodes.
    pub open spec fn empty() -> TreeView {
        TreeView { children: Seq::empty() }
    }

    /// The keys of the top level, in their order.
    pub open spec fn keys(self) -> Seq<Seq<char>> {
        Seq::new(self.children.len(), |i: int| self.children[i].key)
    }

    /// The keys of the top level are strictly ascending.
    pub open spec fn sorted(self) -> bool {
        forall|i: int, j: int|
            0 <= i < j < self.children.len() ==> text_lt(
                #[trigger] self.children[i].key,
                #[trigger] self.children[j].key,
            )
    }

    /// The keys are strictly ascending at every level.
    pub open spec fn wf(self) -> bool
        decreases self,
    {
        &&& self.sorted()
        &&& forall|i: int|
            0 <= i < self.children.len() ==> match (#[trigger] self.children[i]).tree {
                Some(t) => t.wf(),
                None => true,
            }
    }

    /// Some node of the top level has this key.
    pub open spec fn has_key(self, key: Seq<char>) -> bool {
        exists|i: int| 0 <= i < self.children.len() && #[trigger] self.children[i].key == key
    }

    /// The place of a node with this key, where there is one.
    pub open spec fn index_of(self, key: Seq<char>) -> int {
        choose|i: int| 0 <= i < self.children.len() && #[trigger] self.children[i].key == key
    }

    /// The number of top-level keys that come strictly before `key`: the
    /// place where `key` stands, or would stand, in a sorted level.
    pub open spec fn rank(self, key: Seq<char>) -> int
        decreases self.children.len(),
    {
        if self.children.len() == 0 {
            0
        } else {
            let rest = TreeView { children: self.children.drop_last() };
            rest.rank(key) + if text_lt(self.children.last().key, key) {
                1int
            } else {
                0int
            }
        }
    }

    /// The tree with `t` as the tree below `key`, a key of the top level.
    pub open spec fn set_child(self, key: Seq<char>, t: TreeView) -> TreeView {
        TreeView {
            children: self.children.update(
                self.index_of(key),
                NodeView { key: key, tree: Some(t) },
            ),
        }
    }

    /// The tree after `key` was given a tree below it: a key that is
    /// there keeps its tree or gets an empty one, a new key comes in at its
    /// sorted place with an empty tree.
    pub open spec fn make_child(self, key: Seq<char>) -> TreeView {
        if self.has_key(key) {
            let i = self.index_of(key);
            match self.children[i].tree {
                Some(_) => self,
                None => self.set_child(key, TreeView::empty()),
            }
        } else {
            TreeView {
                children: self.children.insert(
                    self.rank(key),
                    NodeView { key: key, tree: Some(TreeView::empty()) },
                ),
            }
        }
    }

    /// The tree without `key` and what was below it.
    pub open spec fn remove(self, key: Seq<char>) -> TreeView {
        if self.has_key(key) {
            TreeView { children: self.children.remove(self.index_of(key)) }
        } else {
            self
        }
    }

    /// The tree with the key `old_key` replaced by `new_key`, at the same
    /// place and with the same tree below it.
    pub open spec fn rename(self, old_key: Seq<char>, new_key: Seq<char>) -> TreeView {
        if self.has_key(old_key) {
            let i = self.index_of(old_key);
            TreeView {
                children: self.children.update(
                    i,
                    NodeView { key: new_key, tree: self.children[i].tree },
                ),
            }
        } else {
            self
        }
    }

    /// The tree after the pair of `key` and `tree` was inserted. A key that
    /// is there has `tree` merged into what is below it; a new key comes in
    /// at its sorted place, with `tree` below it.
    pub open spec fn insert(self, key: Seq<char>, tree: Option<TreeView>) -> TreeView
        decreases tree, 0nat,
    {
        if self.has_key(key) {
            let i = self.index_of(key);
            match tree {
                None => self,
                Some(t2) => match self.children[i].tree {
                    Some(t1) => self.set_child(key, t1.merge(t2)),
                    None => self.set_child(key, t2),
                },
            }
        } else {
            TreeView {
                children: self.children.insert(self.rank(key), NodeView { key: key, tree: tree }),
            }
        }
    }

    /// The tree after the first `n` nodes of `other` were inserted, one
    /// after the other.
    pub open spec fn merge_first(self, other: TreeView, n: nat) -> TreeView
        decreases other, n,
    {
        if n == 0 || n > other.children.len() {
            self
        } else {
            let node = other.children[n - 1];
            self.merge_first(other, (n - 1) as nat).insert(node.key, node.tree)
        }
    }

    /// The tree after every node of `other` was inserted, in order: the
    /// union of both, with the trees below shared keys merged in turn.
    pub open spec fn merge(self, other: TreeView) -> TreeView
        decreases other, other.children.len() + 1,
    {
        self.merge_first(other, other.children.len())
    }

    /// The tree reached by descending along `path`, key by key; none where
    /// a key of the path is missing or has no tree below it.
    pub open spec fn lookup(self, path: Seq<Seq<char>>) -> Option<TreeView>
        decreases path.len(),
    {
        if path.len() == 0 {
            Some(self)
        } else {
            match self.child(path[0]) {
                Some(t) => t.lookup(path.drop_first()),
                None => None,
            }
        }
    }

    /// The tree with `t` in the place of the tree reached along `path`.
    pub open spec fn set_at(self, path: Seq<Seq<char>>, t: TreeView) -> TreeView
        decreases path.len(),
    {
        if path.len() == 0 {
            t
        } else {
            match self.child(path[0]) {
                Some(c) => self.set_child(path[0], c.set_at(path.drop_first(), t)),
                None => self,
            }
        }
    }

    /// The tree after each key of `path` was given a tree below it, one
    /// level after the other.
    pub open spec fn make_path(self, path: Seq<Seq<char>>) -> TreeView
        decreases path.len(),
    {
        if path.len() == 0 {
            self
        } else {
            let made = self.make_child(path[0]);
            match made.child(path[0]) {
                Some(c) => made.set_child(path[0], c.make_path(path.drop_first())),
                None => made,
            }
        }
    }

    /// The keys are ascending at every level; equal keys may stand side by
    /// side.
    pub open spec fn ascending(self) -> bool
        decreases self,
    {
        &&& forall|i: int, j: int|
            0 <= i < j < self.children.len() ==> !text_lt(
                #[trigger] self.children[j].key,
                #[trigger] self.children[i].key,
            )
        &&& forall|i: int|
            0 <= i < self.children.len() ==> match (#[trigger] self.children[i]).tree {
                Some(t) => t.ascending(),
                None => true,
            }
    }

    /// No key stands twice among its siblings, at any level.
    pub open spec fn distinct(self) -> bool
        decreases self,
    {
        &&& forall|i: int, j: int|
            0 <= i < j < self.children.len() ==> (#[trigger] self.children[i]).key != (
            #[trigger] self.children[j]).key
        &&& forall|i: int|
            0 <= i < self.children.len() ==> match (#[trigger] self.children[i]).tree {
                Some(t) => t.distinct(),
                None => true,
            }
    }

    /// The number of top-level keys that do not come after `key`: the
    /// place behind the last key that is equal to `key` or before it.
    pub open spec fn upper_rank(self, key: Seq<char>) -> int
        decreases self.children.len(),
    {
        if self.children.len() == 0 {
            0
        } else {
            let rest = TreeView { children: self.children.drop_last() };
            rest.upper_rank(key) + if text_lt(key, self.children.last().key) {
                0int
            } else {
                1int
            }
        }
    }

    /// The first `n` nodes, each with the tree below it normalized, sorted
    /// by key; nodes with equal keys keep their order.
    pub open spec fn normalize_first(self, n: nat) -> TreeView
        decreases self, n,
    {
        if n == 0 || n > self.children.len() {
            TreeView::empty()
        } else {
            let node = self.children[n - 1];
            let done = self.normalize_first((n - 1) as nat);
            let below = match node.tree {
                Some(t) => Some(t.normalize()),
                None => None,
            };
            TreeView {
                children: done.children.insert(
                    done.upper_rank(node.key),
                    NodeView { key: node.key, tree: below },
                ),
            }
        }
    }

    /// The tree with every level sorted by key; nodes with equal keys keep
    /// their order.
    pub open spec fn normalize(self) -> TreeView
        decreases self, self.children.len() + 1,
    {
        self.normalize_first(self.children.len())
    }

    /// The tree below `key`, where the key is present and has one.
    pub open spec fn child(self, key: Seq<char>) -> Option<TreeView> {
        if self.has_key(key) {
            self.children[self.index_of(key)].tree
        } else {
            None
        }
    }
}

impl TreeView {
    /// In a sorted level, a place that parts the keys before `key` from the
    /// others is the rank of `key`.
    pub proof fn lemma_rank(self, key: Seq<char>, i: int)
        requires
            0 <= i <= self.children.len(),
            forall|j: int| 0 <= j < i ==> text_lt(#[trigger] self.children[j].key, key),
            forall|j: int|
                i <= j < self.children.len() ==> !text_lt(#[trigger] self.children[j].key, key),
        ensures
            self.rank(key) == i,
        decreases self.children.len(),
    {
        if self.children.len() > 0 {
            let rest = TreeView { children: self.children.drop_last() };
            let last = self.children.len() - 1;
            if i == self.children.len() {
                assert(text_lt(self.children[last].key, key));
                rest.lemma_rank(key, i - 1);
            } else {
                assert(!text_lt(self.children[last].key, key));
                rest.lemma_rank(key, i);
            }
        }
    }

    /// In a sorted level the keys before `key` are exactly those at the
    /// places below its rank.
    pub proof fn lemma_rank_parts(self, key: Seq<char>)
        requires
            self.sorted(),
        ensures
            0 <= self.rank(key) <= self.children.len(),
            forall|j: int|
                0 <= j < self.rank(key) ==> text_lt(#[trigger] self.children[j].key, key),
            forall|j: int|
                self.rank(key) <= j < self.children.len() ==> !text_lt(
                    #[trigger] self.children[j].key,
                    key,
                ),
        decreases self.children.len(),
    {
        if self.children.len() > 0 {
            let rest = TreeView { children: self.children.drop_last() };
            let last = self.children.len() - 1;
            assert forall|i: int, j: int| 0 <= i < j < rest.children.len() implies text_lt(
                #[trigger] rest.children[i].key,
                #[trigger] rest.children[j].key,
            ) by {
                assert(rest.children[i] == self.children[i]);
                assert(rest.children[j] == self.children[j]);
            }
            rest.lemma_rank_parts(key);
            assert forall|j: int| 0 <= j < last implies rest.children[j] == self.children[j] by {}
            if text_lt(self.children[last].key, key) {
                assert forall|j: int| 0 <= j < last implies text_lt(
                    #[trigger] self.children[j].key,
                    key,
                ) by {
                    lemma_text_lt_transitive(self.children[j].key, self.children[last].key, key);
                }
                if rest.rank(key) < last {
                    assert(!text_lt(rest.children[rest.rank(key)].key, key));
                    assert(text_lt(self.children[rest.rank(key)].key, key));
                }
            }
        }
    }

    /// A node put at the rank of its key, a key that the level lacks,
    /// leaves the level sorted.
    pub proof fn lemma_insert_sorted(self, node: NodeView)
        requires
            self.sorted(),
            !self.has_key(node.key),
        ensures
            (TreeView { children: self.children.insert(self.rank(node.key), node) }).sorted(),
    {
        let r = self.rank(node.key);
        self.lemma_rank_parts(node.key);
        let after = self.children.insert(r, node);
        assert forall|i: int, j: int| 0 <= i < j < after.len() implies text_lt(
            #[trigger] after[i].key,
            #[trigger] after[j].key,
        ) by {
            if j < r {
                assert(after[i] == self.children[i] && after[j] == self.children[j]);
            } else if j == r {
                assert(after[i] == self.children[i]);
            } else if i == r {
                assert(after[j] == self.children[j - 1]);
                let k = self.children[j - 1].key;
                assert(!text_lt(k, node.key));
                lemma_text_order_flip(k, node.key);
                lemma_text_order_equal(k, node.key);
            } else if i < r {
                assert(after[i] == self.children[i] && after[j] == self.children[j - 1]);
            } else {
                assert(after[i] == self.children[i - 1] && after[j] == self.children[j - 1]);
            }
        }
    }

    /// Replacing the tree below a key by a well-formed one keeps the whole
    /// well-formed.
    pub proof fn lemma_set_child_wf(self, key: Seq<char>, t: TreeView)
        requires
            self.wf(),
            self.has_key(key),
            t.wf(),
        ensures
            self.set_child(key, t).wf(),
    {
        let after = self.set_child(key, t);
        let i = self.index_of(key);
        assert forall|a: int, b: int| 0 <= a < b < after.children.len() implies text_lt(
            #[trigger] after.children[a].key,
            #[trigger] after.children[b].key,
        ) by {
            assert(after.children[a].key == self.children[a].key);
            assert(after.children[b].key == self.children[b].key);
        }
        assert forall|a: int| 0 <= a < after.children.len() implies match (
        #[trigger] after.children[a]).tree {
            Some(x) => x.wf(),
            None => true,
        } by {
            if a != i {
                assert(after.children[a] == self.children[a]);
            }
        }
    }

    /// Inserting a well-formed tree under a key keeps the whole well-formed.
    pub proof fn lemma_insert_wf(self, key: Seq<char>, tree: Option<TreeView>)
        requires
            self.wf(),
            tree is Some ==> tree->0.wf(),
        ensures
            self.insert(key, tree).wf(),
        decreases tree, 0nat,
    {
        if self.has_key(key) {
            let i = self.index_of(key);
            match tree {
                None => {},
                Some(t2) => match self.children[i].tree {
                    Some(t1) => {
                        t1.lemma_merge_first_wf(t2, t2.children.len());
                        self.lemma_set_child_wf(key, t1.merge(t2));
                    },
                    None => {
                        self.lemma_set_child_wf(key, t2);
                    },
                },
            }
        } else {
            let node = NodeView { key: key, tree: tree };
            self.lemma_insert_sorted(node);
            let r = self.rank(key);
            self.lemma_rank_parts(key);
            let after = self.children.insert(r, node);
            assert forall|a: int| 0 <= a < after.len() implies match (#[trigger] after[a]).tree {
                Some(x) => x.wf(),
                None => true,
            } by {
                if a < r {
                    assert(after[a] == self.children[a]);
                } else if a > r {
                    assert(after[a] == self.children[a - 1]);
                }
            }
        }
    }

    /// Merging the first nodes of a well-formed tree into a well-formed
    /// tree gives a well-formed tree.
    pub proof fn lemma_merge_first_wf(self, other: TreeView, n: nat)
        requires
            self.wf(),
            other.wf(),
        ensures
            self.merge_first(other, n).wf(),
        decreases other, n,
    {
        if n == 0 || n > other.children.len() {
        } else {
            let node = other.children[n - 1];
            self.lemma_merge_first_wf(other, (n - 1) as nat);
            self.merge_first(other, (n - 1) as nat).lemma_insert_wf(node.key, node.tree);
        }
    }

    /// Removing a key keeps the tree well-formed.
    pub proof fn lemma_remove_wf(self, key: Seq<char>)
        requires
            self.wf(),
        ensures
            self.remove(key).wf(),
    {
        if self.has_key(key) {
            let i = self.index_of(key);
            let after = self.children.remove(i);
            assert forall|a: int, b: int| 0 <= a < b < after.len() implies text_lt(
                #[trigger] after[a].key,
                #[trigger] after[b].key,
            ) by {
                let a0 = if a < i { a } else { a + 1 };
                let b0 = if b < i { b } else { b + 1 };
                assert(after[a] == self.children[a0]);
                assert(after[b] == self.children[b0]);
            }
            assert forall|a: int| 0 <= a < after.len() implies match (#[trigger] after[a]).tree {
                Some(x) => x.wf(),
                None => true,
            } by {
                let a0 = if a < i { a } else { a + 1 };
                assert(after[a] == self.children[a0]);
            }
        }
    }

    /// After the tree below a key was replaced, the key is there with
    /// that tree below it.
    pub proof fn lemma_child_of_set_child(self, key: Seq<char>, t: TreeView)
        requires
            self.sorted(),
            self.has_key(key),
        ensures
            self.set_child(key, t).has_key(key),
            self.set_child(key, t).index_of(key) == self.index_of(key),
            self.set_child(key, t).child(key) == Some(t),
            self.set_child(key, t).sorted(),
    {
        let after = self.set_child(key, t);
        let i = self.index_of(key);
        assert forall|a: int, b: int| 0 <= a < b < after.children.len() implies text_lt(
            #[trigger] after.children[a].key,
            #[trigger] after.children[b].key,
        ) by {
            assert(after.children[a].key == self.children[a].key);
            assert(after.children[b].key == self.children[b].key);
        }
        assert(after.children[i].key == key);
        after.lemma_index_unique(i);
    }

    /// Replacing the tree below a key twice is replacing it by the second.
    pub proof fn lemma_set_child_twice(self, key: Seq<char>, t: TreeView, u: TreeView)
        requires
            self.sorted(),
            self.has_key(key),
        ensures
            self.set_child(key, t).set_child(key, u) == self.set_child(key, u),
    {
        self.lemma_child_of_set_child(key, t);
        assert(self.set_child(key, t).set_child(key, u).children =~= self.set_child(
            key,
            u,
        ).children);
    }

    /// Making a path in a well-formed tree gives a well-formed tree.
    pub proof fn lemma_make_path_wf(self, path: Seq<Seq<char>>)
        requires
            self.wf(),
        ensures
            self.make_path(path).wf(),
        decreases path.len(),
    {
        if path.len() > 0 {
            let made = self.make_child(path[0]);
            self.lemma_make_child_wf(path[0]);
            match made.child(path[0]) {
                Some(c) => {
                    made.lemma_child_wf(path[0]);
                    c.lemma_make_path_wf(path.drop_first());
                    made.lemma_set_child_wf(path[0], c.make_path(path.drop_first()));
                },
                None => {},
            }
        }
    }

    /// Giving a key a tree below it keeps the tree well-formed, and the
    /// key is then there.
    pub proof fn lemma_make_child_wf(self, key: Seq<char>)
        requires
            self.wf(),
        ensures
            self.make_child(key).wf(),
            self.make_child(key).has_key(key),
            self.make_child(key).child(key) is Some,
    {
        if self.has_key(key) {
            let i = self.index_of(key);
            match self.children[i].tree {
                Some(_) => {},
                None => {
                    self.lemma_set_child_wf(key, TreeView::empty());
                    self.lemma_child_of_set_child(key, TreeView::empty());
                },
            }
        } else {
            self.lemma_insert_wf(key, Some(TreeView::empty()));
            assert(self.make_child(key) == self.insert(key, Some(TreeView::empty())));
            let r = self.rank(key);
            self.lemma_rank_parts(key);
            let after = self.make_child(key);
            assert(after.children[r].key == key);
            after.lemma_index_unique(r);
        }
    }

    /// The tree below a key of a well-formed tree is well-formed.
    pub proof fn lemma_child_wf(self, key: Seq<char>)
        requires
            self.wf(),
        ensures
            self.child(key) is Some ==> self.child(key)->0.wf(),
    {
    }

    /// A well-formed tree is ascending.
    pub proof fn lemma_wf_ascending(self)
        requires
            self.wf(),
        ensures
            self.ascending(),
        decreases self,
    {
        assert forall|i: int, j: int| 0 <= i < j < self.children.len() implies !text_lt(
            #[trigger] self.children[j].key,
            #[trigger] self.children[i].key,
        ) by {
            lemma_text_order_flip(self.children[i].key, self.children[j].key);
        }
        assert forall|i: int| 0 <= i < self.children.len() implies match (
        #[trigger] self.children[i]).tree {
            Some(t) => t.ascending(),
            None => true,
        } by {
            match self.children[i].tree {
                Some(t) => {
                    t.lemma_wf_ascending();
                },
                None => {},
            }
        }
    }

    /// A place that parts the keys that do not come after `key` from those
    /// that do is the upper rank of `key`.
    pub proof fn lemma_upper_rank(self, key: Seq<char>, i: int)
        requires
            0 <= i <= self.children.len(),
            forall|j: int| 0 <= j < i ==> !text_lt(key, #[trigger] self.children[j].key),
            forall|j: int|
                i <= j < self.children.len() ==> text_lt(key, #[trigger] self.children[j].key),
        ensures
            self.upper_rank(key) == i,
        decreases self.children.len(),
    {
        if self.children.len() > 0 {
            let rest = TreeView { children: self.children.drop_last() };
            let last = self.children.len() - 1;
            if i == self.children.len() {
                assert(!text_lt(key, self.children[last].key));
                rest.lemma_upper_rank(key, i - 1);
            } else {
                assert(text_lt(key, self.children[last].key));
                rest.lemma_upper_rank(key, i);
            }
        }
    }

    /// In an ascending level the keys that do not come after `key` are
    /// exactly those at the places below its upper rank.
    pub proof fn lemma_upper_rank_parts(self, key: Seq<char>)
        requires
            self.ascending(),
        ensures
            0 <= self.upper_rank(key) <= self.children.len(),
            forall|j: int|
                0 <= j < self.upper_rank(key) ==> !text_lt(key, #[trigger] self.children[j].key),
            forall|j: int|
                self.upper_rank(key) <= j < self.children.len() ==> text_lt(
                    key,
                    #[trigger] self.children[j].key,
                ),
        decreases self.children.len(),
    {
        if self.children.len() > 0 {
            let rest = TreeView { children: self.children.drop_last() };
            let last = self.children.len() - 1;
            assert forall|j: int| 0 <= j < last implies rest.children[j] == self.children[j] by {}
            assert(rest.ascending()) by {
                assert forall|i: int, j: int| 0 <= i < j < rest.children.len() implies !text_lt(
                    #[trigger] rest.children[j].key,
                    #[trigger] rest.children[i].key,
                ) by {
                    assert(rest.children[i] == self.children[i]);
                    assert(rest.children[j] == self.children[j]);
                }
                assert forall|i: int| 0 <= i < rest.children.len() implies match (
                #[trigger] rest.children[i]).tree {
                    Some(t) => t.ascending(),
                    None => true,
                } by {
                    assert(rest.children[i] == self.children[i]);
                }
            }
            rest.lemma_upper_rank_parts(key);
            if !text_lt(key, self.children[last].key) {
                // every earlier key is at most the last, so none comes after `key`
                assert forall|j: int| 0 <= j < last implies !text_lt(
                    key,
                    #[trigger] self.children[j].key,
                ) by {
                    if text_lt(key, self.children[j].key) {
                        lemma_text_lt_then_le(key, self.children[j].key, self.children[last].key);
                    }
                }
                if rest.upper_rank(key) < last {
                    assert(text_lt(key, rest.children[rest.upper_rank(key)].key));
                    assert(!text_lt(key, self.children[rest.upper_rank(key)].key));
                }
            }
        }
    }

    /// A node put at the upper rank of its key leaves an ascending tree
    /// ascending.
    pub proof fn lemma_insert_ascending(self, node: NodeView)
        requires
            self.ascending(),
            node.tree is Some ==> node.tree->0.ascending(),
        ensures
            (TreeView {
                children: self.children.insert(self.upper_rank(node.key), node),
            }).ascending(),
    {
        let r = self.upper_rank(node.key);
        self.lemma_upper_rank_parts(node.key);
        let after = self.children.insert(r, node);
        assert forall|i: int, j: int| 0 <= i < j < after.len() implies !text_lt(
            #[trigger] after[j].key,
            #[trigger] after[i].key,
        ) by {
            if j < r {
                assert(after[i] == self.children[i] && after[j] == self.children[j]);
            } else if j == r {
                assert(after[i] == self.children[i]);
            } else if i == r {
                assert(after[j] == self.children[j - 1]);
                lemma_text_order_flip(node.key, self.children[j - 1].key);
            } else if i < r {
                assert(after[i] == self.children[i] && after[j] == self.children[j - 1]);
            } else {
                assert(after[i] == self.children[i - 1] && after[j] == self.children[j - 1]);
            }
        }
        assert forall|a: int| 0 <= a < after.len() implies match (#[trigger] after[a]).tree {
            Some(x) => x.ascending(),
            None => true,
        } by {
            if a < r {
                assert(after[a] == self.children[a]);
            } else if a > r {
                assert(after[a] == self.children[a - 1]);
            }
        }
    }

    /// Normalizing gives a tree that is ascending at every level.
    pub proof fn lemma_normalize_first_ascending(self, n: nat)
        ensures
            self.normalize_first(n).ascending(),
            self.normalize_first(n).children.len() == if n <= self.children.len() {
                n
            } else {
                0
            },
        decreases self, n,
    {
        if n == 0 || n > self.children.len() {
        } else {
            let node = self.children[n - 1];
            let done = self.normalize_first((n - 1) as nat);
            self.lemma_normalize_first_ascending((n - 1) as nat);
            let below = match node.tree {
                Some(t) => Some(t.normalize()),
                None => None,
            };
            match node.tree {
                Some(t) => {
                    t.lemma_normalize_first_ascending(t.children.len());
                },
                None => {},
            }
            done.lemma_upper_rank_parts(node.key);
            done.lemma_insert_ascending(NodeView { key: node.key, tree: below });
        }
    }

    /// Normalizing an ascending tree changes nothing.
    pub proof fn lemma_normalize_first_fixed(self, n: nat)
        requires
            self.ascending(),
            n <= self.children.len(),
        ensures
            self.normalize_first(n).children == self.children.take(n as int),
        decreases self, n,
    {
        if n == 0 {
            assert(self.normalize_first(n).children =~= self.children.take(n as int));
        } else {
            let node = self.children[n - 1];
            let done = self.normalize_first((n - 1) as nat);
            self.lemma_normalize_first_fixed((n - 1) as nat);
            match node.tree {
                Some(t) => {
                    t.lemma_normalize_first_fixed(t.children.len());
                    assert(t.children.take(t.children.len() as int) =~= t.children);
                    assert(t.normalize().children == t.children);
                    assert(t.normalize() == t);
                },
                None => {},
            }
            assert(done.children.len() == n - 1);
            assert forall|j: int| 0 <= j < n - 1 implies !text_lt(
                node.key,
                #[trigger] done.children[j].key,
            ) by {
                assert(done.children[j] == self.children[j]);
            }
            done.lemma_upper_rank(node.key, n - 1);
            let below = match node.tree {
                Some(t) => Some(t.normalize()),
                None => None,
            };
            assert(NodeView { key: node.key, tree: below } == node);
            assert(done.children.insert(n - 1, node) =~= self.children.take(n as int));
        }
    }

    /// Normalizing the first nodes of a tree in which no key stands twice
    /// among its siblings gives a well-formed tree that holds the keys of
    /// those nodes.
    pub proof fn lemma_normalize_first_distinct(self, n: nat)
        requires
            self.distinct(),
            n <= self.children.len(),
        ensures
            self.normalize_first(n).wf(),
            forall|a: int|
                0 <= a < self.normalize_first(n).children.len() ==> exists|i: int|
                    0 <= i < n && self.children[i].key == (#[trigger] self.normalize_first(
                        n,
                    ).children[a]).key,
        decreases self, n,
    {
        if n > 0 {
            let node = self.children[n - 1];
            let done = self.normalize_first((n - 1) as nat);
            self.lemma_normalize_first_distinct((n - 1) as nat);
            self.lemma_normalize_first_ascending((n - 1) as nat);
            let below = match node.tree {
                Some(t) => Some(t.normalize()),
                None => None,
            };
            match node.tree {
                Some(t) => {
                    t.lemma_normalize_first_distinct(t.children.len());
                },
                None => {},
            }
            let fresh = NodeView { key: node.key, tree: below };
            let r = done.upper_rank(node.key);
            done.lemma_upper_rank_parts(node.key);
            let after = self.normalize_first(n);
            assert(after.children == done.children.insert(r, fresh));
            // the key of the node is new among those that are done
            assert forall|a: int| 0 <= a < done.children.len() implies (
            #[trigger] done.children[a]).key != node.key by {
                let i = choose|i: int| 0 <= i < n - 1 && self.children[i].key == done.children[a].key;
                assert(self.children[i].key != self.children[n - 1].key);
            }
            assert forall|a: int, b: int| 0 <= a < b < after.children.len() implies text_lt(
                #[trigger] after.children[a].key,
                #[trigger] after.children[b].key,
            ) by {
                if b < r {
                    assert(after.children[a] == done.children[a] && after.children[b]
                        == done.children[b]);
                } else if b == r {
                    assert(after.children[a] == done.children[a]);
                    let k = done.children[a].key;
                    assert(!text_lt(node.key, k));
                    lemma_text_order_flip(k, node.key);
                    lemma_text_order_equal(k, node.key);
                } else if a == r {
                    assert(after.children[b] == done.children[b - 1]);
                } else if a < r {
                    assert(after.children[a] == done.children[a] && after.children[b]
                        == done.children[b - 1]);
                } else {
                    assert(after.children[a] == done.children[a - 1] && after.children[b]
                        == done.children[b - 1]);
                }
            }
            assert forall|a: int| 0 <= a < after.children.len() implies match (
            #[trigger] after.children[a]).tree {
                Some(x) => x.wf(),
                None => true,
            } by {
                if a < r {
                    assert(after.children[a] == done.children[a]);
                } else if a > r {
                    assert(after.children[a] == done.children[a - 1]);
                }
            }
            assert forall|a: int| 0 <= a < after.children.len() implies exists|i: int|
                0 <= i < n && self.children[i].key == (#[trigger] after.children[a]).key by {
                if a < r {
                    assert(after.children[a] == done.children[a]);
                    let i = choose|i: int|
                        0 <= i < n - 1 && self.children[i].key == done.children[a].key;
                    assert(0 <= i < n && self.children[i].key == after.children[a].key);
                } else if a == r {
                    assert(self.children[n - 1].key == after.children[a].key);
                } else {
                    assert(after.children[a] == done.children[a - 1]);
                    let i = choose|i: int|
                        0 <= i < n - 1 && self.children[i].key == done.children[a - 1].key;
                    assert(0 <= i < n && self.children[i].key == after.children[a].key);
                }
            }
        }
    }

    /// Normalizing a tree in which no key stands twice among its siblings
    /// gives a well-formed tree.
    pub proof fn lemma_normalize_distinct(self)
        requires
            self.distinct(),
        ensures
            self.normalize().wf(),
    {
        self.lemma_normalize_first_distinct(self.children.len());
    }

    /// Normalizing twice is normalizing once.
    pub proof fn lemma_normalize_idempotent(self)
        ensures
            self.normalize().normalize() == self.normalize(),
    {
        let once = self.normalize();
        self.lemma_normalize_first_ascending(self.children.len());
        once.lemma_normalize_first_fixed(once.children.len());
        assert(once.children.take(once.children.len() as int) =~= once.children);
        assert(once.normalize().children == once.children);
    }

    /// Normalizing a well-formed tree changes nothing.
    pub proof fn lemma_normalize_wf(self)
        requires
            self.wf(),
        ensures
            self.normalize() == self,
    {
        self.lemma_wf_ascending();
        self.lemma_normalize_first_fixed(self.children.len());
        assert(self.children.take(self.children.len() as int) =~= self.children);
        assert(self.normalize().children == self.children);
    }

    /// Two sorted levels that hold the same nodes are the same level.
    pub proof fn lemma_sorted_same_nodes(self, other: TreeView)
        requires
            self.sorted(),
            other.sorted(),
            forall|x: NodeView| self.children.contains(x) <==> other.children.contains(x),
        ensures
            self == other,
        decreases self.children.len(),
    {
        let s = self.children;
        let t = other.children;
        if s.len() == 0 {
            if t.len() > 0 {
                assert(t.contains(t[0]));
            }
            assert(s =~= t);
        } else {
            let top = s.last();
            assert(s.contains(top));
            assert(t.len() > 0);
            let j = choose|j: int| 0 <= j < t.len() && t[j] == top;
            if j < t.len() - 1 {
                let beyond = t.last();
                assert(t.contains(beyond));
                assert(text_lt(t[j].key, t[t.len() - 1].key));
                let i = choose|i: int| 0 <= i < s.len() && s[i] == beyond;
                lemma_text_order_flip(s[i].key, top.key);
                lemma_text_order_equal(s[i].key, top.key);
                if i < s.len() - 1 {
                    assert(text_lt(s[i].key, s[s.len() - 1].key));
                }
            }
            let s1 = TreeView { children: s.drop_last() };
            let t1 = TreeView { children: t.drop_last() };
            assert forall|a: int, b: int| 0 <= a < b < s1.children.len() implies text_lt(
                #[trigger] s1.children[a].key,
                #[trigger] s1.children[b].key,
            ) by {
                assert(s1.children[a] == s[a] && s1.children[b] == s[b]);
            }
            assert forall|a: int, b: int| 0 <= a < b < t1.children.len() implies text_lt(
                #[trigger] t1.children[a].key,
                #[trigger] t1.children[b].key,
            ) by {
                assert(t1.children[a] == t[a] && t1.children[b] == t[b]);
            }
            assert forall|x: NodeView| s1.children.contains(x) <==> t1.children.contains(x) by {
                lemma_text_order_equal(top.key, top.key);
                if s1.children.contains(x) {
                    let a = choose|a: int| 0 <= a < s1.children.len() && s1.children[a] == x;
                    assert(s[a] == x);
                    assert(s.contains(x));
                    assert(text_lt(s[a].key, s[s.len() - 1].key));
                    let b = choose|b: int| 0 <= b < t.len() && t[b] == x;
                    assert(b < t.len() - 1);
                    assert(t1.children[b] == x);
                }
                if t1.children.contains(x) {
                    let b = choose|b: int| 0 <= b < t1.children.len() && t1.children[b] == x;
                    assert(t[b] == x);
                    assert(t.contains(x));
                    assert(text_lt(t[b].key, t[t.len() - 1].key));
                    let a = choose|a: int| 0 <= a < s.len() && s[a] == x;
                    assert(a < s.len() - 1);
                    assert(s1.children[a] == x);
                }
            }
            s1.lemma_sorted_same_nodes(t1);
            assert(s =~= s.drop_last().push(s.last()));
            assert(t =~= t.drop_last().push(t.last()));
        }
    }

    /// Merging the first nodes of a tree into one that shares no
    /// top-level key with it puts those nodes in beside the others, each
    /// with the tree below it untouched.
    pub proof fn lemma_merge_first_disjoint(self, other: TreeView, n: nat)
        requires
            self.wf(),
            other.wf(),
            n <= other.children.len(),
            forall|i: int, j: int|
                0 <= i < self.children.len() && 0 <= j < other.children.len() ==> (
                #[trigger] self.children[i]).key != (#[trigger] other.children[j]).key,
        ensures
            self.merge_first(other, n).wf(),
            self.merge_first(other, n).children.len() == self.children.len() + n,
            forall|x: NodeView|
                #[trigger] self.merge_first(other, n).children.contains(x) <==> (
                self.children.contains(x) || other.children.take(n as int).contains(x)),
        decreases n,
    {
        self.lemma_merge_first_wf(other, n);
        if n == 0 {
            assert(other.children.take(0).len() == 0);
            assert forall|x: NodeView| !other.children.take(0).contains(x) by {}
        } else {
            let before = self.merge_first(other, (n - 1) as nat);
            let node = other.children[n - 1];
            let after = self.merge_first(other, n);
            assert(after == before.insert(node.key, node.tree));
            self.lemma_merge_first_disjoint(other, (n - 1) as nat);
            self.lemma_merge_first_wf(other, (n - 1) as nat);
            let short = other.children.take(n - 1);
            let long = other.children.take(n as int);
            assert(long =~= short.push(node));
            if before.has_key(node.key) {
                let i = before.index_of(node.key);
                let x = before.children[i];
                assert(before.children.contains(x));
                lemma_text_order_equal(node.key, node.key);
                if self.children.contains(x) {
                    let a = choose|a: int| 0 <= a < self.children.len() && self.children[a] == x;
                    assert(self.children[a].key != other.children[n - 1].key);
                } else {
                    let b = choose|b: int| 0 <= b < short.len() && short[b] == x;
                    assert(short[b] == other.children[b]);
                    assert(text_lt(other.children[b].key, other.children[n - 1].key));
                }
                assert(false);
            }
            let r = before.rank(node.key);
            before.lemma_rank_parts(node.key);
            assert(NodeView { key: node.key, tree: node.tree } == node);
            assert(after.children == before.children.insert(r, node));
            assert forall|x: NodeView| #[trigger]
                after.children.contains(x) <==> (self.children.contains(x) || long.contains(
                    x,
                )) by {
                lemma_insert_contains(before.children, r, node, x);
                lemma_push_contains(short, node, x);
                assert(before.children.contains(x) <==> (self.children.contains(x)
                    || short.contains(x)));
            }
        }
    }

    /// Merging two trees that share no top-level key gives the nodes of
    /// both, each with the tree below it untouched, whichever of the two
    /// is merged into the other.
    pub proof fn lemma_merge_disjoint(self, other: TreeView)
        requires
            self.wf(),
            other.wf(),
            forall|i: int, j: int|
                0 <= i < self.children.len() && 0 <= j < other.children.len() ==> (
                #[trigger] self.children[i]).key != (#[trigger] other.children[j]).key,
        ensures
            self.merge(other) == other.merge(self),
            self.merge(other).wf(),
            self.merge(other).children.len() == self.children.len() + other.children.len(),
            forall|x: NodeView|
                #[trigger] self.merge(other).children.contains(x) <==> (self.children.contains(x)
                    || other.children.contains(x)),
    {
        let ab = self.merge(other);
        let ba = other.merge(self);
        assert(ab == self.merge_first(other, other.children.len()));
        assert(ba == other.merge_first(self, self.children.len()));
        self.lemma_merge_first_disjoint(other, other.children.len());
        assert forall|i: int, j: int|
            0 <= i < other.children.len() && 0 <= j < self.children.len() implies (
        #[trigger] other.children[i]).key != (#[trigger] self.children[j]).key by {
            assert(self.children[j].key != other.children[i].key);
        }
        other.lemma_merge_first_disjoint(self, self.children.len());
        assert(other.children.take(other.children.len() as int) =~= other.children);
        assert(self.children.take(self.children.len() as int) =~= self.children);
        assert forall|x: NodeView| ab.children.contains(x) <==> ba.children.contains(x) by {
            assert(ab.children.contains(x) <==> (self.children.contains(x)
                || other.children.contains(x)));
            assert(ba.children.contains(x) <==> (other.children.contains(x)
                || self.children.contains(x)));
        }
        ab.lemma_sorted_same_nodes(ba);
    }

    /// Among keys of which each comes before the next, each comes before
    /// all that follow.
    pub proof fn lemma_neighbours_sorted(self, i: int, j: int)
        requires
            forall|k: int|
                0 <= k < self.children.len() - 1 ==> text_lt(
                    (#[trigger] self.children[k]).key,
                    self.children[k + 1].key,
                ),
            0 <= i < j < self.children.len(),
        ensures
            text_lt(self.children[i].key, self.children[j].key),
        decreases j - i,
    {
        if i + 1 < j {
            self.lemma_neighbours_sorted(i, j - 1);
            assert(text_lt(self.children[j - 1].key, self.children[j - 1 + 1].key));
            lemma_text_lt_transitive(
                self.children[i].key,
                self.children[j - 1].key,
                self.children[j].key,
            );
        } else {
            assert(text_lt(self.children[i].key, self.children[i + 1].key));
        }
    }

    /// In a sorted level no key stands at two places.
    pub proof fn lemma_index_unique(self, i: int)
        requires
            self.sorted(),
            0 <= i < self.children.len(),
        ensures
            self.has_key(self.children[i].key),
            self.index_of(self.children[i].key) == i,
    {
        let key = self.children[i].key;
        let j = self.index_of(key);
        lemma_text_order_equal(key, key);
        if j < i {
            assert(text_lt(self.children[j].key, self.children[i].key));
        } else if i < j {
            assert(text_lt(self.children[i].key, self.children[j].key));
        }
    }
}

/// A sequence with a node put in holds that node beside those it held.
pub proof fn lemma_insert_contains(s: Seq<NodeView>, r: int, node: NodeView, x: NodeView)
    requires
        0 <= r <= s.len(),
    ensures
        s.insert(r, node).contains(x) <==> (s.contains(x) || x == node),
{
    let after = s.insert(r, node);
    if after.contains(x) {
        let k = choose|k: int| 0 <= k < after.len() && after[k] == x;
        if k < r {
            assert(s[k] == x);
        } else if k > r {
            assert(s[k - 1] == x);
        }
    }
    if s.contains(x) {
        let k = choose|k: int| 0 <= k < s.len() && s[k] == x;
        let k2 = if k < r { k } else { k + 1 };
        assert(after[k2] == x);
    }
    if x == node {
        assert(after[r] == x);
    }
}

/// A sequence with a node added at its end holds that node beside those
/// it held.
pub proof fn lemma_push_contains(s: Seq<NodeView>, node: NodeView, x: NodeView)
    ensures
        s.push(node).contains(x) <==> (s.contains(x) || x == node),
{
    let after = s.push(node);
    if after.contains(x) {
        let k = choose|k: int| 0 <= k < after.len() && after[k] == x;
        if k < s.len() {
            assert(s[k] == x);
        }
    }
    if s.contains(x) {
        let k = choose|k: int| 0 <= k < s.len() && s[k] == x;
        assert(after[k] == x);
    }
    if x == node {
        assert(after[s.len() as int] == x);
    }
}

/// A key with the tree below it, if any.
#[derive(Debug)]
pub struct KeyTree {
    pub key: String,
    pub tree: Option<Tree>,
}

/// An ordered tree of keys.
#[derive(Debug)]
pub struct Tree {
    m_children: Vec<KeyTree>,
}

/// The view of the tree below a key, if there is one.
pub open spec fn subtree_view(tree: Option<Tree>) -> Option<TreeView> {
    match tree {
        Some(t) => Some(t@),
        None => None,
    }
}

/// The views of a sequence of nodes, one for one.
pub open spec fn nodes_view(nodes: Seq<KeyTree>) -> Seq<NodeView> {
    Seq::new(nodes.len(), |i: int| nodes[i]@)
}

impl KeyTree {
    /// The node as a mathematical value.
    pub open spec fn model(&self) -> NodeView
        decreases self,
    {
        NodeView {
            key: self.key@,
            tree: match self.tree {
                Some(t) => Some(t.model()),
                None => None,
            },
        }
    }
}

impl View for KeyTree {
    type V = NodeView;

    open spec fn view(&self) -> NodeView {
        self.model()
    }
}

impl View for Tree {
    type V = TreeView;

    open spec fn view(&self) -> TreeView {
        self.model()
    }
}

impl Tree {
    /// The tree as a mathematical value: the models of its nodes, in order.
    pub closed spec fn model(&self) -> TreeView
        decreases self,
    {
        TreeView {
            children: Seq::new(
                self.m_children.len() as nat,
                |i: int|
                    if 0 <= i < self.m_children.len() {
                        self.m_children[i].model()
                    } else {
                        arbitrary()
                    },
            ),
        }
    }

    /// The keys are strictly ascending at every level.
    pub open spec fn wf(&self) -> bool {
        self@.wf()
    }

    /// A tree without keys.
    pub fn new() -> (t: Tree)
        ensures
            t@ == TreeView::empty(),
            t.wf(),
    {
        let t = Tree { m_children: Vec::new() };
        assert(t@.children =~= Seq::empty());
        t
    }

    /// The view holds the views of the nodes, one for one.
    proof fn lemma_view(&self)
        ensures
            self@.children == nodes_view(self.m_children@),
            self@.children.len() == self.m_children.len(),
            forall|i: int|
                0 <= i < self.m_children.len() ==> #[trigger] self@.children[i]
                    == self.m_children[i]@,
    {
        assert(self@.children =~= nodes_view(self.m_children@));
    }

    /// Binary search for `key` among the keys of the top level: the place
    /// of the key, or else the place where it would stand.
    fn search(&self, key: &String) -> (r: Result<usize, usize>)
        requires
            self@.sorted(),
        ensures
            match r {
                Ok(i) => {
                    &&& i < self@.children.len()
                    &&& self@.children[i as int].key == key@
                    &&& self@.has_key(key@)
                    &&& self@.index_of(key@) == i
                },
                Err(i) => {
                    &&& i <= self@.children.len()
                    &&& !self@.has_key(key@)
                    &&& self@.rank(key@) == i
                    &&& forall|j: int| 0 <= j < i ==> text_lt(#[trigger] self@.children[j].key, key@)
                    &&& forall|j: int|
                        i <= j < self@.children.len() ==> text_lt(
                            key@,
                            #[trigger] self@.children[j].key,
                        )
                },
            },
    {
        proof {
            self.lemma_view();
        }
        let mut lo: usize = 0;
        let mut hi: usize = self.m_children.len();
        while lo < hi
            invariant
                self@.sorted(),
                self@.children.len() == self.m_children.len(),
                forall|i: int|
                    0 <= i < self.m_children.len() ==> #[trigger] self@.children[i]
                        == self.m_children[i]@,
                lo <= hi <= self.m_children.len(),
                forall|j: int| 0 <= j < lo ==> text_lt(#[trigger] self@.children[j].key, key@),
                forall|j: int|
                    hi <= j < self@.children.len() ==> text_lt(
                        key@,
                        #[trigger] self@.children[j].key,
                    ),
            decreases hi - lo,
        {
            let mid: usize = lo + (hi - lo) / 2;
            let probe = &self.m_children[mid].key;
            assert(self@.children[mid as int].key == probe@);
            match compare_text(probe.as_str(), key.as_str()) {
                Comparison::Less => {
                    proof {
                        assert forall|j: int| 0 <= j < mid + 1 implies text_lt(
                            #[trigger] self@.children[j].key,
                            key@,
                        ) by {
                            if j < mid {
                                lemma_text_lt_transitive(
                                    self@.children[j].key,
                                    self@.children[mid as int].key,
                                    key@,
                                );
                            }
                        }
                    }
                    lo = mid + 1;
                },
                Comparison::Equal => {
                    proof {
                        lemma_text_order_equal(probe@, key@);
                        self@.lemma_index_unique(mid as int);
                    }
                    return Ok(mid);
                },
                Comparison::Greater => {
                    proof {
                        lemma_text_order_flip(probe@, key@);
                        assert forall|j: int| mid <= j < self@.children.len() implies text_lt(
                            key@,
                            #[trigger] self@.children[j].key,
                        ) by {
                            if mid < j {
                                lemma_text_lt_transitive(
                                    key@,
                                    self@.children[mid as int].key,
                                    self@.children[j].key,
                                );
                            }
                        }
                    }
                    hi = mid;
                },
            }
        }
        proof {
            assert forall|j: int| 0 <= j < self@.children.len() implies #[trigger] self@.children[j].key
                != key@ by {
                lemma_text_order_equal(key@, key@);
                if j < lo {
                    lemma_text_order_flip(self@.children[j].key, key@);
                }
            }
            assert forall|j: int| lo <= j < self@.children.len() implies !text_lt(
                #[trigger] self@.children[j].key,
                key@,
            ) by {
                lemma_text_order_flip(self@.children[j].key, key@);
            }
            self@.lemma_rank(key@, lo as int);
        }
        Err(lo)
    }

    /// The tree below `s`, where `s` is a key of the top level and has one.
    pub fn get_child(&self, s: &String) -> (r: Option<&Tree>)
        requires
            self.wf(),
        ensures
            match r {
                Some(t) => self@.child(s@) == Some(t@) && t.wf(),
                None => self@.child(s@) is None,
            },
    {
        proof {
            self.lemma_view();
        }
        match self.search(s) {
            Ok(idx) => {
                assert(self@.children[idx as int] == self.m_children[idx as int]@);
                match &self.m_children[idx].tree {
                    Some(t) => Some(t),
                    None => None,
                }
            },
            Err(_) => None,
        }
    }

    /// Mutable access to the tree below `s`, where `s` is a key of the top
    /// level and has one. The tree that is left holds whatever the caller
    /// leaves below `s`.
    pub fn get_child_mut(&mut self, s: &String) -> (r: Option<&mut Tree>)
        requires
            old(self).wf(),
        ensures
            match r {
                Some(t) => {
                    &&& old(self)@.child(s@) == Some(t@)
                    &&& t.wf()
                    &&& final(self)@ == old(self)@.set_child(s@, final(t)@)
                    &&& final(t).wf() ==> final(self).wf()
                },
                None => old(self)@.child(s@) is None && final(self)@ == old(self)@,
            },
    {
        proof {
            self.lemma_view();
        }
        match self.search(s) {
            Ok(idx) => {
                assert(self@.children[idx as int] == self.m_children[idx as int]@);
                let ghost pre = self@;
                let ghost post = *final(self);
                proof {
                    post.lemma_view();
                    assert forall|x: TreeView| x.wf() implies (#[trigger] pre.set_child(
                        s@,
                        x,
                    )).wf() by {
                        pre.lemma_set_child_wf(s@, x);
                    }
                }
                match &mut self.m_children[idx].tree {
                    Some(t) => {
                        assert(post@.children =~= pre.set_child(s@, final(t)@).children);
                        Some(t)
                    },
                    None => {
                        assert(post@.children =~= pre.children);
                        None
                    },
                }
            },
            Err(_) => None,
        }
    }

    /// Mutable access to the tree below `s`, after `s` was given one: a key
    /// that is there keeps its tree or gets an empty one, a new key comes
    /// in at its sorted place with an empty tree. The tree that is left
    /// holds whatever the caller leaves below `s`.
    pub fn make_child(&mut self, s: &String) -> (r: &mut Tree)
        requires
            old(self).wf(),
        ensures
            old(self)@.make_child(s@).wf(),
            old(self)@.make_child(s@).has_key(s@),
            old(self)@.make_child(s@).child(s@) == Some(r@),
            r.wf(),
            final(self)@ == old(self)@.make_child(s@).set_child(s@, final(r)@),
            final(r).wf() ==> final(self).wf(),
    {
        proof {
            self.lemma_view();
        }
        let ghost pre = self@;
        let idx: usize = match self.search(s) {
            Ok(idx) => {
                assert(pre.children[idx as int] == self.m_children[idx as int]@);
                if self.m_children[idx].tree.is_none() {
                    self.m_children[idx].tree = Some(Tree::new());
                    proof {
                        self.lemma_view();
                        assert(self@.children =~= pre.make_child(s@).children);
                        pre.lemma_set_child_wf(s@, TreeView::empty());
                    }
                }
                idx
            },
            Err(idx) => {
                self.m_children.insert(idx, KeyTree { key: s.clone(), tree: Some(Tree::new()) });
                proof {
                    self.lemma_view();
                    assert(self@.children =~= pre.make_child(s@).children);
                    pre.lemma_insert_wf(s@, Some(TreeView::empty()));
                }
                idx
            },
        };
        let ghost mid = self@;
        let ghost post = *final(self);
        proof {
            self.lemma_view();
            post.lemma_view();
            assert(mid == pre.make_child(s@));
            assert(mid.children[idx as int].key == s@);
            mid.lemma_index_unique(idx as int);
        }
        proof {
            assert forall|x: TreeView| x.wf() implies (#[trigger] mid.set_child(s@, x)).wf() by {
                mid.lemma_set_child_wf(s@, x);
            }
        }
        let t = self.m_children[idx].tree.as_mut().unwrap();
        assert(post@.children =~= mid.set_child(s@, final(t)@).children);
        t
    }

    /// Removes `key` and all that is below it; a key that is not there
    /// leaves the tree as it is.
    pub fn remove_child(&mut self, key: &String)
        requires
            old(self).wf(),
        ensures
            final(self)@ == old(self)@.remove(key@),
            final(self).wf(),
    {
        proof {
            self.lemma_view();
        }
        let ghost pre = self@;
        match self.search(key) {
            Ok(idx) => {
                self.m_children.remove(idx);
                proof {
                    self.lemma_view();
                    assert(self@.children =~= pre.remove(key@).children);
                    pre.lemma_remove_wf(key@);
                }
            },
            Err(_) => {},
        }
    }

    /// Gives the key `old_key` the name `new_key`, at the same place and
    /// with the same tree below it. The level is not sorted again: the
    /// result is well-formed only where the new key fits in that place.
    /// A key that is not there leaves the tree as it is.
    pub fn rename_key(&mut self, old_key: &String, new_key: String) -> (r: &mut Tree)
        requires
            old(self).wf(),
        ensures
            r@ == old(self)@.rename(old_key@, new_key@),
            final(self)@ == final(r)@,
    {
        proof {
            self.lemma_view();
        }
        let ghost pre = self@;
        match self.search(old_key) {
            Ok(idx) => {
                assert(pre.children[idx as int] == self.m_children[idx as int]@);
                self.m_children[idx].key = new_key;
                proof {
                    self.lemma_view();
                    assert(self@.children =~= pre.rename(old_key@, new_key@).children);
                }
            },
            Err(_) => {},
        }
        self
    }

    /// Inserts the pair of `key` and `tree`. A key that is there has `tree`
    /// merged into what is below it; a new key comes in at its sorted
    /// place, with `tree` below it.
    pub fn insert_key(&mut self, key: String, tree: Option<Tree>) -> (r: &mut Tree)
        requires
            old(self).wf(),
            tree is Some ==> tree->0.wf(),
        ensures
            r@ == old(self)@.insert(key@, subtree_view(tree)),
            r.wf(),
            final(self)@ == final(r)@,
        decreases tree,
    {
        proof {
            self.lemma_view();
        }
        let ghost pre = self@;
        let ghost sub = subtree_view(tree);
        proof {
            pre.lemma_insert_wf(key@, sub);
        }
        match self.search(&key) {
            Ok(idx) => {
                assert(pre.children[idx as int] == self.m_children[idx as int]@);
                if let Some(t2) = tree {
                    if let Some(t1) = &mut self.m_children[idx].tree {
                        t1.merge(t2);
                    } else {
                        self.m_children[idx].tree = Some(t2);
                    }
                    proof {
                        self.lemma_view();
                        assert(self@.children =~= pre.insert(key@, sub).children);
                    }
                }
            },
            Err(idx) => {
                self.m_children.insert(idx, KeyTree { key, tree });
                proof {
                    self.lemma_view();
                    assert(self@.children =~= pre.insert(key@, sub).children);
                }
            },
        }
        self
    }

    /// Inserts every pair of `t`, in order: the union of both trees, with
    /// the trees below shared keys merged in turn.
    pub fn merge(&mut self, t: Tree) -> (r: &mut Tree)
        requires
            old(self).wf(),
            t.wf(),
        ensures
            r@ == old(self)@.merge(t@),
            r.wf(),
            final(self)@ == final(r)@,
        decreases t,
    {
        proof {
            t.lemma_view();
        }
        let ghost pre = self@;
        let ghost other = t@;
        for node in it: t.m_children
            invariant
                other.wf(),
                self.wf(),
                it.seq().len() == other.children.len(),
                forall|i: int| 0 <= i < it.seq().len() ==> (#[trigger] it.seq()[i])@ == other.children[i],
                self@ == pre.merge_first(other, it.index() as nat),
        {
            let KeyTree { key, tree } = node;
            self.insert_key(key, tree);
        }
        self
    }

    /// The tree reached by descending along `branch`, key by key; none
    /// where a key of the branch is missing or has no tree below it.
    pub fn get_subtree(&self, branch: &[String]) -> (r: Option<&Tree>)
        requires
            self.wf(),
        ensures
            match r {
                Some(t) => self@.lookup(path_view(branch@)) == Some(t@) && t.wf(),
                None => self@.lookup(path_view(branch@)) is None,
            },
        decreases branch@.len(),
    {
        if branch.len() == 0 {
            return Some(self);
        }
        let ghost path = path_view(branch@);
        let rest = &branch[1..branch.len()];
        assert(path_view(rest@) =~= path.drop_first());
        assert(path[0] == branch[0]@);
        match self.get_child(&branch[0]) {
            Some(child) => child.get_subtree(rest),
            None => None,
        }
    }

    /// Whether every key of `branch` is there, one below the other, each
    /// with a tree below it.
    pub fn has_subtree(&self, branch: &[String]) -> (r: bool)
        requires
            self.wf(),
        ensures
            r == (self@.lookup(path_view(branch@)) is Some),
        decreases branch@.len(),
    {
        if branch.len() == 0 {
            return true;
        }
        let ghost path = path_view(branch@);
        let rest = &branch[1..branch.len()];
        assert(path_view(rest@) =~= path.drop_first());
        assert(path[0] == branch[0]@);
        match self.get_child(&branch[0]) {
            Some(child) => child.has_subtree(rest),
            None => false,
        }
    }

    /// Mutable access to the tree reached by descending along `branch`.
    /// Every key of the branch must be there, with a tree below it.
    pub fn get_subtree_mut(&mut self, branch: &[String]) -> (r: &mut Tree)
        requires
            old(self).wf(),
            old(self)@.lookup(path_view(branch@)) is Some,
        ensures
            old(self)@.lookup(path_view(branch@)) == Some(r@),
            r.wf(),
            final(self)@ == old(self)@.set_at(path_view(branch@), final(r)@),
            final(r).wf() ==> final(self).wf(),
        decreases branch@.len(),
    {
        if branch.len() == 0 {
            return self;
        }
        let ghost path = path_view(branch@);
        let rest = &branch[1..branch.len()];
        assert(path_view(rest@) =~= path.drop_first());
        assert(path[0] == branch[0]@);
        let child = self.get_child_mut(&branch[0]).unwrap();
        child.get_subtree_mut(rest)
    }

    /// Mutable access to the tree reached by descending along `branch`,
    /// after each key of the branch was given a tree below it.
    pub fn make_subtree(&mut self, branch: &[String]) -> (r: &mut Tree)
        requires
            old(self).wf(),
        ensures
            old(self)@.make_path(path_view(branch@)).lookup(path_view(branch@)) == Some(r@),
            r.wf(),
            final(self)@ == old(self)@.make_path(path_view(branch@)).set_at(
                path_view(branch@),
                final(r)@,
            ),
            final(r).wf() ==> final(self).wf(),
        decreases branch@.len(),
    {
        if branch.len() == 0 {
            return self;
        }
        let ghost pre = self@;
        let ghost path = path_view(branch@);
        let rest = &branch[1..branch.len()];
        assert(path_view(rest@) =~= path.drop_first());
        assert(path[0] == branch[0]@);
        let child = self.make_child(&branch[0]);
        let ghost below = child@;
        proof {
            let made = pre.make_child(path[0]);
            let grown = below.make_path(path.drop_first());
            below.lemma_make_path_wf(path.drop_first());
            made.lemma_set_child_wf(path[0], grown);
            made.lemma_child_of_set_child(path[0], grown);
            assert forall|t: TreeView|
                made.set_child(path[0], grown).set_child(path[0], #[trigger] grown.set_at(path.drop_first(), t))
                    == made.set_child(path[0], grown.set_at(path.drop_first(), t)) by {
                made.lemma_set_child_twice(path[0], grown, grown.set_at(path.drop_first(), t));
            }
        }
        child.make_subtree(rest)
    }

    /// Sorts every level by key. Nodes with equal keys keep their order,
    /// so a tree that is ascending already stays as it is.
    pub fn normalize_tree(&mut self)
        ensures
            final(self)@ == old(self)@.normalize(),
            final(self)@.ascending(),
            old(self)@.distinct() ==> final(self).wf(),
        decreases *old(self),
    {
        proof {
            self.lemma_view();
            if self@.distinct() {
                self@.lemma_normalize_distinct();
            }
        }
        let ghost pre = self@;
        let mut nodes: Vec<KeyTree> = Vec::new();
        std::mem::swap(&mut self.m_children, &mut nodes);
        let ghost taken = nodes@;
        let mut sorted: Vec<KeyTree> = Vec::new();
        proof {
            assert(nodes_view(sorted@) =~= pre.normalize_first(0).children);
        }
        for node in it: nodes
            invariant
                it.seq() == taken,
                taken == old(self).m_children@,
                pre.children == nodes_view(taken),
                nodes_view(sorted@) == pre.normalize_first(it.index() as nat).children,
        {
            let ghost i = it.index();
            let mut node = node;
            assert(node == taken[i]);
            assert(pre.children[i] == taken[i]@);
            if let Some(t) = &mut node.tree {
                t.normalize_tree();
            }
            let ghost done = pre.normalize_first(i as nat);
            proof {
                pre.lemma_normalize_first_ascending(i as nat);
                done.lemma_upper_rank_parts(node.key@);
            }
            let mut pos: usize = 0;
            let mut found: bool = false;
            while pos < sorted.len() && !found
                invariant
                    pos <= sorted.len(),
                    found ==> pos < sorted.len() && text_lt(
                        node.key@,
                        done.children[pos as int].key,
                    ),
                    nodes_view(sorted@) == done.children,
                    forall|j: int| 0 <= j < pos ==> !text_lt(node.key@, #[trigger] done.children[j].key),
                    done.ascending(),
                    0 <= done.upper_rank(node.key@) <= done.children.len(),
                    forall|j: int|
                        0 <= j < done.upper_rank(node.key@) ==> !text_lt(
                            node.key@,
                            #[trigger] done.children[j].key,
                        ),
                    forall|j: int|
                        done.upper_rank(node.key@) <= j < done.children.len() ==> text_lt(
                            node.key@,
                            #[trigger] done.children[j].key,
                        ),
                decreases sorted.len() - pos + if found { 0int } else { 1int },
            {
                assert(done.children[pos as int] == sorted[pos as int]@);
                match compare_text(node.key.as_str(), sorted[pos].key.as_str()) {
                    Comparison::Less => {
                        found = true;
                    },
                    _ => {
                        pos = pos + 1;
                    },
                }
            }
            proof {
                if pos < done.upper_rank(node.key@) {
                    assert(done.children[pos as int] == sorted[pos as int]@);
                    assert(!text_lt(node.key@, done.children[pos as int].key));
                }
                if pos > done.upper_rank(node.key@) {
                    assert(text_lt(node.key@, done.children[done.upper_rank(node.key@)].key));
                }
                assert(pos == done.upper_rank(node.key@));
            }
            let ghost before = sorted@;
            sorted.insert(pos, node);
            proof {
                assert(nodes_view(sorted@) =~= nodes_view(before).insert(pos as int, node@));
            }
        }
        self.m_children = sorted;
        proof {
            self.lemma_view();
            pre.lemma_normalize_first_ascending(pre.children.len());
        }
    }

    /// The nodes of the top level, in order.
    pub closed spec fn nodes(&self) -> Seq<KeyTree> {
        self.m_children@
    }

    /// The view of the tree is the views of its nodes.
    pub proof fn lemma_nodes(&self)
        ensures
            self@.children == nodes_view(self.nodes()),
    {
        self.lemma_view();
    }

    /// Each node is smaller than the tree that holds it: recursion into
    /// the nodes ends.
    pub proof fn lemma_nodes_decrease(&self, i: int)
        requires
            0 <= i < self.nodes().len(),
        ensures
            decreases_to!(self => self.nodes()[i]),
    {
    }

    /// An iterator over the nodes of the top level, in order.
    pub fn iter(&self) -> (it: std::slice::Iter<'_, KeyTree>)
        ensures
            vstd::std_specs::iter::IteratorSpec::remaining(&it) == self.nodes().as_ref(),
            vstd::std_specs::iter::IteratorSpec::decrease(&it) is Some,
            vstd::std_specs::iter::IteratorSpec::initial_value_relation(&it, &it),
    {
        self.m_children.as_slice().iter()
    }

    /// The keys of the top level, in order.
    pub fn get_keys(&self) -> (res: Vec<&String>)
        ensures
            res@.len() == self@.keys().len(),
            forall|i: int| 0 <= i < res@.len() ==> (#[trigger] res@[i])@ == self@.keys()[i],
    {
        proof {
            self.lemma_view();
        }
        let mut res: Vec<&String> = Vec::new();
        let mut i: usize = 0;
        while i < self.m_children.len()
            invariant
                i <= self.m_children.len(),
                res@.len() == i,
                self@.children.len() == self.m_children.len(),
                forall|k: int|
                    0 <= k < self.m_children.len() ==> #[trigger] self@.children[k]
                        == self.m_children[k]@,
                forall|k: int| 0 <= k < i ==> (#[trigger] res@[k])@ == self@.children[k].key,
            decreases self.m_children.len() - i,
        {
            res.push(&self.m_children[i].key);
            i = i + 1;
        }
        res
    }

    /// Whether the keys are strictly ascending at every level.
    pub fn is_well_formed(&self) -> (r: bool)
        ensures
            r == self.wf(),
        decreases self,
    {
        proof {
            self.lemma_view();
        }
        let n: usize = self.m_children.len();
        let mut i: usize = 0;
        while i < n
            invariant
                i <= n,
                n == self.m_children.len(),
                self@.children.len() == n,
                forall|k: int|
                    0 <= k < n ==> #[trigger] self@.children[k] == self.m_children[k]@,
                forall|k: int|
                    0 <= k < i && k < n - 1 ==> text_lt(
                        (#[trigger] self@.children[k]).key,
                        self@.children[k + 1].key,
                    ),
                forall|k: int|
                    0 <= k < i ==> match (#[trigger] self@.children[k]).tree {
                        Some(t) => t.wf(),
                        None => true,
                    },
            decreases n - i,
        {
            assert(self@.children[i as int] == self.m_children[i as int]@);
            if i + 1 < n {
                assert(self@.children[i + 1] == self.m_children[i + 1]@);
                match compare_text(self.m_children[i].key.as_str(), self.m_children[i + 1].key.as_str()) {
                    Comparison::Less => {},
                    _ => {
                        assert(!text_lt(self@.children[i as int].key, self@.children[i + 1].key));
                        return false;
                    },
                }
            }
            if let Some(t) = &self.m_children[i].tree {
                if !t.is_well_formed() {
                    return false;
                }
            }
            i = i + 1;
        }
        proof {
            assert forall|a: int, b: int| 0 <= a < b < self@.children.len() implies text_lt(
                #[trigger] self@.children[a].key,
                #[trigger] self@.children[b].key,
            ) by {
                self@.lemma_neighbours_sorted(a, b);
            }
        }
        true
    }

    /// The number of keys of the top level.
    pub fn num_keys(&self) -> (n: usize)
        ensures
            n == self@.children.len(),
    {
        proof {
            self.lemma_view();
        }
        self.m_children.len()
    }
}

} // verus!
