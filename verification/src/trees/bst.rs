use vstd::multiset::Multiset;
use vstd::prelude::*;

verus! {

broadcast use vstd::multiset::group_multiset_axioms;

/// An unbalanced binary search tree of `i64` values.
///
/// Values smaller than a node go to its left subtree; values greater than or
/// equal to it go to its right subtree, so duplicates are kept on the right.
pub struct BinarySearchTree {
    pub val: i64,
    pub left: Option<Box<BinarySearchTree>>,
    pub right: Option<Box<BinarySearchTree>>,
}

/// The values held by an optional subtree, with their multiplicities.
pub open spec fn subtree_contents(t: Option<Box<BinarySearchTree>>) -> Multiset<i64> {
    match t {
        Some(n) => n.contents(),
        None => Multiset::empty(),
    }
}

/// An absent subtree is well formed; a present one must be a well-formed tree.
pub open spec fn subtree_wf(t: Option<Box<BinarySearchTree>>) -> bool {
    match t {
        Some(n) => n.wf(),
        None => true,
    }
}

impl BinarySearchTree {
    /// The values held by the tree, with their multiplicities.
    pub open spec fn contents(self) -> Multiset<i64>
        decreases self,
    {
        let l = match self.left {
            Some(l) => l.contents(),
            None => Multiset::empty(),
        };
        let r = match self.right {
            Some(r) => r.contents(),
            None => Multiset::empty(),
        };
        l.add(r).insert(self.val)
    }

    /// The search-tree order: everything left of a node is smaller than it,
    /// everything right of it is at least as large, at every node.
    pub open spec fn wf(self) -> bool
        decreases self,
    {
        &&& forall|x: i64| #[trigger] subtree_contents(self.left).contains(x) ==> x < self.val
        &&& forall|x: i64| #[trigger] subtree_contents(self.right).contains(x) ==> self.val <= x
        &&& match self.left {
            Some(l) => l.wf(),
            None => true,
        }
        &&& match self.right {
            Some(r) => r.wf(),
            None => true,
        }
    }

    /// A tree of one node.
    pub open spec fn leaf(v: i64) -> BinarySearchTree {
        BinarySearchTree { val: v, left: None, right: None }
    }

    /// Whether the search for `v` (left when `v` is smaller than the node,
    /// right when it is larger) reaches a node that holds `v`.
    pub open spec fn finds(self, v: i64) -> bool
        decreases self,
    {
        if self.val > v {
            match self.left {
                Some(l) => l.finds(v),
                None => false,
            }
        } else if self.val < v {
            match self.right {
                Some(r) => r.finds(v),
                None => false,
            }
        } else {
            true
        }
    }

    /// The number of edges that the search for `v` follows before it stops.
    pub open spec fn depth(self, v: i64) -> nat
        decreases self,
    {
        if self.val > v {
            match self.left {
                Some(l) => 1 + l.depth(v),
                None => 0,
            }
        } else if self.val < v {
            match self.right {
                Some(r) => 1 + r.depth(v),
                None => 0,
            }
        } else {
            0
        }
    }

    /// The tree after `v` is added as a new leaf at the end of its search path
    /// (going right on equality).
    pub open spec fn inserted(self, v: i64) -> BinarySearchTree
        decreases self,
    {
        if self.val > v {
            let new_left = match self.left {
                Some(l) => l.inserted(v),
                None => BinarySearchTree::leaf(v),
            };
            BinarySearchTree { left: Some(Box::new(new_left)), ..self }
        } else {
            let new_right = match self.right {
                Some(r) => r.inserted(v),
                None => BinarySearchTree::leaf(v),
            };
            BinarySearchTree { right: Some(Box::new(new_right)), ..self }
        }
    }

    /// The tree after `node` is hung below its leftmost node.
    pub open spec fn with_leftmost(self, node: BinarySearchTree) -> BinarySearchTree
        decreases self,
    {
        match self.left {
            Some(l) => BinarySearchTree { left: Some(Box::new(l.with_leftmost(node))), ..self },
            None => BinarySearchTree { left: Some(Box::new(node)), ..self },
        }
    }

    /// What takes the place of `n` when `n` is unlinked from its parent: its
    /// right subtree with its left subtree hung below the leftmost node, or
    /// whichever subtree exists.
    pub open spec fn spliced(n: BinarySearchTree) -> Option<Box<BinarySearchTree>> {
        match n.right {
            Some(r) => match n.left {
                Some(ll) => Some(Box::new(r.with_leftmost(*ll))),
                None => Some(r),
            },
            None => n.left,
        }
    }

    /// Whether deleting `v` unlinks a node: the search below the root meets a
    /// child that holds `v`.
    pub open spec fn deletes(self, v: i64) -> bool
        decreases self,
    {
        if self.val > v {
            match self.left {
                Some(l) => l.val == v || l.deletes(v),
                None => false,
            }
        } else {
            match self.right {
                Some(r) => r.val == v || r.deletes(v),
                None => false,
            }
        }
    }

    /// The tree after deleting `v`: the first child on the search path that
    /// holds `v` is unlinked and replaced by `spliced` of it; the root itself
    /// is never removed.
    pub open spec fn deleted(self, v: i64) -> BinarySearchTree
        decreases self,
    {
        if self.val > v {
            match self.left {
                Some(l) => if l.val == v {
                    BinarySearchTree { left: BinarySearchTree::spliced(*l), ..self }
                } else {
                    BinarySearchTree { left: Some(Box::new(l.deleted(v))), ..self }
                },
                None => self,
            }
        } else {
            match self.right {
                Some(r) => if r.val == v {
                    BinarySearchTree { right: BinarySearchTree::spliced(*r), ..self }
                } else {
                    BinarySearchTree { right: Some(Box::new(r.deleted(v))), ..self }
                },
                None => self,
            }
        }
    }

    // ---------------------------------------------------------------------
    // Lemmas
    // ---------------------------------------------------------------------

    /// A tree's values are its subtrees' values and its own.
    proof fn lemma_contents_unfold(self)
        ensures
            self.contents() == subtree_contents(self.left).add(subtree_contents(self.right)).insert(
                self.val,
            ),
            self.contents().contains(self.val),
    {
    }

    /// Inserting adds exactly one occurrence of the value.
    proof fn lemma_inserted_contents(self, v: i64)
        ensures
            self.inserted(v).contents() =~= self.contents().insert(v),
        decreases self,
    {
        let ni = self.inserted(v);
        self.lemma_contents_unfold();
        ni.lemma_contents_unfold();
        BinarySearchTree::leaf(v).lemma_contents_unfold();
        if self.val > v {
            match self.left {
                Some(l) => {
                    l.lemma_inserted_contents(v);
                },
                None => {},
            }
        } else {
            match self.right {
                Some(r) => {
                    r.lemma_inserted_contents(v);
                },
                None => {},
            }
        }
    }

    /// The search-tree order, one node at a time.
    proof fn lemma_wf_unfold(self)
        ensures
            self.wf() <==> {
                &&& forall|x: i64|
                    #[trigger] subtree_contents(self.left).contains(x) ==> x < self.val
                &&& forall|x: i64|
                    #[trigger] subtree_contents(self.right).contains(x) ==> self.val <= x
                &&& subtree_wf(self.left)
                &&& subtree_wf(self.right)
            },
    {
    }

    /// Inserting keeps the search-tree order.
    proof fn lemma_inserted_wf(self, v: i64)
        requires
            self.wf(),
        ensures
            self.inserted(v).wf(),
        decreases self,
    {
        let ni = self.inserted(v);
        self.lemma_wf_unfold();
        ni.lemma_wf_unfold();
        BinarySearchTree::leaf(v).lemma_contents_unfold();
        if self.val > v {
            match self.left {
                Some(l) => {
                    l.lemma_inserted_wf(v);
                    l.lemma_inserted_contents(v);
                    assert forall|x: i64| #[trigger]
                        subtree_contents(ni.left).contains(x) implies x < self.val by {
                        assert(subtree_contents(self.left).contains(x) || x == v);
                    }
                },
                None => {
                    assert forall|x: i64| #[trigger]
                        subtree_contents(ni.left).contains(x) implies x < self.val by {
                        assert(x == v);
                    }
                },
            }
        } else {
            match self.right {
                Some(r) => {
                    r.lemma_inserted_wf(v);
                    r.lemma_inserted_contents(v);
                    assert forall|x: i64| #[trigger]
                        subtree_contents(ni.right).contains(x) implies self.val <= x by {
                        assert(subtree_contents(self.right).contains(x) || x == v);
                    }
                },
                None => {
                    assert forall|x: i64| #[trigger]
                        subtree_contents(ni.right).contains(x) implies self.val <= x by {
                        assert(x == v);
                    }
                },
            }
        }
    }

    /// Hanging `node` below the leftmost node adds its values.
    proof fn lemma_with_leftmost_contents(self, node: BinarySearchTree)
        ensures
            self.with_leftmost(node).contents() =~= self.contents().add(node.contents()),
        decreases self,
    {
        self.lemma_contents_unfold();
        self.with_leftmost(node).lemma_contents_unfold();
        match self.left {
            Some(l) => {
                l.lemma_with_leftmost_contents(node);
            },
            None => {},
        }
    }

    /// Hanging a tree of smaller values below the leftmost node keeps the order.
    proof fn lemma_with_leftmost_wf(self, node: BinarySearchTree, bound: i64)
        requires
            self.wf(),
            node.wf(),
            forall|x: i64| #[trigger] node.contents().contains(x) ==> x < bound,
            forall|y: i64| #[trigger] self.contents().contains(y) ==> bound <= y,
        ensures
            self.with_leftmost(node).wf(),
        decreases self,
    {
        let nt = self.with_leftmost(node);
        self.lemma_contents_unfold();
        self.lemma_wf_unfold();
        nt.lemma_wf_unfold();
        assert(bound <= self.val);
        match self.left {
            Some(l) => {
                l.lemma_contents_unfold();
                assert forall|y: i64| #[trigger] l.contents().contains(y) implies bound <= y by {
                    assert(subtree_contents(self.left).contains(y));
                    assert(self.contents().contains(y));
                }
                l.lemma_with_leftmost_wf(node, bound);
                l.lemma_with_leftmost_contents(node);
                assert forall|x: i64| #[trigger]
                    subtree_contents(nt.left).contains(x) implies x < self.val by {
                    if !subtree_contents(self.left).contains(x) {
                        assert(node.contents().contains(x));
                    }
                }
            },
            None => {
                assert forall|x: i64| #[trigger]
                    subtree_contents(nt.left).contains(x) implies x < self.val by {
                    assert(node.contents().contains(x));
                }
            },
        }
    }

    /// Unlinking a node leaves its values but one occurrence of its own.
    proof fn lemma_spliced_contents(n: BinarySearchTree)
        ensures
            subtree_contents(BinarySearchTree::spliced(n)) =~= n.contents().remove(n.val),
    {
        match n.right {
            Some(r) => match n.left {
                Some(ll) => {
                    r.lemma_with_leftmost_contents(*ll);
                },
                None => {},
            },
            None => {},
        }
    }

    /// Unlinking a node of a well-formed tree leaves a well-formed subtree.
    proof fn lemma_spliced_wf(n: BinarySearchTree)
        requires
            n.wf(),
        ensures
            subtree_wf(BinarySearchTree::spliced(n)),
    {
        n.lemma_wf_unfold();
        match n.right {
            Some(r) => match n.left {
                Some(ll) => {
                    assert forall|x: i64| #[trigger] ll.contents().contains(x) implies x < n.val by {
                        assert(subtree_contents(n.left).contains(x));
                    }
                    assert forall|y: i64| #[trigger] r.contents().contains(y) implies n.val <= y by {
                        assert(subtree_contents(n.right).contains(y));
                    }
                    r.lemma_with_leftmost_wf(*ll, n.val);
                },
                None => {},
            },
            None => {},
        }
    }

    /// Deleting removes one occurrence of the value exactly when `deletes` holds.
    proof fn lemma_deleted_contents(self, v: i64)
        ensures
            self.deleted(v).contents() =~= (if self.deletes(v) {
                self.contents().remove(v)
            } else {
                self.contents()
            }),
        decreases self,
    {
        if self.val > v {
            match self.left {
                Some(l) => {
                    if l.val == v {
                        BinarySearchTree::lemma_spliced_contents(*l);
                        assert(l.contents().contains(v));
                    } else {
                        l.lemma_deleted_contents(v);
                        if l.deletes(v) {
                            l.lemma_deletes_contained(v);
                        }
                    }
                },
                None => {},
            }
        } else {
            match self.right {
                Some(r) => {
                    if r.val == v {
                        BinarySearchTree::lemma_spliced_contents(*r);
                        assert(r.contents().contains(v));
                    } else {
                        r.lemma_deleted_contents(v);
                        if r.deletes(v) {
                            r.lemma_deletes_contained(v);
                        }
                    }
                },
                None => {},
            }
        }
    }

    /// A value that deleting would unlink occurs in the tree.
    proof fn lemma_deletes_contained(self, v: i64)
        requires
            self.deletes(v),
        ensures
            self.contents().contains(v),
        decreases self,
    {
        if self.val > v {
            match self.left {
                Some(l) => {
                    if l.val != v {
                        l.lemma_deletes_contained(v);
                    }
                    assert(l.contents().contains(v));
                },
                None => {},
            }
        } else {
            match self.right {
                Some(r) => {
                    if r.val != v {
                        r.lemma_deletes_contained(v);
                    }
                    assert(r.contents().contains(v));
                },
                None => {},
            }
        }
    }

    /// Deleting keeps the search-tree order.
    proof fn lemma_deleted_wf(self, v: i64)
        requires
            self.wf(),
        ensures
            self.deleted(v).wf(),
        decreases self,
    {
        let nt = self.deleted(v);
        self.lemma_wf_unfold();
        nt.lemma_wf_unfold();
        if self.val > v {
            match self.left {
                Some(l) => {
                    if l.val == v {
                        BinarySearchTree::lemma_spliced_wf(*l);
                        BinarySearchTree::lemma_spliced_contents(*l);
                    } else {
                        l.lemma_deleted_wf(v);
                        l.lemma_deleted_contents(v);
                    }
                    assert forall|x: i64| #[trigger]
                        subtree_contents(nt.left).contains(x) implies x < self.val by {
                        assert(l.contents().contains(x));
                        assert(subtree_contents(self.left).contains(x));
                    }
                },
                None => {},
            }
        } else {
            match self.right {
                Some(r) => {
                    if r.val == v {
                        BinarySearchTree::lemma_spliced_wf(*r);
                        BinarySearchTree::lemma_spliced_contents(*r);
                    } else {
                        r.lemma_deleted_wf(v);
                        r.lemma_deleted_contents(v);
                    }
                    assert forall|x: i64| #[trigger]
                        subtree_contents(nt.right).contains(x) implies self.val <= x by {
                        assert(r.contents().contains(x));
                        assert(subtree_contents(self.right).contains(x));
                    }
                },
                None => {},
            }
        }
    }

    /// In a well-formed tree the search for a value finds it exactly when the
    /// tree holds it.
    pub proof fn lemma_finds_iff_contains(self, v: i64)
        requires
            self.wf(),
        ensures
            self.finds(v) <==> self.contents().contains(v),
        decreases self,
    {
        self.lemma_wf_unfold();
        self.lemma_contents_unfold();
        if self.val > v {
            assert(!subtree_contents(self.right).contains(v));
            match self.left {
                Some(l) => {
                    l.lemma_finds_iff_contains(v);
                },
                None => {},
            }
        } else if self.val < v {
            assert(!subtree_contents(self.left).contains(v));
            match self.right {
                Some(r) => {
                    r.lemma_finds_iff_contains(v);
                },
                None => {},
            }
        }
    }

    /// In a well-formed tree, deleting `v` unlinks a node exactly when `v`
    /// occurs in the tree apart from the root node.
    pub proof fn lemma_deletes_iff_below_root(self, v: i64)
        requires
            self.wf(),
        ensures
            self.deletes(v) <==> self.contents().remove(self.val).contains(v),
        decreases self,
    {
        self.lemma_wf_unfold();
        self.lemma_contents_unfold();
        assert(self.contents().remove(self.val) =~= subtree_contents(self.left).add(
            subtree_contents(self.right),
        ));
        if self.val > v {
            assert(!subtree_contents(self.right).contains(v));
            match self.left {
                Some(l) => {
                    l.lemma_wf_unfold();
                    l.lemma_contents_unfold();
                    l.lemma_deletes_iff_below_root(v);
                    assert(l.contents().remove(l.val) =~= subtree_contents(l.left).add(
                        subtree_contents(l.right),
                    ));
                },
                None => {},
            }
        } else {
            assert(!subtree_contents(self.left).contains(v));
            match self.right {
                Some(r) => {
                    r.lemma_wf_unfold();
                    r.lemma_contents_unfold();
                    r.lemma_deletes_iff_below_root(v);
                    assert(r.contents().remove(r.val) =~= subtree_contents(r.left).add(
                        subtree_contents(r.right),
                    ));
                },
                None => {},
            }
        }
    }
}

impl BinarySearchTree {
    /// Inserting a value into a well-formed tree keeps it well formed, and the
    /// search then finds the new value as well as every value found before.
    pub proof fn lemma_insert_then_found(t: BinarySearchTree, v: i64, w: i64)
        requires
            t.wf(),
        ensures
            t.inserted(v).wf(),
            t.inserted(v).finds(v),
            t.finds(w) ==> t.inserted(v).finds(w),
    {
        t.lemma_inserted_wf(v);
        t.lemma_inserted_contents(v);
        t.inserted(v).lemma_finds_iff_contains(v);
        t.inserted(v).lemma_finds_iff_contains(w);
        t.lemma_finds_iff_contains(w);
    }

    /// Deleting from a well-formed tree a value that it holds once, at a node
    /// other than the root, makes the search for it fail; the search for any
    /// other value is unaffected.
    pub proof fn lemma_delete_then_gone(t: BinarySearchTree, v: i64, w: i64)
        requires
            t.wf(),
        ensures
            t.val != v && t.contents().count(v) == 1 ==> !t.deleted(v).finds(v),
            w != v ==> (t.deleted(v).finds(w) <==> t.finds(w)),
    {
        t.lemma_deleted_wf(v);
        t.lemma_deleted_contents(v);
        t.lemma_deletes_iff_below_root(v);
        t.deleted(v).lemma_finds_iff_contains(v);
        t.deleted(v).lemma_finds_iff_contains(w);
        t.lemma_finds_iff_contains(w);
        t.lemma_contents_unfold();
    }
}

impl BinarySearchTree {
    pub fn new(
        val: i64,
        left: Option<Box<BinarySearchTree>>,
        right: Option<Box<BinarySearchTree>>,
    ) -> (t: Self)
        ensures
            t.val == val,
            t.left == left,
            t.right == right,
    {
        BinarySearchTree { val, left, right }
    }

    /// Adds `val` as a new leaf at the end of its search path; the tree is not
    /// rebalanced, and an equal value goes to the right.
    pub fn insert(&mut self, val: i64)
        ensures
            *final(self) == old(self).inserted(val),
            final(self).contents() == old(self).contents().insert(val),
            old(self).wf() ==> final(self).wf(),
        decreases *old(self),
    {
        proof {
            old(self).lemma_inserted_contents(val);
            if old(self).wf() {
                old(self).lemma_inserted_wf(val);
            }
        }
        if self.val > val {
            match self.left.take() {
                Some(mut left) => {
                    (&mut *left).insert(val);
                    self.left = Some(left);
                },
                None => {
                    self.left = Some(Box::new(BinarySearchTree::new(val, None, None)));
                },
            }
        } else {
            match self.right.take() {
                Some(mut right) => {
                    (&mut *right).insert(val);
                    self.right = Some(right);
                },
                None => {
                    self.right = Some(Box::new(BinarySearchTree::new(val, None, None)));
                },
            }
        }
    }

    /// Unlinks the first child on the search path of `val` that holds it; the
    /// root itself is never removed, and nothing changes when no such child
    /// exists.
    pub fn delete(&mut self, val: i64)
        ensures
            *final(self) == old(self).deleted(val),
            final(self).val == old(self).val,
            final(self).contents() == (if old(self).deletes(val) {
                old(self).contents().remove(val)
            } else {
                old(self).contents()
            }),
            old(self).wf() ==> final(self).wf(),
        decreases *old(self),
    {
        proof {
            old(self).lemma_deleted_contents(val);
            if old(self).wf() {
                old(self).lemma_deleted_wf(val);
            }
        }
        if self.val > val {
            match self.left.take() {
                Some(mut left) => {
                    if left.val == val {
                        let ll = left.left.take();
                        let lr = left.right.take();
                        match lr {
                            Some(mut lr_node) => {
                                match ll {
                                    Some(ll_node) => {
                                        (&mut *lr_node).insert_left_most(ll_node);
                                    },
                                    None => {},
                                }
                                self.left = Some(lr_node);
                            },
                            None => {
                                self.left = ll;
                            },
                        }
                    } else {
                        (&mut *left).delete(val);
                        self.left = Some(left);
                    }
                },
                None => {},
            }
        } else {
            match self.right.take() {
                Some(mut right) => {
                    if right.val == val {
                        let rl = right.left.take();
                        let rr = right.right.take();
                        match rr {
                            Some(mut rr_node) => {
                                match rl {
                                    Some(rl_node) => {
                                        (&mut *rr_node).insert_left_most(rl_node);
                                    },
                                    None => {},
                                }
                                self.right = Some(rr_node);
                            },
                            None => {
                                self.right = rl;
                            },
                        }
                    } else {
                        (&mut *right).delete(val);
                        self.right = Some(right);
                    }
                },
                None => {},
            }
        }
    }

    /// Follows the search path of `val` and reports whether it reaches a node
    /// that holds it.
    pub fn contains(&self, val: i64) -> (r: bool)
        ensures
            r == self.finds(val),
            self.wf() ==> (r <==> self.contents().contains(val)),
        decreases self,
    {
        proof {
            if self.wf() {
                self.lemma_finds_iff_contains(val);
            }
        }
        if self.val > val {
            match &self.left {
                Some(left) => left.contains(val),
                None => false,
            }
        } else if self.val < val {
            match &self.right {
                Some(right) => right.contains(val),
                None => false,
            }
        } else {
            true
        }
    }

    /// The number of edges from this node down to the node that holds `val`,
    /// counted in a `usize` that wraps around.
    pub fn distance(&self, val: i64) -> (d: usize)
        requires
            self.finds(val),
        ensures
            d as int == self.depth(val) as int % (usize::MAX as int + 1),
    {
        let mut count: usize = 0;
        self.recurse_distance(val, &mut count);
        count
    }

    fn recurse_distance(&self, val: i64, count: &mut usize)
        requires
            self.finds(val),
        ensures
            *final(count) as int == (*old(count) as int + self.depth(val)) % (usize::MAX as int
                + 1),
        decreases self,
    {
        let ghost c0: int = *count as int;
        let ghost m: int = usize::MAX as int + 1;
        if self.val > val {
            match &self.left {
                Some(left) => {
                    *count = count.wrapping_add(1);
                    assert(*count as int == (c0 + 1) % m);
                    left.recurse_distance(val, count);
                    proof {
                        vstd::arithmetic::div_mod::lemma_add_mod_noop_right(
                            left.depth(val) as int,
                            c0 + 1,
                            m,
                        );
                    }
                },
                None => {},
            }
        } else if self.val < val {
            match &self.right {
                Some(right) => {
                    *count = count.wrapping_add(1);
                    assert(*count as int == (c0 + 1) % m);
                    right.recurse_distance(val, count);
                    proof {
                        vstd::arithmetic::div_mod::lemma_add_mod_noop_right(
                            right.depth(val) as int,
                            c0 + 1,
                            m,
                        );
                    }
                },
                None => {},
            }
        } else {
            proof {
                vstd::arithmetic::div_mod::lemma_small_mod(c0 as nat, m as nat);
            }
        }
    }

    fn insert_left_most(&mut self, node: Box<BinarySearchTree>)
        ensures
            *final(self) == old(self).with_leftmost(*node),
        decreases *old(self),
    {
        match self.left.take() {
            Some(mut left) => {
                (&mut *left).insert_left_most(node);
                self.left = Some(left);
            },
            None => {
                self.left = Some(node);
            },
        }
    }
}

/// The number of elements of `s` that are at most `v`.
pub open spec fn count_le(s: Seq<i64>, v: i64) -> nat
    decreases s.len(),
{
    if s.len() == 0 {
        0
    } else {
        count_le(s.drop_last(), v) + if s.last() <= v {
            1nat
        } else {
            0nat
        }
    }
}

/// Counting over a concatenation adds the counts.
proof fn lemma_count_le_add(a: Seq<i64>, b: Seq<i64>, v: i64)
    ensures
        count_le(a + b, v) == count_le(a, v) + count_le(b, v),
    decreases b.len(),
{
    if b.len() > 0 {
        assert((a + b).drop_last() =~= a + b.drop_last());
        lemma_count_le_add(a, b.drop_last(), v);
    } else {
        assert(a + b =~= a);
    }
}

/// At most every element counts.
proof fn lemma_count_le_bound(s: Seq<i64>, v: i64)
    ensures
        count_le(s, v) <= s.len(),
    decreases s.len(),
{
    if s.len() > 0 {
        lemma_count_le_bound(s.drop_last(), v);
    }
}

/// All elements at most `v`: all count; all above `v`: none counts.
proof fn lemma_count_le_all(s: Seq<i64>, v: i64)
    ensures
        (forall|i: int| 0 <= i < s.len() ==> #[trigger] s[i] <= v) ==> count_le(s, v) == s.len(),
        (forall|i: int| 0 <= i < s.len() ==> #[trigger] s[i] > v) ==> count_le(s, v) == 0,
    decreases s.len(),
{
    if s.len() > 0 {
        let t = s.drop_last();
        assert(forall|i: int| 0 <= i < t.len() ==> t[i] == s[i]);
        lemma_count_le_all(t, v);
    }
}

/// The values of an optional subtree in order.
pub open spec fn subtree_inorder(t: Option<Box<BinarySearchTree>>) -> Seq<i64> {
    match t {
        Some(n) => n.inorder(),
        None => Seq::empty(),
    }
}

/// Whether an optional subtree holds `v` at depth `d`.
pub open spec fn subtree_holds_at(t: Option<Box<BinarySearchTree>>, v: i64, d: nat) -> bool {
    match t {
        Some(n) => n.holds_at(v, d),
        None => false,
    }
}

impl BinarySearchTree {
    /// The values of the tree in order: left subtree, node, right subtree.
    pub open spec fn inorder(self) -> Seq<i64>
        decreases self,
    {
        let l = match self.left {
            Some(l) => l.inorder(),
            None => Seq::empty(),
        };
        let r = match self.right {
            Some(r) => r.inorder(),
            None => Seq::empty(),
        };
        l + seq![self.val] + r
    }

    /// Whether a node at depth `d` below this one (0 for this node) holds `v`.
    pub open spec fn holds_at(self, v: i64, d: nat) -> bool
        decreases self,
    {
        if d == 0 {
            self.val == v
        } else {
            (match self.left {
                Some(l) => l.holds_at(v, (d - 1) as nat),
                None => false,
            }) || (match self.right {
                Some(r) => r.holds_at(v, (d - 1) as nat),
                None => false,
            })
        }
    }

    /// Every value in the in-order sequence is a value of the tree.
    proof fn lemma_inorder_in_contents(self)
        ensures
            forall|i: int| 0 <= i < self.inorder().len() ==> self.contents().contains(#[trigger] self.inorder()[i]),
        decreases self,
    {
        let l = subtree_inorder(self.left);
        let r = subtree_inorder(self.right);
        assert(self.inorder() == l + seq![self.val] + r);
        match self.left {
            Some(n) => n.lemma_inorder_in_contents(),
            None => {},
        }
        match self.right {
            Some(n) => n.lemma_inorder_in_contents(),
            None => {},
        }
        assert forall|i: int| 0 <= i < self.inorder().len() implies self.contents().contains(#[trigger] self.inorder()[i]) by {
            if i < l.len() {
                assert(self.inorder()[i] == l[i]);
                assert(subtree_contents(self.left).contains(l[i]));
            } else if i == l.len() {
                assert(self.inorder()[i] == self.val);
            } else {
                assert(self.inorder()[i] == r[i - l.len() - 1]);
                assert(subtree_contents(self.right).contains(r[i - l.len() - 1]));
            }
        }
    }

    /// A value held at some depth is a value of the tree.
    proof fn lemma_holds_at_contents(self, v: i64, d: nat)
        requires
            self.holds_at(v, d),
        ensures
            self.contents().contains(v),
        decreases self,
    {
        if d > 0 {
            match self.left {
                Some(l) => {
                    if l.holds_at(v, (d - 1) as nat) {
                        l.lemma_holds_at_contents(v, (d - 1) as nat);
                    }
                },
                None => {},
            }
            match self.right {
                Some(r) => {
                    if r.holds_at(v, (d - 1) as nat) {
                        r.lemma_holds_at_contents(v, (d - 1) as nat);
                    }
                },
                None => {},
            }
        }
    }

    /// Inserting into a well-formed tree puts `v` into the in-order sequence
    /// just after the last value that is at most `v` (after any equal ones).
    pub proof fn lemma_insert_inorder(self, v: i64)
        requires
            self.wf(),
        ensures
            self.inserted(v).inorder() == self.inorder().insert(count_le(self.inorder(), v) as int, v),
        decreases self,
    {
        let l = subtree_inorder(self.left);
        let r = subtree_inorder(self.right);
        assert(self.inorder() == l + seq![self.val] + r);
        lemma_count_le_add(l + seq![self.val], r, v);
        lemma_count_le_add(l, seq![self.val], v);
        lemma_count_le_bound(l, v);
        lemma_count_le_bound(r, v);
        assert(count_le(seq![self.val], v) == if self.val <= v { 1nat } else { 0nat }) by {
            assert(seq![self.val].drop_last() =~= Seq::<i64>::empty());
            assert(count_le(Seq::<i64>::empty(), v) == 0);
            assert(seq![self.val].last() == self.val);
        }
        match self.left {
            Some(n) => n.lemma_inorder_in_contents(),
            None => {},
        }
        match self.right {
            Some(n) => n.lemma_inorder_in_contents(),
            None => {},
        }
        if self.val > v {
            assert forall|i: int| 0 <= i < r.len() implies #[trigger] r[i] > v by {
                assert(subtree_contents(self.right).contains(r[i]));
            }
            lemma_count_le_all(r, v);
            let nl = match self.left {
                Some(n) => {
                    n.lemma_insert_inorder(v);
                    n.inserted(v).inorder()
                },
                None => {
                    assert(seq![v] =~= Seq::<i64>::empty().insert(0, v));
                    BinarySearchTree::leaf(v).inorder()
                },
            };
            assert(BinarySearchTree::leaf(v).inorder() =~= seq![v]);
            assert(nl == l.insert(count_le(l, v) as int, v));
            assert(self.inserted(v).inorder() == nl + seq![self.val] + r);
            assert(nl + seq![self.val] + r =~= (l + seq![self.val] + r).insert(count_le(l, v) as int, v));
        } else {
            assert forall|i: int| 0 <= i < l.len() implies #[trigger] l[i] <= v by {
                assert(subtree_contents(self.left).contains(l[i]));
            }
            lemma_count_le_all(l, v);
            let nr = match self.right {
                Some(n) => {
                    n.lemma_insert_inorder(v);
                    n.inserted(v).inorder()
                },
                None => {
                    assert(seq![v] =~= Seq::<i64>::empty().insert(0, v));
                    BinarySearchTree::leaf(v).inorder()
                },
            };
            assert(BinarySearchTree::leaf(v).inorder() =~= seq![v]);
            assert(nr == r.insert(count_le(r, v) as int, v));
            assert(self.inserted(v).inorder() == l + seq![self.val] + nr);
            assert(l + seq![self.val] + nr =~= (l + seq![self.val] + r).insert(
                (l.len() + 1 + count_le(r, v)) as int,
                v,
            ));
        }
    }

    /// The value of the node reached from this one by the path `p` (`false`
    /// a step to the left child, `true` to the right), if there is one.
    pub open spec fn value_at(self, p: Seq<bool>) -> Option<i64>
        decreases p.len(),
    {
        if p.len() == 0 {
            Some(self.val)
        } else {
            match (if p[0] { self.right } else { self.left }) {
                Some(n) => n.value_at(p.drop_first()),
                None => None,
            }
        }
    }

    /// A path that starts with the step `b`.
    proof fn lemma_value_at_step(self, b: bool, q: Seq<bool>)
        ensures
            self.value_at(seq![b] + q) == match (if b { self.right } else { self.left }) {
                Some(n) => n.value_at(q),
                None => None,
            },
    {
        assert((seq![b] + q).drop_first() =~= q);
        assert((seq![b] + q)[0] == b);
    }

    /// Insertion only adds a leaf: there is a path `p`, the search path of
    /// `v` (right at a node holding at most `v`, left otherwise), where the
    /// tree had no node and now has a node holding `v` without children;
    /// every other path leads to the same value as before, so every node
    /// keeps its place and its depth.
    pub proof fn lemma_insert_adds_leaf(self, v: i64) -> (p: Seq<bool>)
        ensures
            self.value_at(p) is None,
            self.inserted(v).value_at(p) == Some(v),
            self.inserted(v).value_at(p.push(false)) is None,
            self.inserted(v).value_at(p.push(true)) is None,
            forall|q: Seq<bool>| q != p ==> #[trigger] self.inserted(v).value_at(q) == self.value_at(q),
            forall|i: int|
                #![trigger p.take(i)]
                0 <= i < p.len() ==> (self.value_at(p.take(i)) is Some) && p[i] == (self.value_at(
                    p.take(i),
                )->0 <= v),
        decreases self,
    {
        let b = self.val <= v;
        let t = self.inserted(v);
        let child = if b { self.right } else { self.left };
        let nchild = if b { t.right } else { t.left };
        assert(t.val == self.val);
        assert(if b { t.left == self.left } else { t.right == self.right });
        let pl: Seq<bool> = match child {
            Some(n) => n.lemma_insert_adds_leaf(v),
            None => Seq::empty(),
        };
        let path = seq![b] + pl;
        let nn = match child {
            Some(n) => n.inserted(v),
            None => BinarySearchTree::leaf(v),
        };
        assert(nchild == Some(Box::new(nn)));
        self.lemma_value_at_step(b, pl);
        t.lemma_value_at_step(b, pl);
        assert(path.push(false) =~= seq![b] + pl.push(false));
        assert(path.push(true) =~= seq![b] + pl.push(true));
        t.lemma_value_at_step(b, pl.push(false));
        t.lemma_value_at_step(b, pl.push(true));
        if child is None {
            assert(pl.push(false) =~= seq![false]);
            assert(pl.push(true) =~= seq![true]);
            assert(seq![false].drop_first() =~= Seq::<bool>::empty());
            assert(seq![true].drop_first() =~= Seq::<bool>::empty());
        }
        assert forall|q: Seq<bool>| q != path implies #[trigger] t.value_at(q) == self.value_at(q) by {
            if q.len() > 0 {
                let r = q.drop_first();
                assert(q =~= seq![q[0]] + r);
                self.lemma_value_at_step(q[0], r);
                t.lemma_value_at_step(q[0], r);
                if q[0] == b {
                    assert(r != pl);
                    match child {
                        Some(n) => {
                            assert(n.inserted(v).value_at(r) == n.value_at(r));
                        },
                        None => {
                            assert(r.len() > 0);
                            assert(r =~= seq![r[0]] + r.drop_first());
                            BinarySearchTree::leaf(v).lemma_value_at_step(r[0], r.drop_first());
                        },
                    }
                }
            }
        }
        assert forall|i: int| #![trigger path.take(i)] 0 <= i < path.len() implies (self.value_at(path.take(i)) is Some) && path[i] == (
        self.value_at(path.take(i))->0 <= v) by {
            if i == 0 {
                assert(path.take(0) =~= Seq::<bool>::empty());
            } else {
                assert(path.take(i) =~= seq![b] + pl.take(i - 1));
                self.lemma_value_at_step(b, pl.take(i - 1));
                assert(path[i] == pl[i - 1]);
            }
        }
        path
    }

    /// In a well-formed tree that holds `v`, the search for `v` stops at the
    /// least depth at which a node holds `v`.
    pub proof fn lemma_depth_is_least(self, v: i64)
        requires
            self.wf(),
            self.finds(v),
        ensures
            self.holds_at(v, self.depth(v)),
            forall|d: nat| d < self.depth(v) ==> !#[trigger] self.holds_at(v, d),
        decreases self,
    {
        if self.val > v {
            let l = self.left->0;
            l.lemma_depth_is_least(v);
            assert(self.depth(v) == 1 + l.depth(v));
            assert forall|d: nat| d < self.depth(v) implies !#[trigger] self.holds_at(v, d) by {
                if d > 0 {
                    let e = (d - 1) as nat;
                    assert(!l.holds_at(v, e));
                    if subtree_holds_at(self.right, v, e) {
                        let r = self.right->0;
                        r.lemma_holds_at_contents(v, e);
                        assert(subtree_contents(self.right).contains(v));
                    }
                    assert(self.holds_at(v, d) == (subtree_holds_at(self.left, v, e)
                        || subtree_holds_at(self.right, v, e)));
                }
            }
        } else if self.val < v {
            let r = self.right->0;
            r.lemma_depth_is_least(v);
            assert(self.depth(v) == 1 + r.depth(v));
            assert forall|d: nat| d < self.depth(v) implies !#[trigger] self.holds_at(v, d) by {
                if d > 0 {
                    let e = (d - 1) as nat;
                    assert(!r.holds_at(v, e));
                    if subtree_holds_at(self.left, v, e) {
                        let l = self.left->0;
                        l.lemma_holds_at_contents(v, e);
                        assert(subtree_contents(self.left).contains(v));
                    }
                    assert(self.holds_at(v, d) == (subtree_holds_at(self.left, v, e)
                        || subtree_holds_at(self.right, v, e)));
                }
            }
        }
    }
}

impl Default for BinarySearchTree {
    fn default() -> (t: Self)
        ensures
            t.val == 0,
            t.left is None,
            t.right is None,
    {
        BinarySearchTree { val: 0, left: None, right: None }
    }
}

} // verus!
