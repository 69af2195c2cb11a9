use vstd::prelude::*;

verus! {

/// A self-balancing (AVL) search tree of distinct `i32` values.
///
/// Every node records its balance factor: the height of its left subtree
/// minus the height of its right subtree.
#[derive(Debug)]
pub struct AVLTree {
    pub val: i32,
    pub left: Option<Box<AVLTree>>,
    pub right: Option<Box<AVLTree>>,
    bal_factor: isize,
}

/// The height of an optional subtree (0 when absent).
pub open spec fn sub_height(t: Option<Box<AVLTree>>) -> nat {
    match t {
        Some(n) => n.height(),
        None => 0,
    }
}

/// The values of an optional subtree.
pub open spec fn sub_contents(t: Option<Box<AVLTree>>) -> Set<i32> {
    match t {
        Some(n) => n.contents(),
        None => Set::empty(),
    }
}

/// Search order of an optional subtree.
pub open spec fn sub_ordered(t: Option<Box<AVLTree>>) -> bool {
    match t {
        Some(n) => n.ordered(),
        None => true,
    }
}

/// Recorded balance factors of an optional subtree are its true ones.
pub closed spec fn sub_bf_exact(t: Option<Box<AVLTree>>) -> bool {
    match t {
        Some(n) => n.bf_exact(),
        None => true,
    }
}

/// Every node of an optional subtree is balanced.
pub closed spec fn sub_balanced(t: Option<Box<AVLTree>>) -> bool {
    match t {
        Some(n) => n.balanced(),
        None => true,
    }
}

/// An optional subtree is absent or a well-formed AVL tree.
pub closed spec fn sub_wf(t: Option<Box<AVLTree>>) -> bool {
    match t {
        Some(n) => n.wf(),
        None => true,
    }
}

pub open spec fn max_nat(a: nat, b: nat) -> nat {
    if a >= b {
        a
    } else {
        b
    }
}

impl AVLTree {
    /// The number of nodes on the longest path from this node down to a leaf.
    pub closed spec fn height(self) -> nat
        decreases self,
    {
        let lh = match self.left {
            Some(l) => l.height(),
            None => 0,
        };
        let rh = match self.right {
            Some(r) => r.height(),
            None => 0,
        };
        if lh >= rh {
            lh + 1
        } else {
            rh + 1
        }
    }

    /// The values held by the tree.
    pub closed spec fn contents(self) -> Set<i32>
        decreases self,
    {
        let l = match self.left {
            Some(l) => l.contents(),
            None => Set::empty(),
        };
        let r = match self.right {
            Some(r) => r.contents(),
            None => Set::empty(),
        };
        l.union(r).insert(self.val)
    }

    /// Strict search order at every node: smaller values to the left, larger
    /// to the right.
    pub closed spec fn ordered(self) -> bool
        decreases self,
    {
        &&& forall|x: i32| #[trigger] sub_contents(self.left).contains(x) ==> x < self.val
        &&& forall|x: i32| #[trigger] sub_contents(self.right).contains(x) ==> self.val < x
        &&& match self.left {
            Some(l) => l.ordered(),
            None => true,
        }
        &&& match self.right {
            Some(r) => r.ordered(),
            None => true,
        }
    }

    /// The value stored at this node.
    pub closed spec fn value(self) -> i32 {
        self.val
    }

    /// The left subtree.
    pub closed spec fn left_child(self) -> Option<Box<AVLTree>> {
        self.left
    }

    /// The right subtree.
    pub closed spec fn right_child(self) -> Option<Box<AVLTree>> {
        self.right
    }

    /// The balance factor recorded at this node.
    pub closed spec fn balance(self) -> isize {
        self.bal_factor
    }

    /// At every node the recorded balance factor is the height of the left
    /// subtree minus the height of the right one.
    pub closed spec fn bf_exact(self) -> bool
        decreases self,
    {
        &&& self.bal_factor == sub_height(self.left) - sub_height(self.right)
        &&& match self.left {
            Some(l) => l.bf_exact(),
            None => true,
        }
        &&& match self.right {
            Some(r) => r.bf_exact(),
            None => true,
        }
    }

    /// Every recorded balance factor lies in -1..=1.
    pub closed spec fn balanced(self) -> bool
        decreases self,
    {
        &&& -1 <= self.bal_factor <= 1
        &&& match self.left {
            Some(l) => l.balanced(),
            None => true,
        }
        &&& match self.right {
            Some(r) => r.balanced(),
            None => true,
        }
    }

    /// A well-formed AVL tree: ordered, with exact balance factors, balanced.
    pub closed spec fn wf(self) -> bool {
        &&& self.ordered()
        &&& self.bf_exact()
        &&& self.balanced()
    }

    /// Whether the search for `v` reaches a node that holds `v`.
    pub closed spec fn finds(self, v: i32) -> bool
        decreases self,
    {
        if self.val > v {
            match self.left {
                Some(l) => l.finds(v),
                None => false,
            }
        } else if self.val < v {
            match self.right {
                Some(r) => r.finds(v),
                None => false,
            }
        } else {
            true
        }
    }

    /// The number of edges that the search for `v` follows before it stops.
    pub closed spec fn depth(self, v: i32) -> nat
        decreases self,
    {
        if self.val > v {
            match self.left {
                Some(l) => 1 + l.depth(v),
                None => 0,
            }
        } else if self.val < v {
            match self.right {
                Some(r) => 1 + r.depth(v),
                None => 0,
            }
        } else {
            0
        }
    }

    /// The tree after a right rotation about this node: the left child comes
    /// up and this node becomes its right child; balance factors are updated
    /// by the usual formulas.
    pub closed spec fn rot_right(self) -> AVLTree {
        let y = self.left->0;
        let bx: int = self.bal_factor - 1 - (if y.bal_factor > 0 {
            y.bal_factor as int
        } else {
            0
        });
        let by: int = y.bal_factor - 1 + (if bx < 0 {
            bx
        } else {
            0
        });
        AVLTree {
            val: y.val,
            left: y.left,
            right: Some(
                Box::new(
                    AVLTree {
                        val: self.val,
                        left: y.right,
                        right: self.right,
                        bal_factor: bx as isize,
                    },
                ),
            ),
            bal_factor: by as isize,
        }
    }

    /// The tree after a left rotation about this node: the right child comes
    /// up and this node becomes its left child.
    pub closed spec fn rot_left(self) -> AVLTree {
        let y = self.right->0;
        let bx: int = self.bal_factor + 1 - (if y.bal_factor < 0 {
            y.bal_factor as int
        } else {
            0
        });
        let by: int = y.bal_factor + 1 + (if bx > 0 {
            bx
        } else {
            0
        });
        AVLTree {
            val: y.val,
            left: Some(
                Box::new(
                    AVLTree {
                        val: self.val,
                        left: self.left,
                        right: y.left,
                        bal_factor: bx as isize,
                    },
                ),
            ),
            right: y.right,
            bal_factor: by as isize,
        }
    }

    /// The values of the tree in order: left subtree, node, right subtree.
    pub closed spec fn inorder(self) -> Seq<i32>
        decreases self,
    {
        let l = match self.left {
            Some(l) => l.inorder(),
            None => Seq::empty(),
        };
        let r = match self.right {
            Some(r) => r.inorder(),
            None => Seq::empty(),
        };
        l + seq![self.val] + r
    }

    /// A right rotation keeps the values in order, brings the left child's
    /// value to the top, and a left rotation right after it gives back the
    /// tree as it was, balance factors included.
    pub proof fn lemma_rotate_right_round_trip(self)
        requires
            self.left_child() is Some,
            -2 <= self.balance() <= 2,
            -2 <= self.left_child()->0.balance() <= 2,
        ensures
            self.rot_right().inorder() == self.inorder(),
            self.rot_right().value() == self.left_child()->0.value(),
            self.rot_right().rot_left() == self,
    {
        let y = self.left->0;
        let t = self.rot_right();
        let x2 = t.right->0;
        let ly = match y.left { Some(n) => n.inorder(), None => Seq::empty() };
        let ry = match y.right { Some(n) => n.inorder(), None => Seq::empty() };
        let rx = match self.right { Some(n) => n.inorder(), None => Seq::empty() };
        assert(y.inorder() == ly + seq![y.val] + ry);
        assert(x2.inorder() == ry + seq![self.val] + rx);
        assert(t.inorder() =~= self.inorder());
        let back = t.rot_left();
        let inner = back.left->0;
        assert(*inner == *y);
        assert(back == self);
    }

    /// A left rotation keeps the values in order, brings the right child's
    /// value to the top, and a right rotation right after it gives back the
    /// tree as it was, balance factors included.
    pub proof fn lemma_rotate_left_round_trip(self)
        requires
            self.right_child() is Some,
            -2 <= self.balance() <= 2,
            -2 <= self.right_child()->0.balance() <= 2,
        ensures
            self.rot_left().inorder() == self.inorder(),
            self.rot_left().value() == self.right_child()->0.value(),
            self.rot_left().rot_right() == self,
    {
        let y = self.right->0;
        let t = self.rot_left();
        let x2 = t.left->0;
        let ly = match y.left { Some(n) => n.inorder(), None => Seq::empty() };
        let ry = match y.right { Some(n) => n.inorder(), None => Seq::empty() };
        let lx = match self.left { Some(n) => n.inorder(), None => Seq::empty() };
        assert(y.inorder() == ly + seq![y.val] + ry);
        assert(x2.inorder() == lx + seq![self.val] + ly);
        assert(t.inorder() =~= self.inorder());
        let back = t.rot_right();
        let inner = back.right->0;
        assert(*inner == *y);
        assert(back == self);
    }

    // ---------------------------------------------------------------------
    // Unfolding lemmas
    // ---------------------------------------------------------------------

    proof fn lemma_unfold(self)
        ensures
            self.height() == max_nat(sub_height(self.left), sub_height(self.right)) + 1,
            self.height() >= 1,
            self.contents() == sub_contents(self.left).union(sub_contents(self.right)).insert(
                self.val,
            ),
            self.contents().contains(self.val),
            self.ordered() <==> {
                &&& forall|x: i32| #[trigger] sub_contents(self.left).contains(x) ==> x < self.val
                &&& forall|x: i32| #[trigger] sub_contents(self.right).contains(x) ==> self.val < x
                &&& sub_ordered(self.left)
                &&& sub_ordered(self.right)
            },
            self.bf_exact() <==> {
                &&& self.bal_factor == sub_height(self.left) - sub_height(self.right)
                &&& sub_bf_exact(self.left)
                &&& sub_bf_exact(self.right)
            },
            self.balanced() <==> {
                &&& -1 <= self.bal_factor <= 1
                &&& sub_balanced(self.left)
                &&& sub_balanced(self.right)
            },
            self.wf() <==> (self.ordered() && self.bf_exact() && self.balanced()),
    {
    }

    /// What the views of a node say in terms of its value, subtrees and
    /// balance factor: its values, its height, its order, its balance and
    /// its membership search.
    pub proof fn lemma_node_view(self, v: i32)
        ensures
            self.contents() == sub_contents(self.left_child()).union(
                sub_contents(self.right_child()),
            ).insert(self.value()),
            self.height() == max_nat(sub_height(self.left_child()), sub_height(self.right_child()))
                + 1,
            self.ordered() <==> {
                &&& forall|x: i32| #[trigger]
                    sub_contents(self.left_child()).contains(x) ==> x < self.value()
                &&& forall|x: i32| #[trigger]
                    sub_contents(self.right_child()).contains(x) ==> self.value() < x
                &&& sub_ordered(self.left_child())
                &&& sub_ordered(self.right_child())
            },
            self.wf() <==> {
                &&& self.ordered()
                &&& self.balance() == sub_height(self.left_child()) - sub_height(self.right_child())
                &&& -1 <= self.balance() <= 1
                &&& sub_wf(self.left_child())
                &&& sub_wf(self.right_child())
            },
            sub_wf(self.left_child()) ==> sub_ordered(self.left_child()),
            sub_wf(self.right_child()) ==> sub_ordered(self.right_child()),
            self.left_child() is None && self.right_child() is None ==> sub_wf(self.left_child())
                && sub_wf(self.right_child()),
            self.finds(v) == (if v < self.value() {
                match self.left_child() {
                    Some(l) => l.finds(v),
                    None => false,
                }
            } else if v > self.value() {
                match self.right_child() {
                    Some(r) => r.finds(v),
                    None => false,
                }
            } else {
                true
            }),
    {
        self.lemma_unfold();
        AVLTree::lemma_sub_unfold(self.left);
        AVLTree::lemma_sub_unfold(self.right);
    }

    proof fn lemma_sub_unfold(t: Option<Box<AVLTree>>)
        ensures
            t is None ==> sub_height(t) == 0 && sub_contents(t) == Set::<i32>::empty()
                && sub_ordered(t) && sub_bf_exact(t) && sub_balanced(t) && sub_wf(t),
            t is Some ==> {
                &&& sub_height(t) == t->0.height()
                &&& sub_contents(t) == t->0.contents()
                &&& sub_ordered(t) == t->0.ordered()
                &&& sub_bf_exact(t) == t->0.bf_exact()
                &&& sub_balanced(t) == t->0.balanced()
                &&& sub_wf(t) == t->0.wf()
                &&& sub_height(t) >= 1
            },
    {
        if t is Some {
            t->0.lemma_unfold();
        }
    }

    // ---------------------------------------------------------------------
    // Rotations
    // ---------------------------------------------------------------------

    /// A right rotation keeps the values and the order, keeps the balance
    /// factors exact, and its height follows from the three subtrees it moves.
    proof fn lemma_rot_right(self)
        requires
            self.left is Some,
            self.bf_exact(),
            -2 <= self.bal_factor <= 2,
            -2 <= self.left->0.bal_factor <= 2,
        ensures
            ({
                let y = self.left->0;
                let r = self.rot_right();
                let a = sub_height(y.left);
                let b = sub_height(y.right);
                let c = sub_height(self.right);
                &&& r.bf_exact()
                &&& r.contents() == self.contents()
                &&& self.ordered() ==> r.ordered()
                &&& sub_height(r.right) == max_nat(b, c) + 1
                &&& r.height() == max_nat(a, max_nat(b, c) + 1) + 1
                &&& r.bal_factor == a - (max_nat(b, c) + 1)
                &&& r.right->0.bal_factor == b - c
            }),
    {
        let y = self.left->0;
        let r = self.rot_right();
        let x2 = r.right->0;
        self.lemma_unfold();
        y.lemma_unfold();
        r.lemma_unfold();
        x2.lemma_unfold();
        AVLTree::lemma_sub_unfold(self.left);
        AVLTree::lemma_sub_unfold(self.right);
        AVLTree::lemma_sub_unfold(y.left);
        AVLTree::lemma_sub_unfold(y.right);
        AVLTree::lemma_sub_unfold(r.right);
        assert(r.contents() =~= self.contents());
        if self.ordered() {
            assert forall|x: i32| #[trigger] sub_contents(x2.left).contains(x) implies x < x2.val by {
                assert(sub_contents(self.left).contains(x));
            }
            assert forall|x: i32| #[trigger] sub_contents(r.right).contains(x) implies r.val < x by {
                if sub_contents(y.right).contains(x) {
                } else if x == self.val {
                    assert(sub_contents(self.left).contains(y.val));
                } else {
                    assert(sub_contents(self.right).contains(x));
                    assert(sub_contents(self.left).contains(y.val));
                }
            }
        }
    }

    /// A left rotation keeps the values and the order, keeps the balance
    /// factors exact, and its height follows from the three subtrees it moves.
    proof fn lemma_rot_left(self)
        requires
            self.right is Some,
            self.bf_exact(),
            -2 <= self.bal_factor <= 2,
            -2 <= self.right->0.bal_factor <= 2,
        ensures
            ({
                let y = self.right->0;
                let r = self.rot_left();
                let a = sub_height(y.right);
                let b = sub_height(y.left);
                let c = sub_height(self.left);
                &&& r.bf_exact()
                &&& r.contents() == self.contents()
                &&& self.ordered() ==> r.ordered()
                &&& sub_height(r.left) == max_nat(b, c) + 1
                &&& r.height() == max_nat(a, max_nat(b, c) + 1) + 1
                &&& r.bal_factor == (max_nat(b, c) + 1) - a
                &&& r.left->0.bal_factor == c - b
            }),
    {
        let y = self.right->0;
        let r = self.rot_left();
        let x2 = r.left->0;
        self.lemma_unfold();
        y.lemma_unfold();
        r.lemma_unfold();
        x2.lemma_unfold();
        AVLTree::lemma_sub_unfold(self.left);
        AVLTree::lemma_sub_unfold(self.right);
        AVLTree::lemma_sub_unfold(y.left);
        AVLTree::lemma_sub_unfold(y.right);
        AVLTree::lemma_sub_unfold(r.left);
        assert(r.contents() =~= self.contents());
        if self.ordered() {
            assert forall|x: i32| #[trigger] sub_contents(x2.right).contains(x) implies x2.val < x by {
                assert(sub_contents(self.right).contains(x));
            }
            assert forall|x: i32| #[trigger] sub_contents(r.left).contains(x) implies x < r.val by {
                if sub_contents(y.left).contains(x) {
                } else if x == self.val {
                    assert(sub_contents(self.right).contains(y.val));
                } else {
                    assert(sub_contents(self.left).contains(x));
                    assert(sub_contents(self.right).contains(y.val));
                }
            }
        }
    }

    /// Replacing the left subtree after an insertion there: the new tree holds
    /// one value more, and either is well formed as it stands, or after the
    /// balance factor is bumped, or after a left-heavy repair.
    proof fn lemma_insert_left_child(t0: AVLTree, nl: AVLTree, val: i32, grew: bool)
        requires
            t0.wf(),
            val < t0.val,
            nl.wf(),
            nl.contents() == sub_contents(t0.left).insert(val),
            nl.height() == sub_height(t0.left) + (if grew {
                1int
            } else {
                0int
            }),
            grew ==> (nl.bal_factor != 0 || t0.left is None),
        ensures
            ({
                let t1 = AVLTree { left: Some(Box::new(nl)), ..t0 };
                let t2 = AVLTree { bal_factor: (t0.bal_factor + 1) as isize, ..t1 };
                &&& t1.contents() == t0.contents().insert(val)
                &&& !grew ==> t1.wf() && t1.height() == t0.height()
                &&& grew ==> {
                    &&& t2.contents() == t0.contents().insert(val)
                    &&& t2.bal_factor == t0.bal_factor + 1
                    &&& t2.bal_factor <= 1 ==> t2.wf() && t2.height() == t0.height() + (if t2.bal_factor
                        != 0 {
                        1int
                    } else {
                        0int
                    })
                    &&& t2.bal_factor > 1 ==> {
                        &&& t2.left is Some
                        &&& t2.bf_exact()
                        &&& t2.ordered()
                        &&& t2.bal_factor == 2
                        &&& sub_balanced(t2.left)
                        &&& sub_balanced(t2.right)
                        &&& t2.left->0.bal_factor != 0
                        &&& t2.height() == t0.height() + 1
                    }
                }
            }),
    {
        let t1 = AVLTree { left: Some(Box::new(nl)), ..t0 };
        let t2 = AVLTree { bal_factor: (t0.bal_factor + 1) as isize, ..t1 };
        t0.lemma_unfold();
        t1.lemma_unfold();
        t2.lemma_unfold();
        nl.lemma_unfold();
        AVLTree::lemma_sub_unfold(t0.left);
        AVLTree::lemma_sub_unfold(t0.right);
        AVLTree::lemma_sub_unfold(t1.left);
        assert forall|x: i32| #[trigger] sub_contents(t1.left).contains(x) implies x < t1.val by {
            if x != val {
                assert(sub_contents(t0.left).contains(x));
            }
        }
        assert(t1.contents() =~= t0.contents().insert(val));
        assert(t2.contents() =~= t0.contents().insert(val));
    }

    /// Replacing the right subtree after an insertion there (mirror image).
    proof fn lemma_insert_right_child(t0: AVLTree, nr: AVLTree, val: i32, grew: bool)
        requires
            t0.wf(),
            t0.val < val,
            nr.wf(),
            nr.contents() == sub_contents(t0.right).insert(val),
            nr.height() == sub_height(t0.right) + (if grew {
                1int
            } else {
                0int
            }),
            grew ==> (nr.bal_factor != 0 || t0.right is None),
        ensures
            ({
                let t1 = AVLTree { right: Some(Box::new(nr)), ..t0 };
                let t2 = AVLTree { bal_factor: (t0.bal_factor - 1) as isize, ..t1 };
                &&& t1.contents() == t0.contents().insert(val)
                &&& !grew ==> t1.wf() && t1.height() == t0.height()
                &&& grew ==> {
                    &&& t2.contents() == t0.contents().insert(val)
                    &&& t2.bal_factor == t0.bal_factor - 1
                    &&& t2.bal_factor >= -1 ==> t2.wf() && t2.height() == t0.height() + (if t2.bal_factor
                        != 0 {
                        1int
                    } else {
                        0int
                    })
                    &&& t2.bal_factor < -1 ==> {
                        &&& t2.right is Some
                        &&& t2.bf_exact()
                        &&& t2.ordered()
                        &&& t2.bal_factor == -2
                        &&& sub_balanced(t2.left)
                        &&& sub_balanced(t2.right)
                        &&& t2.right->0.bal_factor != 0
                        &&& t2.height() == t0.height() + 1
                    }
                }
            }),
    {
        let t1 = AVLTree { right: Some(Box::new(nr)), ..t0 };
        let t2 = AVLTree { bal_factor: (t0.bal_factor - 1) as isize, ..t1 };
        t0.lemma_unfold();
        t1.lemma_unfold();
        t2.lemma_unfold();
        nr.lemma_unfold();
        AVLTree::lemma_sub_unfold(t0.left);
        AVLTree::lemma_sub_unfold(t0.right);
        AVLTree::lemma_sub_unfold(t1.right);
        assert forall|x: i32| #[trigger] sub_contents(t1.right).contains(x) implies t1.val < x by {
            if x != val {
                assert(sub_contents(t0.right).contains(x));
            }
        }
        assert(t1.contents() =~= t0.contents().insert(val));
        assert(t2.contents() =~= t0.contents().insert(val));
    }

    /// Replacing the left subtree after a removal there: the tree loses that
    /// value, and either is well formed as it stands or, after the balance
    /// factor is lowered, is ready for `rebalance_left_shrunk`.
    proof fn lemma_delete_left_child(
        t0: AVLTree,
        nl: Option<Box<AVLTree>>,
        v: i32,
        shrunk: bool,
    )
        requires
            t0.wf(),
            v < t0.val,
            sub_wf(nl),
            sub_contents(nl) == sub_contents(t0.left).remove(v),
            sub_height(nl) == sub_height(t0.left) - (if shrunk {
                1int
            } else {
                0int
            }),
        ensures
            ({
                let t1 = AVLTree { left: nl, ..t0 };
                let t2 = AVLTree { bal_factor: (t0.bal_factor - 1) as isize, ..t1 };
                &&& t1.contents() == t0.contents().remove(v)
                &&& !shrunk ==> t1.wf() && t1.height() == t0.height()
                &&& shrunk ==> {
                    &&& t2.contents() == t0.contents().remove(v)
                    &&& t2.bal_factor == t0.bal_factor - 1
                    &&& t2.bf_exact()
                    &&& t2.ordered()
                    &&& sub_balanced(t2.left)
                    &&& sub_balanced(t2.right)
                    &&& -2 <= t2.bal_factor <= 0
                    &&& t2.bal_factor == 0 ==> t2.height() + 1 == t0.height()
                    &&& t2.bal_factor != 0 ==> t2.height() == t0.height()
                }
            }),
    {
        let t1 = AVLTree { left: nl, ..t0 };
        let t2 = AVLTree { bal_factor: (t0.bal_factor - 1) as isize, ..t1 };
        t0.lemma_unfold();
        t1.lemma_unfold();
        t2.lemma_unfold();
        AVLTree::lemma_sub_unfold(t0.left);
        AVLTree::lemma_sub_unfold(t0.right);
        AVLTree::lemma_sub_unfold(nl);
        assert forall|x: i32| #[trigger] sub_contents(t1.left).contains(x) implies x < t1.val by {
            assert(sub_contents(t0.left).contains(x));
        }
        assert(!sub_contents(t0.right).contains(v));
        assert(t1.contents() =~= t0.contents().remove(v));
        assert(t2.contents() =~= t0.contents().remove(v));
    }

    /// Replacing the right subtree after a removal there (mirror image).
    proof fn lemma_delete_right_child(
        t0: AVLTree,
        nr: Option<Box<AVLTree>>,
        v: i32,
        shrunk: bool,
    )
        requires
            t0.wf(),
            t0.val < v,
            sub_wf(nr),
            sub_contents(nr) == sub_contents(t0.right).remove(v),
            sub_height(nr) == sub_height(t0.right) - (if shrunk {
                1int
            } else {
                0int
            }),
        ensures
            ({
                let t1 = AVLTree { right: nr, ..t0 };
                let t2 = AVLTree { bal_factor: (t0.bal_factor + 1) as isize, ..t1 };
                &&& t1.contents() == t0.contents().remove(v)
                &&& !shrunk ==> t1.wf() && t1.height() == t0.height()
                &&& shrunk ==> {
                    &&& t2.contents() == t0.contents().remove(v)
                    &&& t2.bal_factor == t0.bal_factor + 1
                    &&& t2.bf_exact()
                    &&& t2.ordered()
                    &&& sub_balanced(t2.left)
                    &&& sub_balanced(t2.right)
                    &&& 0 <= t2.bal_factor <= 2
                    &&& t2.bal_factor == 0 ==> t2.height() + 1 == t0.height()
                    &&& t2.bal_factor != 0 ==> t2.height() == t0.height()
                }
            }),
    {
        let t1 = AVLTree { right: nr, ..t0 };
        let t2 = AVLTree { bal_factor: (t0.bal_factor + 1) as isize, ..t1 };
        t0.lemma_unfold();
        t1.lemma_unfold();
        t2.lemma_unfold();
        AVLTree::lemma_sub_unfold(t0.left);
        AVLTree::lemma_sub_unfold(t0.right);
        AVLTree::lemma_sub_unfold(nr);
        assert forall|x: i32| #[trigger] sub_contents(t1.right).contains(x) implies t1.val < x by {
            assert(sub_contents(t0.right).contains(x));
        }
        assert(!sub_contents(t0.left).contains(v));
        assert(t1.contents() =~= t0.contents().remove(v));
        assert(t2.contents() =~= t0.contents().remove(v));
    }

    /// Replacing a two-child node's value by its in-order successor, taken out
    /// of the right subtree: the tree loses the node's old value.
    proof fn lemma_successor_root(t0: AVLTree, nr: Option<Box<AVLTree>>, succ: i32, shrunk: bool)
        requires
            t0.wf(),
            sub_contents(t0.right).contains(succ),
            forall|x: i32| #[trigger] sub_contents(t0.right).contains(x) ==> succ <= x,
            sub_wf(nr),
            sub_contents(nr) == sub_contents(t0.right).remove(succ),
            sub_height(nr) == sub_height(t0.right) - (if shrunk {
                1int
            } else {
                0int
            }),
        ensures
            ({
                let t1 = AVLTree { val: succ, right: nr, ..t0 };
                let t2 = AVLTree { bal_factor: (t0.bal_factor + 1) as isize, ..t1 };
                &&& t1.contents() == t0.contents().remove(t0.val)
                &&& !shrunk ==> t1.wf() && t1.height() == t0.height()
                &&& shrunk ==> {
                    &&& t2.contents() == t0.contents().remove(t0.val)
                    &&& t2.bal_factor == t0.bal_factor + 1
                    &&& t2.bf_exact()
                    &&& t2.ordered()
                    &&& sub_balanced(t2.left)
                    &&& sub_balanced(t2.right)
                    &&& 0 <= t2.bal_factor <= 2
                    &&& t2.bal_factor == 0 ==> t2.height() + 1 == t0.height()
                    &&& t2.bal_factor != 0 ==> t2.height() == t0.height()
                }
            }),
    {
        let t1 = AVLTree { val: succ, right: nr, ..t0 };
        let t2 = AVLTree { bal_factor: (t0.bal_factor + 1) as isize, ..t1 };
        t0.lemma_unfold();
        t1.lemma_unfold();
        t2.lemma_unfold();
        AVLTree::lemma_sub_unfold(t0.left);
        AVLTree::lemma_sub_unfold(t0.right);
        AVLTree::lemma_sub_unfold(nr);
        assert(t0.val < succ);
        assert forall|x: i32| #[trigger] sub_contents(t1.left).contains(x) implies x < t1.val by {
            assert(x < t0.val);
        }
        assert forall|x: i32| #[trigger] sub_contents(t1.right).contains(x) implies t1.val < x by {
            assert(sub_contents(t0.right).contains(x));
        }
        assert(!sub_contents(t0.left).contains(t0.val));
        assert(!sub_contents(t0.right).contains(t0.val));
        assert(t1.contents() =~= t0.contents().remove(t0.val));
        assert(t2.contents() =~= t0.contents().remove(t0.val));
    }

    /// In an ordered tree the search for a value finds it exactly when the
    /// tree holds it.
    proof fn lemma_finds_iff_contains(self, v: i32)
        requires
            self.ordered(),
        ensures
            self.finds(v) <==> self.contents().contains(v),
        decreases self,
    {
        self.lemma_unfold();
        AVLTree::lemma_sub_unfold(self.left);
        AVLTree::lemma_sub_unfold(self.right);
        if self.val > v {
            assert(!sub_contents(self.right).contains(v));
            match self.left {
                Some(l) => {
                    l.lemma_finds_iff_contains(v);
                },
                None => {},
            }
        } else if self.val < v {
            assert(!sub_contents(self.left).contains(v));
            match self.right {
                Some(r) => {
                    r.lemma_finds_iff_contains(v);
                },
                None => {},
            }
        }
    }

    /// Whether a node `d` edges below this one (0 for this node) holds `v`,
    /// along any path.
    pub closed spec fn holds_at(self, v: i32, d: nat) -> bool
        decreases self,
    {
        if d == 0 {
            self.val == v
        } else {
            (match self.left {
                Some(l) => l.holds_at(v, (d - 1) as nat),
                None => false,
            }) || (match self.right {
                Some(r) => r.holds_at(v, (d - 1) as nat),
                None => false,
            })
        }
    }

    /// A value held at some depth is a value of the tree.
    proof fn lemma_holds_at_contents(self, v: i32, d: nat)
        requires
            self.holds_at(v, d),
        ensures
            self.contents().contains(v),
        decreases self,
    {
        self.lemma_unfold();
        if d > 0 {
            match self.left {
                Some(l) => {
                    if l.holds_at(v, (d - 1) as nat) {
                        l.lemma_holds_at_contents(v, (d - 1) as nat);
                    }
                },
                None => {},
            }
            match self.right {
                Some(r) => {
                    if r.holds_at(v, (d - 1) as nat) {
                        r.lemma_holds_at_contents(v, (d - 1) as nat);
                    }
                },
                None => {},
            }
        }
    }

    /// In an ordered tree that holds `v`, the search for `v` (whose length
    /// `distance` reports) stops at the least depth at which a node holds
    /// `v`: some node that many edges below holds it, and none nearer does.
    pub proof fn lemma_depth_is_least(self, v: i32)
        requires
            self.ordered(),
            self.finds(v),
        ensures
            self.holds_at(v, self.depth(v)),
            forall|d: nat| d < self.depth(v) ==> !#[trigger] self.holds_at(v, d),
        decreases self,
    {
        self.lemma_unfold();
        AVLTree::lemma_sub_unfold(self.left);
        AVLTree::lemma_sub_unfold(self.right);
        if self.val > v {
            let l = self.left->0;
            l.lemma_depth_is_least(v);
            assert(self.depth(v) == 1 + l.depth(v));
            assert forall|d: nat| d < self.depth(v) implies !#[trigger] self.holds_at(v, d) by {
                if d > 0 {
                    let e = (d - 1) as nat;
                    assert(!l.holds_at(v, e));
                    match self.right {
                        Some(r) => {
                            if r.holds_at(v, e) {
                                r.lemma_holds_at_contents(v, e);
                                assert(sub_contents(self.right).contains(v));
                            }
                        },
                        None => {},
                    }
                }
            }
        } else if self.val < v {
            let r = self.right->0;
            r.lemma_depth_is_least(v);
            assert(self.depth(v) == 1 + r.depth(v));
            assert forall|d: nat| d < self.depth(v) implies !#[trigger] self.holds_at(v, d) by {
                if d > 0 {
                    let e = (d - 1) as nat;
                    assert(!r.holds_at(v, e));
                    match self.left {
                        Some(l) => {
                            if l.holds_at(v, e) {
                                l.lemma_holds_at_contents(v, e);
                                assert(sub_contents(self.left).contains(v));
                            }
                        },
                        None => {},
                    }
                }
            }
        }
    }

    /// The rotation (single or double) that repairs a node whose left subtree
    /// is two levels taller than its right one.
    pub closed spec fn fix_left_heavy(self) -> AVLTree {
        let l = self.left->0;
        if l.bal_factor < 0 {
            AVLTree { left: Some(Box::new(l.rot_left())), ..self }.rot_right()
        } else {
            self.rot_right()
        }
    }

    /// The rotation (single or double) that repairs a node whose right subtree
    /// is two levels taller than its left one.
    pub closed spec fn fix_right_heavy(self) -> AVLTree {
        let r = self.right->0;
        if r.bal_factor > 0 {
            AVLTree { right: Some(Box::new(r.rot_right())), ..self }.rot_left()
        } else {
            self.rot_left()
        }
    }

    /// A new leaf holding `v`.
    pub closed spec fn leaf(v: i32) -> AVLTree {
        AVLTree { val: v, left: None, right: None, bal_factor: 0 }
    }

    /// The tree after inserting `v`, and whether its height grew: `v` goes
    /// down the search path to a new leaf; on the way back up each node whose
    /// subtree grew adjusts its balance factor and, when that reaches 2 or -2,
    /// is repaired by a single or double rotation.
    pub closed spec fn inserted(self, v: i32) -> (AVLTree, bool)
        decreases self,
    {
        if v < self.val {
            let (nl, g) = match self.left {
                Some(l) => l.inserted(v),
                None => (AVLTree::leaf(v), true),
            };
            let t1 = AVLTree { left: Some(Box::new(nl)), ..self };
            if g {
                let t2 = AVLTree { bal_factor: (self.bal_factor + 1) as isize, ..t1 };
                if t2.bal_factor > 1 {
                    (t2.fix_left_heavy(), false)
                } else {
                    (t2, t2.bal_factor != 0)
                }
            } else {
                (t1, false)
            }
        } else if v > self.val {
            let (nr, g) = match self.right {
                Some(r) => r.inserted(v),
                None => (AVLTree::leaf(v), true),
            };
            let t1 = AVLTree { right: Some(Box::new(nr)), ..self };
            if g {
                let t2 = AVLTree { bal_factor: (self.bal_factor - 1) as isize, ..t1 };
                if t2.bal_factor < -1 {
                    (t2.fix_right_heavy(), false)
                } else {
                    (t2, t2.bal_factor != 0)
                }
            } else {
                (t1, false)
            }
        } else {
            (self, false)
        }
    }

    /// Rebalancing after the left subtree lost a level (the balance factor
    /// already lowered): the tree, and whether its height dropped.
    pub closed spec fn rebalanced_left(self) -> (AVLTree, bool) {
        if self.bal_factor == -1 {
            (self, false)
        } else if self.bal_factor == 0 {
            (self, true)
        } else {
            (self.fix_right_heavy(), self.right->0.bal_factor != 0 || self.right->0.bal_factor > 0)
        }
    }

    /// Rebalancing after the right subtree lost a level (the balance factor
    /// already raised): the tree, and whether its height dropped.
    pub closed spec fn rebalanced_right(self) -> (AVLTree, bool) {
        if self.bal_factor == 1 {
            (self, false)
        } else if self.bal_factor == 0 {
            (self, true)
        } else {
            (self.fix_left_heavy(), self.left->0.bal_factor != 0 || self.left->0.bal_factor < 0)
        }
    }

    /// Taking the smallest node out of `self`: what is left (its right child
    /// takes its place), its value, and whether the height dropped.
    pub closed spec fn pulled(self) -> (Option<Box<AVLTree>>, i32, bool)
        decreases self,
    {
        match self.left {
            None => (self.right, self.val, true),
            Some(l) => {
                let (nl, v, s) = l.pulled();
                let t1 = AVLTree { left: nl, ..self };
                if s {
                    let (t3, d) = AVLTree { bal_factor: (self.bal_factor - 1) as isize, ..t1 }.rebalanced_left();
                    (Some(Box::new(t3)), v, d)
                } else {
                    (Some(Box::new(t1)), v, false)
                }
            },
        }
    }

    /// Removing the node `self` itself: what takes its place, and whether the
    /// height dropped. With two children the node stays and takes the value
    /// of its in-order successor, which is pulled out of the right subtree.
    pub closed spec fn removed(self) -> (Option<Box<AVLTree>>, bool) {
        match (self.left, self.right) {
            (None, None) => (None, true),
            (Some(l), None) => (Some(l), true),
            (None, Some(r)) => (Some(r), true),
            (Some(l), Some(r)) => {
                let (nr, sv, rs) = r.pulled();
                let n1 = AVLTree { val: sv, left: Some(l), right: nr, ..self };
                if rs {
                    let (n3, d) = AVLTree { bal_factor: (self.bal_factor + 1) as isize, ..n1 }.rebalanced_right();
                    (Some(Box::new(n3)), d)
                } else {
                    (Some(Box::new(n1)), false)
                }
            },
        }
    }

    /// The tree after deleting `v` from below this node, and whether its
    /// height dropped: the node holding `v` is removed where the search
    /// finds it, and each node on the way back up rebalances.
    pub closed spec fn deleted(self, v: i32) -> (AVLTree, bool)
        decreases self,
    {
        if v < self.val {
            match self.left {
                Some(l) => {
                    let (nl, s) = if l.val == v {
                        l.removed()
                    } else {
                        let (x, s) = l.deleted(v);
                        (Some(Box::new(x)), s)
                    };
                    let t1 = AVLTree { left: nl, ..self };
                    if s {
                        AVLTree { bal_factor: (self.bal_factor - 1) as isize, ..t1 }.rebalanced_left()
                    } else {
                        (t1, false)
                    }
                },
                None => (self, false),
            }
        } else if v > self.val {
            match self.right {
                Some(r) => {
                    let (nr, s) = if r.val == v {
                        r.removed()
                    } else {
                        let (x, s) = r.deleted(v);
                        (Some(Box::new(x)), s)
                    };
                    let t1 = AVLTree { right: nr, ..self };
                    if s {
                        AVLTree { bal_factor: (self.bal_factor + 1) as isize, ..t1 }.rebalanced_right()
                    } else {
                        (t1, false)
                    }
                },
                None => (self, false),
            }
        } else {
            (self, false)
        }
    }

    /// Repairing a left-heavy node yields a well-formed tree with the same
    /// values, one level lower unless the left child was itself level.
    proof fn lemma_fix_left_heavy(self)
        requires
            self.left is Some,
            self.bf_exact(),
            self.ordered(),
            self.bal_factor == 2,
            sub_balanced(self.left),
            sub_balanced(self.right),
        ensures
            self.fix_left_heavy().wf(),
            self.fix_left_heavy().contents() == self.contents(),
            self.fix_left_heavy().height() == self.height() - (if self.left->0.bal_factor == 0 {
                0int
            } else {
                1int
            }),
            -2 <= self.left->0.bal_factor <= 2,
            self.left->0.bal_factor < 0 ==> {
                let l = self.left->0;
                &&& l.right is Some
                &&& l.bf_exact()
                &&& -2 <= l.right->0.bal_factor <= 2
                &&& (AVLTree { left: Some(Box::new(l.rot_left())), ..self }).bf_exact()
                &&& -2 <= l.rot_left().bal_factor <= 2
            },
    {
        let l = self.left->0;
        self.lemma_unfold();
        l.lemma_unfold();
        AVLTree::lemma_sub_unfold(self.left);
        AVLTree::lemma_sub_unfold(self.right);
        AVLTree::lemma_sub_unfold(l.left);
        AVLTree::lemma_sub_unfold(l.right);
        if l.bal_factor >= 0 {
            self.lemma_rot_right();
            let r = self.rot_right();
            let x2 = r.right->0;
            r.lemma_unfold();
            x2.lemma_unfold();
            AVLTree::lemma_sub_unfold(r.left);
            AVLTree::lemma_sub_unfold(r.right);
            AVLTree::lemma_sub_unfold(x2.left);
            AVLTree::lemma_sub_unfold(x2.right);
            assert(x2.balanced());
            assert(r.balanced());
        } else {
            let z = l.right->0;
            z.lemma_unfold();
            AVLTree::lemma_sub_unfold(z.left);
            AVLTree::lemma_sub_unfold(z.right);
            l.lemma_rot_left();
            let l2 = l.rot_left();
            let y2 = l2.left->0;
            l2.lemma_unfold();
            y2.lemma_unfold();
            AVLTree::lemma_sub_unfold(l2.left);
            AVLTree::lemma_sub_unfold(l2.right);
            let t2 = AVLTree { left: Some(Box::new(l2)), ..self };
            t2.lemma_unfold();
            AVLTree::lemma_sub_unfold(t2.left);
            assert(t2.bf_exact());
            assert(t2.ordered());
            t2.lemma_rot_right();
            let r = t2.rot_right();
            let x2 = r.right->0;
            r.lemma_unfold();
            x2.lemma_unfold();
            AVLTree::lemma_sub_unfold(r.left);
            AVLTree::lemma_sub_unfold(r.right);
            AVLTree::lemma_sub_unfold(x2.left);
            AVLTree::lemma_sub_unfold(x2.right);
            assert(y2.balanced());
            assert(x2.balanced());
            assert(r.balanced());
        }
    }

    /// Repairing a right-heavy node yields a well-formed tree with the same
    /// values, one level lower unless the right child was itself level.
    proof fn lemma_fix_right_heavy(self)
        requires
            self.right is Some,
            self.bf_exact(),
            self.ordered(),
            self.bal_factor == -2,
            sub_balanced(self.left),
            sub_balanced(self.right),
        ensures
            self.fix_right_heavy().wf(),
            self.fix_right_heavy().contents() == self.contents(),
            self.fix_right_heavy().height() == self.height() - (if self.right->0.bal_factor == 0 {
                0int
            } else {
                1int
            }),
            -2 <= self.right->0.bal_factor <= 2,
            self.right->0.bal_factor > 0 ==> {
                let r = self.right->0;
                &&& r.left is Some
                &&& r.bf_exact()
                &&& -2 <= r.left->0.bal_factor <= 2
                &&& (AVLTree { right: Some(Box::new(r.rot_right())), ..self }).bf_exact()
                &&& -2 <= r.rot_right().bal_factor <= 2
            },
    {
        let rr = self.right->0;
        self.lemma_unfold();
        rr.lemma_unfold();
        AVLTree::lemma_sub_unfold(self.left);
        AVLTree::lemma_sub_unfold(self.right);
        AVLTree::lemma_sub_unfold(rr.left);
        AVLTree::lemma_sub_unfold(rr.right);
        if rr.bal_factor <= 0 {
            self.lemma_rot_left();
            let r = self.rot_left();
            let x2 = r.left->0;
            r.lemma_unfold();
            x2.lemma_unfold();
            AVLTree::lemma_sub_unfold(r.left);
            AVLTree::lemma_sub_unfold(r.right);
            AVLTree::lemma_sub_unfold(x2.left);
            AVLTree::lemma_sub_unfold(x2.right);
            assert(x2.balanced());
            assert(r.balanced());
        } else {
            let z = rr.left->0;
            z.lemma_unfold();
            AVLTree::lemma_sub_unfold(z.left);
            AVLTree::lemma_sub_unfold(z.right);
            rr.lemma_rot_right();
            let r2 = rr.rot_right();
            let y2 = r2.right->0;
            r2.lemma_unfold();
            y2.lemma_unfold();
            AVLTree::lemma_sub_unfold(r2.left);
            AVLTree::lemma_sub_unfold(r2.right);
            let t2 = AVLTree { right: Some(Box::new(r2)), ..self };
            t2.lemma_unfold();
            AVLTree::lemma_sub_unfold(t2.right);
            assert(t2.bf_exact());
            assert(t2.ordered());
            t2.lemma_rot_left();
            let r = t2.rot_left();
            let x2 = r.left->0;
            r.lemma_unfold();
            x2.lemma_unfold();
            AVLTree::lemma_sub_unfold(r.left);
            AVLTree::lemma_sub_unfold(r.right);
            AVLTree::lemma_sub_unfold(x2.left);
            AVLTree::lemma_sub_unfold(x2.right);
            assert(y2.balanced());
            assert(x2.balanced());
            assert(r.balanced());
        }
    }
}

impl AVLTree {
    /// In a well-formed tree that holds a value (as after inserting it), the
    /// search for that value succeeds.
    pub proof fn lemma_insert_then_found(before: AVLTree, after: AVLTree, v: i32)
        requires
            after.wf(),
            after.contents() == before.contents().insert(v),
        ensures
            after.finds(v),
    {
        after.lemma_finds_iff_contains(v);
    }

    /// After a value other than the root's is deleted from a well-formed
    /// tree, the search for it fails, and the search for every other value
    /// gives what it gave before.
    pub proof fn lemma_delete_then_gone(before: AVLTree, after: AVLTree, v: i32, w: i32)
        requires
            before.wf(),
            after.wf(),
            after.contents() == before.contents().remove(v),
        ensures
            !after.finds(v),
            w != v ==> (after.finds(w) <==> before.finds(w)),
    {
        after.lemma_finds_iff_contains(v);
        after.lemma_finds_iff_contains(w);
        before.lemma_finds_iff_contains(w);
    }
}

impl AVLTree {
    pub fn new(
        val: i32,
        left: Option<Box<AVLTree>>,
        right: Option<Box<AVLTree>>,
        bal_factor: isize,
    ) -> (t: Self)
        ensures
            t.value() == val,
            t.left_child() == left,
            t.right_child() == right,
            t.balance() == bal_factor,
            (left is None && right is None && bal_factor == 0) ==> t.wf(),
    {
        let t = AVLTree { val, left, right, bal_factor };
        proof {
            t.lemma_unfold();
            AVLTree::lemma_sub_unfold(t.left);
            AVLTree::lemma_sub_unfold(t.right);
        }
        t
    }

    /// Adds `val` unless it is already present, rebalancing on the way back
    /// up; returns whether the height of this subtree grew.
    pub fn balanced_insert(&mut self, val: i32) -> (grew: bool)
        requires
            old(self).wf(),
        ensures
            final(self).wf(),
            final(self).contents() == old(self).contents().insert(val),
            final(self).height() == old(self).height() + (if grew {
                1int
            } else {
                0int
            }),
            grew ==> final(self).balance() != 0,
            old(self).contents().contains(val) ==> *final(self) == *old(self) && !grew,
            (*final(self), grew) == old(self).inserted(val),
        decreases *old(self),
    {
        let ghost t0 = *self;
        proof {
            t0.lemma_unfold();
            AVLTree::lemma_sub_unfold(t0.left);
            AVLTree::lemma_sub_unfold(t0.right);
        }
        if val < self.val {
            let height_increased = match self.left.take() {
                Some(mut left) => {
                    let g = (&mut *left).balanced_insert(val);
                    self.left = Some(left);
                    g
                },
                None => {
                    let leaf = AVLTree::new(val, None, None, 0);
                    proof {
                        leaf.lemma_unfold();
                        AVLTree::lemma_sub_unfold(leaf.left);
                        AVLTree::lemma_sub_unfold(leaf.right);
                        assert(leaf.contents() =~= Set::<i32>::empty().insert(val));
                    }
                    self.left = Some(Box::new(leaf));
                    true
                },
            };
            proof {
                AVLTree::lemma_insert_left_child(t0, *self.left->0, val, height_increased);
            }
            if height_increased {
                self.bal_factor = self.bal_factor + 1;
                if self.bal_factor > 1 {
                    let ghost pre = *self;
                    proof {
                        pre.lemma_fix_left_heavy();
                    }
                    let left_bf = match &self.left {
                        Some(l) => l.bal_factor,
                        None => 0,
                    };
                    if left_bf < 0 {
                        let mut l = self.left.take().unwrap();
                        (&mut *l).rotate_left();
                        self.left = Some(l);
                    }
                    self.rotate_right();
                    assert(*self == pre.fix_left_heavy());
                    return false;
                }
                return self.bal_factor != 0;
            }
        } else if val > self.val {
            let height_increased = match self.right.take() {
                Some(mut right) => {
                    let g = (&mut *right).balanced_insert(val);
                    self.right = Some(right);
                    g
                },
                None => {
                    let leaf = AVLTree::new(val, None, None, 0);
                    proof {
                        leaf.lemma_unfold();
                        AVLTree::lemma_sub_unfold(leaf.left);
                        AVLTree::lemma_sub_unfold(leaf.right);
                        assert(leaf.contents() =~= Set::<i32>::empty().insert(val));
                    }
                    self.right = Some(Box::new(leaf));
                    true
                },
            };
            proof {
                AVLTree::lemma_insert_right_child(t0, *self.right->0, val, height_increased);
            }
            if height_increased {
                self.bal_factor = self.bal_factor - 1;
                if self.bal_factor < -1 {
                    let ghost pre = *self;
                    proof {
                        pre.lemma_fix_right_heavy();
                    }
                    let right_bf = match &self.right {
                        Some(r) => r.bal_factor,
                        None => 0,
                    };
                    if right_bf > 0 {
                        let mut r = self.right.take().unwrap();
                        (&mut *r).rotate_right();
                        self.right = Some(r);
                    }
                    self.rotate_left();
                    assert(*self == pre.fix_right_heavy());
                    return false;
                }
                return self.bal_factor != 0;
            }
        } else {
            assert(t0.contents().insert(val) =~= t0.contents());
        }
        false
    }

    /// Removes `val` from below this node (this node's own value is never
    /// removed), rebalancing on the way back up; returns whether the height of
    /// this subtree shrank.
    pub fn balanced_delete(&mut self, val: i32) -> (shrunk: bool)
        requires
            old(self).wf(),
        ensures
            final(self).wf(),
            final(self).contents() == (if val == old(self).value() {
                old(self).contents()
            } else {
                old(self).contents().remove(val)
            }),
            final(self).height() == old(self).height() - (if shrunk {
                1int
            } else {
                0int
            }),
            (val == old(self).value() || !old(self).contents().contains(val)) ==> *final(self)
                == *old(self) && !shrunk,
            (*final(self), shrunk) == old(self).deleted(val),
        decreases *old(self),
    {
        let ghost t0 = *self;
        proof {
            t0.lemma_unfold();
            AVLTree::lemma_sub_unfold(t0.left);
            AVLTree::lemma_sub_unfold(t0.right);
        }
        if val < self.val {
            match self.left.take() {
                Some(left) => {
                    let shrunk = if left.val == val {
                        let mut slot = Some(left);
                        let s = AVLTree::remove_node(&mut slot);
                        self.left = slot;
                        s
                    } else {
                        let mut left = left;
                        let s = (&mut *left).balanced_delete(val);
                        self.left = Some(left);
                        s
                    };
                    proof {
                        AVLTree::lemma_delete_left_child(t0, self.left, val, shrunk);
                    }
                    if shrunk {
                        self.bal_factor = self.bal_factor - 1;
                        return self.rebalance_left_shrunk();
                    }
                },
                None => {
                    assert(t0.contents().remove(val) =~= t0.contents());
                },
            }
        } else if val > self.val {
            match self.right.take() {
                Some(right) => {
                    let shrunk = if right.val == val {
                        let mut slot = Some(right);
                        let s = AVLTree::remove_node(&mut slot);
                        self.right = slot;
                        s
                    } else {
                        let mut right = right;
                        let s = (&mut *right).balanced_delete(val);
                        self.right = Some(right);
                        s
                    };
                    proof {
                        AVLTree::lemma_delete_right_child(t0, self.right, val, shrunk);
                    }
                    if shrunk {
                        self.bal_factor = self.bal_factor + 1;
                        return self.rebalance_right_shrunk();
                    }
                },
                None => {
                    assert(t0.contents().remove(val) =~= t0.contents());
                },
            }
        }
        false
    }

    /// Removes the node in `slot` (with no, one or two children) and returns
    /// whether the height at `slot` shrank. A node with two children keeps its
    /// place and takes the value of its in-order successor, which is removed
    /// from the right subtree instead.
    fn remove_node(slot: &mut Option<Box<AVLTree>>) -> (shrunk: bool)
        requires
            *old(slot) is Some,
            sub_wf(*old(slot)),
        ensures
            sub_wf(*final(slot)),
            sub_contents(*final(slot)) == sub_contents(*old(slot)).remove((*old(slot))->0.val),
            sub_height(*final(slot)) == sub_height(*old(slot)) - (if shrunk {
                1int
            } else {
                0int
            }),
            (*final(slot), shrunk) == (*(*old(slot))->0).removed(),
    {
        let ghost t0: AVLTree = *(*old(slot))->0;
        proof {
            AVLTree::lemma_sub_unfold(*old(slot));
            t0.lemma_unfold();
            AVLTree::lemma_sub_unfold(t0.left);
            AVLTree::lemma_sub_unfold(t0.right);
        }
        let mut node = slot.take().unwrap();
        let shrunk = match (node.left.take(), node.right.take()) {
            (None, None) => {
                *slot = None;
                assert(t0.contents().remove(t0.val) =~= Set::<i32>::empty());
                return true;
            },
            (Some(l), None) => {
                proof {
                    assert(!l.contents().contains(t0.val));
                    assert(t0.contents().remove(t0.val) =~= l.contents());
                }
                *slot = Some(l);
                return true;
            },
            (None, Some(r)) => {
                proof {
                    assert(!r.contents().contains(t0.val));
                    assert(t0.contents().remove(t0.val) =~= r.contents());
                }
                *slot = Some(r);
                return true;
            },
            (Some(l), Some(r)) => {
                node.left = Some(l);
                let mut right_slot = Some(r);
                let (succ_val, right_shrunk) = AVLTree::pull_leftmost(&mut right_slot);
                node.right = right_slot;
                node.val = succ_val;
                proof {
                    AVLTree::lemma_successor_root(t0, right_slot, succ_val, right_shrunk);
                }
                if right_shrunk {
                    node.bal_factor = node.bal_factor + 1;
                    (&mut *node).rebalance_right_shrunk()
                } else {
                    false
                }
            },
        };
        *slot = Some(node);
        proof {
            AVLTree::lemma_sub_unfold(*slot);
        }
        shrunk
    }

    /// Takes the smallest node out of the subtree in `slot` (its right child,
    /// if any, takes its place) and returns its value and whether the height
    /// at `slot` shrank.
    fn pull_leftmost(slot: &mut Option<Box<AVLTree>>) -> (res: (i32, bool))
        requires
            *old(slot) is Some,
            sub_wf(*old(slot)),
        ensures
            sub_contents(*old(slot)).contains(res.0),
            forall|x: i32| #[trigger] sub_contents(*old(slot)).contains(x) ==> res.0 <= x,
            sub_wf(*final(slot)),
            sub_contents(*final(slot)) == sub_contents(*old(slot)).remove(res.0),
            sub_height(*final(slot)) == sub_height(*old(slot)) - (if res.1 {
                1int
            } else {
                0int
            }),
            (*final(slot), res.0, res.1) == (*(*old(slot))->0).pulled(),
        decreases *old(slot),
    {
        let ghost t0: AVLTree = *(*old(slot))->0;
        proof {
            AVLTree::lemma_sub_unfold(*old(slot));
            t0.lemma_unfold();
            AVLTree::lemma_sub_unfold(t0.left);
            AVLTree::lemma_sub_unfold(t0.right);
        }
        let mut node = slot.take().unwrap();
        if node.left.is_none() {
            let val = node.val;
            *slot = node.right.take();
            proof {
                AVLTree::lemma_sub_unfold(*slot);
                assert(!sub_contents(t0.right).contains(t0.val));
                assert(t0.contents().remove(t0.val) =~= sub_contents(t0.right));
            }
            (val, true)
        } else {
            let mut left_slot = node.left.take();
            let (val, left_shrunk) = AVLTree::pull_leftmost(&mut left_slot);
            node.left = left_slot;
            proof {
                AVLTree::lemma_delete_left_child(t0, left_slot, val, left_shrunk);
            }
            let shrunk = if left_shrunk {
                node.bal_factor = node.bal_factor - 1;
                (&mut *node).rebalance_left_shrunk()
            } else {
                false
            };
            *slot = Some(node);
            proof {
                AVLTree::lemma_sub_unfold(*slot);
            }
            (val, shrunk)
        }
    }

    /// Called once the left subtree has lost a level and the balance factor
    /// has been lowered to match; rebalances and returns whether the height
    /// of this subtree dropped below what it was before the loss.
    fn rebalance_left_shrunk(&mut self) -> (dropped: bool)
        requires
            old(self).bf_exact(),
            old(self).ordered(),
            sub_balanced(old(self).left),
            sub_balanced(old(self).right),
            -2 <= old(self).bal_factor <= 0,
        ensures
            final(self).wf(),
            final(self).contents() == old(self).contents(),
            old(self).bal_factor == 0 ==> dropped && final(self).height() == old(self).height(),
            old(self).bal_factor != 0 ==> final(self).height() == old(self).height() - (if dropped {
                1int
            } else {
                0int
            }),
            (*final(self), dropped) == old(self).rebalanced_left(),
    {
        let ghost t0 = *self;
        proof {
            t0.lemma_unfold();
            AVLTree::lemma_sub_unfold(t0.left);
            AVLTree::lemma_sub_unfold(t0.right);
        }
        if self.bal_factor == -1 {
            false
        } else if self.bal_factor == 0 {
            true
        } else {
            proof {
                t0.lemma_fix_right_heavy();
            }
            let right_bf = match &self.right {
                Some(r) => r.bal_factor,
                None => 0,
            };
            if right_bf <= 0 {
                self.rotate_left();
                assert(*self == t0.fix_right_heavy());
                right_bf != 0
            } else {
                let mut r = self.right.take().unwrap();
                (&mut *r).rotate_right();
                self.right = Some(r);
                self.rotate_left();
                assert(*self == t0.fix_right_heavy());
                true
            }
        }
    }

    /// Mirror image of `rebalance_left_shrunk`, for a right subtree that lost
    /// a level.
    fn rebalance_right_shrunk(&mut self) -> (dropped: bool)
        requires
            old(self).bf_exact(),
            old(self).ordered(),
            sub_balanced(old(self).left),
            sub_balanced(old(self).right),
            0 <= old(self).bal_factor <= 2,
        ensures
            final(self).wf(),
            final(self).contents() == old(self).contents(),
            old(self).bal_factor == 0 ==> dropped && final(self).height() == old(self).height(),
            old(self).bal_factor != 0 ==> final(self).height() == old(self).height() - (if dropped {
                1int
            } else {
                0int
            }),
            (*final(self), dropped) == old(self).rebalanced_right(),
    {
        let ghost t0 = *self;
        proof {
            t0.lemma_unfold();
            AVLTree::lemma_sub_unfold(t0.left);
            AVLTree::lemma_sub_unfold(t0.right);
        }
        if self.bal_factor == 1 {
            false
        } else if self.bal_factor == 0 {
            true
        } else {
            proof {
                t0.lemma_fix_left_heavy();
            }
            let left_bf = match &self.left {
                Some(l) => l.bal_factor,
                None => 0,
            };
            if left_bf >= 0 {
                self.rotate_right();
                assert(*self == t0.fix_left_heavy());
                left_bf != 0
            } else {
                let mut l = self.left.take().unwrap();
                (&mut *l).rotate_left();
                self.left = Some(l);
                self.rotate_right();
                assert(*self == t0.fix_left_heavy());
                true
            }
        }
    }

    /// Follows the search path of `val` and reports whether it reaches a node
    /// that holds it.
    pub fn contains(&self, val: i32) -> (r: bool)
        ensures
            r == self.finds(val),
            self.ordered() ==> (r <==> self.contents().contains(val)),
        decreases self,
    {
        proof {
            if self.ordered() {
                self.lemma_finds_iff_contains(val);
            }
        }
        if self.val > val {
            match &self.left {
                Some(left) => left.contains(val),
                None => false,
            }
        } else if self.val < val {
            match &self.right {
                Some(right) => right.contains(val),
                None => false,
            }
        } else {
            true
        }
    }

    /// The number of edges from this node down to the node that holds `val`,
    /// counted in a `usize` that wraps around.
    pub fn distance(&self, val: i32) -> (d: usize)
        requires
            self.finds(val),
        ensures
            d as int == self.depth(val) as int % (usize::MAX as int + 1),
    {
        let mut count: usize = 0;
        self.recurse_distance(val, &mut count);
        count
    }

    fn recurse_distance(&self, val: i32, count: &mut usize)
        requires
            self.finds(val),
        ensures
            *final(count) as int == (*old(count) as int + self.depth(val)) % (usize::MAX as int
                + 1),
        decreases self,
    {
        let ghost c0: int = *count as int;
        let ghost m: int = usize::MAX as int + 1;
        if self.val > val {
            match &self.left {
                Some(left) => {
                    *count = count.wrapping_add(1);
                    assert(*count as int == (c0 + 1) % m);
                    left.recurse_distance(val, count);
                    proof {
                        vstd::arithmetic::div_mod::lemma_add_mod_noop_right(
                            left.depth(val) as int,
                            c0 + 1,
                            m,
                        );
                    }
                },
                None => {},
            }
        } else if self.val < val {
            match &self.right {
                Some(right) => {
                    *count = count.wrapping_add(1);
                    assert(*count as int == (c0 + 1) % m);
                    right.recurse_distance(val, count);
                    proof {
                        vstd::arithmetic::div_mod::lemma_add_mod_noop_right(
                            right.depth(val) as int,
                            c0 + 1,
                            m,
                        );
                    }
                },
                None => {},
            }
        } else {
            proof {
                vstd::arithmetic::div_mod::lemma_small_mod(c0 as nat, m as nat);
            }
        }
    }

    fn rotate_right(&mut self)
        requires
            old(self).left is Some,
            -2 <= old(self).bal_factor <= 2,
            -2 <= old(self).left->0.bal_factor <= 2,
        ensures
            *final(self) == old(self).rot_right(),
    {
        proof {
            old(self).lemma_unfold();
        }
        let mut y = self.left.take().unwrap();
        self.left = y.right.take();
        let old_bf_x = self.bal_factor;
        let old_bf_y = y.bal_factor;
        let new_bf_x = old_bf_x - 1 - (if old_bf_y > 0 {
            old_bf_y
        } else {
            0
        });
        let new_bf_y = old_bf_y - 1 + (if new_bf_x < 0 {
            new_bf_x
        } else {
            0
        });
        self.bal_factor = new_bf_x;
        y.bal_factor = new_bf_y;
        std::mem::swap(self, &mut *y);
        self.right = Some(y);
    }

    fn rotate_left(&mut self)
        requires
            old(self).right is Some,
            -2 <= old(self).bal_factor <= 2,
            -2 <= old(self).right->0.bal_factor <= 2,
        ensures
            *final(self) == old(self).rot_left(),
    {
        proof {
            old(self).lemma_unfold();
        }
        let mut y = self.right.take().unwrap();
        self.right = y.left.take();
        let old_bf_x = self.bal_factor;
        let old_bf_y = y.bal_factor;
        let new_bf_x = old_bf_x + 1 - (if old_bf_y < 0 {
            old_bf_y
        } else {
            0
        });
        let new_bf_y = old_bf_y + 1 + (if new_bf_x > 0 {
            new_bf_x
        } else {
            0
        });
        self.bal_factor = new_bf_x;
        y.bal_factor = new_bf_y;
        std::mem::swap(self, &mut *y);
        self.left = Some(y);
    }
}

impl Clone for AVLTree {
    fn clone(&self) -> (res: Self)
        ensures
            res == *self,
        decreases self,
    {
        let left = match &self.left {
            Some(l) => Some(Box::new((&**l).clone())),
            None => None,
        };
        let right = match &self.right {
            Some(r) => Some(Box::new((&**r).clone())),
            None => None,
        };
        AVLTree { val: self.val, left, right, bal_factor: self.bal_factor }
    }
}

} // verus!
