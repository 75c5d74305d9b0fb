use vstd::prelude::*;

verus! {

/// A binary tree whose nodes carry one value each.  New values are
/// inserted at the first free slot in level order.
#[derive(PartialEq, Debug)]
pub struct BinaryTree<T> {
    /// The value stored in the node.
    pub value: T,
    /// The left child of the node.
    pub left: Option<Box<BinaryTree<T>>>,
    /// The right child of the node.
    pub right: Option<Box<BinaryTree<T>>>,
}

/// A childless node holding `v`.
pub open spec fn leaf<T>(v: T) -> BinaryTree<T> {
    BinaryTree { value: v, left: None, right: None }
}

/// The number of levels of the tree.
pub open spec fn height<T>(t: BinaryTree<T>) -> nat
    decreases t,
{
    let hl = match t.left {
        Some(l) => height(*l),
        None => 0,
    };
    let hr = match t.right {
        Some(r) => height(*r),
        None => 0,
    };
    1 + if hl >= hr {
        hl
    } else {
        hr
    }
}

/// Inserts `v` at the leftmost free slot exactly `d` levels below the
/// root of `t`, or yields `None` when every such slot is taken or
/// unreachable.
pub open spec fn insert_at_depth<T>(t: BinaryTree<T>, v: T, d: nat) -> Option<BinaryTree<T>>
    decreases d,
{
    if d == 0 {
        None
    } else if d == 1 {
        if t.left is None {
            Some(BinaryTree { value: t.value, left: Some(Box::new(leaf(v))), right: t.right })
        } else if t.right is None {
            Some(BinaryTree { value: t.value, left: t.left, right: Some(Box::new(leaf(v))) })
        } else {
            None
        }
    } else {
        let sub_l = match t.left {
            Some(l) => insert_at_depth(*l, v, (d - 1) as nat),
            None => None,
        };
        match sub_l {
            Some(l2) => Some(
                BinaryTree { value: t.value, left: Some(Box::new(l2)), right: t.right },
            ),
            None => {
                let sub_r = match t.right {
                    Some(r) => insert_at_depth(*r, v, (d - 1) as nat),
                    None => None,
                };
                match sub_r {
                    Some(r2) => Some(
                        BinaryTree { value: t.value, left: t.left, right: Some(Box::new(r2)) },
                    ),
                    None => None,
                }
            },
        }
    }
}

/// `t2` is `t` with `v` inserted at the first free slot in level order:
/// it was inserted `d` levels down, and every shallower level was full.
pub open spec fn is_level_insert<T>(t: BinaryTree<T>, v: T, d: nat, t2: BinaryTree<T>) -> bool {
    &&& insert_at_depth(t, v, d) == Some(t2)
    &&& forall|dd: nat| 1 <= dd < d ==> insert_at_depth(t, v, dd) is None
}

/// The level-order insertion result, as a function of the tree and value.
pub open spec fn level_insert<T>(t: BinaryTree<T>, v: T) -> BinaryTree<T> {
    let d = choose|d: nat| #[trigger] insert_at_depth(t, v, d) is Some && forall|dd: nat|
        1 <= dd < d ==> insert_at_depth(t, v, dd) is None;
    insert_at_depth(t, v, d)->Some_0
}

/// The tree a slice folds into: its first element at the root, the rest
/// inserted one by one in level order.
pub open spec fn tree_of<T>(vals: Seq<T>) -> BinaryTree<T>
    decreases vals.len(),
{
    if vals.len() <= 1 {
        leaf(vals[0])
    } else {
        level_insert(tree_of(vals.drop_last()), vals.last())
    }
}

/// Some level at most the tree's height always has a free slot.
proof fn lemma_insert_possible<T>(t: BinaryTree<T>, v: T)
    ensures
        exists|d: nat| 1 <= d <= height(t) && #[trigger] insert_at_depth(t, v, d) is Some,
    decreases t,
{
    if t.left is None || t.right is None {
        assert(insert_at_depth(t, v, 1nat) is Some);
        assert(1 <= 1nat <= height(t) && insert_at_depth(t, v, 1nat) is Some);
    } else {
        let l = *t.left->Some_0;
        lemma_insert_possible(l, v);
        let d = choose|d: nat| 1 <= d <= height(l) && #[trigger] insert_at_depth(l, v, d) is Some;
        assert(insert_at_depth(t, v, (d + 1) as nat) == Some(
            BinaryTree {
                value: t.value,
                left: Some(Box::new(insert_at_depth(l, v, d)->Some_0)),
                right: t.right,
            },
        ));
        assert(height(l) + 1 <= height(t));
        assert(1 <= (d + 1) as nat <= height(t) && insert_at_depth(t, v, (d + 1) as nat) is Some);
    }
}

/// Inserting at level `d` grows the height to at most the larger of the
/// old height and `d + 1`; success also means the tree was at least `d`
/// levels tall.
proof fn lemma_insert_height<T>(t: BinaryTree<T>, v: T, d: nat, t2: BinaryTree<T>)
    requires
        insert_at_depth(t, v, d) == Some(t2),
    ensures
        d <= height(t),
        height(t2) <= if height(t) >= d + 1 {
            height(t)
        } else {
            d + 1
        },
        height(t2) <= height(t) + 1,
    decreases d,
{
    let hl = match t.left {
        Some(l) => height(*l),
        None => 0nat,
    };
    let hr = match t.right {
        Some(r) => height(*r),
        None => 0nat,
    };
    assert(height(t) == 1 + if hl >= hr {
        hl
    } else {
        hr
    });
    if d == 1 {
        assert(height(leaf(v)) == 1);
        if t.left is None {
            assert(t2.left == Some(Box::new(leaf(v))));
            assert(height(*t2.left->Some_0) == 1);
            assert(height(t2) == 1 + if 1nat >= hr {
                1nat
            } else {
                hr
            });
        } else {
            assert(t2.right == Some(Box::new(leaf(v))));
            assert(height(*t2.right->Some_0) == 1);
            assert(height(t2) == 1 + if hl >= 1nat {
                hl
            } else {
                1nat
            });
        }
    } else {
        let sub_l = match t.left {
            Some(l) => insert_at_depth(*l, v, (d - 1) as nat),
            None => None,
        };
        if sub_l is Some {
            let l = *t.left->Some_0;
            let l2 = sub_l->Some_0;
            lemma_insert_height(l, v, (d - 1) as nat, l2);
            assert(t2.left == Some(Box::new(l2)));
            assert(height(*t2.left->Some_0) == height(l2));
            assert(height(t2) == 1 + if height(l2) >= hr {
                height(l2)
            } else {
                hr
            });
        } else {
            assert(t.right is Some);
            let r = *t.right->Some_0;
            let sub_r = insert_at_depth(r, v, (d - 1) as nat);
            assert(sub_r is Some);
            let r2 = sub_r->Some_0;
            lemma_insert_height(r, v, (d - 1) as nat, r2);
            assert(t2.right == Some(Box::new(r2)));
            assert(height(*t2.right->Some_0) == height(r2));
            assert(height(t2) == 1 + if hl >= height(r2) {
                hl
            } else {
                height(r2)
            });
        }
    }
}

/// Level-order insertion is deterministic: two results of inserting the
/// same value into the same tree coincide.
pub proof fn lemma_level_insert_unique<T>(
    t: BinaryTree<T>,
    v: T,
    d1: nat,
    t1: BinaryTree<T>,
    d2: nat,
    t2: BinaryTree<T>,
)
    requires
        is_level_insert(t, v, d1, t1),
        is_level_insert(t, v, d2, t2),
    ensures
        d1 == d2,
        t1 == t2,
{
    if d1 < d2 {
        assert(insert_at_depth(t, v, d1) is None);
    } else if d2 < d1 {
        assert(insert_at_depth(t, v, d2) is None);
    }
}

impl<T: Copy + PartialEq> BinaryTree<T> {
    /// Creates a childless node holding `value`.
    pub fn new(value: T) -> (r: Self)
        ensures
            r == leaf(value),
    {
        BinaryTree { value, left: None, right: None }
    }

    /// Tries to insert `new_value` at the leftmost free slot exactly `d`
    /// levels below `node`; reports whether a slot was found.
    fn try_insert_at(node: &mut BinaryTree<T>, new_value: T, d: usize) -> (r: bool)
        requires
            d >= 1,
        ensures
            match insert_at_depth(*old(node), new_value, d as nat) {
                Some(t2) => r && *final(node) == t2,
                None => !r && *final(node) == *old(node),
            },
        decreases d,
    {
        if d == 1 {
            if node.left.is_none() {
                node.left = Some(Box::new(BinaryTree::new(new_value)));
                true
            } else if node.right.is_none() {
                node.right = Some(Box::new(BinaryTree::new(new_value)));
                true
            } else {
                false
            }
        } else {
            match node.left.take() {
                Some(mut boxed) => {
                    let ok = Self::try_insert_at(&mut *boxed, new_value, d - 1);
                    node.left = Some(boxed);
                    if ok {
                        return true;
                    }
                },
                None => {},
            }
            match node.right.take() {
                Some(mut boxed) => {
                    let ok = Self::try_insert_at(&mut *boxed, new_value, d - 1);
                    node.right = Some(boxed);
                    if ok {
                        return true;
                    }
                },
                None => {},
            }
            false
        }
    }

    /// Inserts `new_value` at the first free slot in level order: the
    /// shallowest level with room, leftmost position first.
    pub fn insert(&mut self, new_value: T)
        requires
            height(*old(self)) < usize::MAX,
        ensures
            exists|d: nat| is_level_insert(*old(self), new_value, d, *final(self)),
            *final(self) == level_insert(*old(self), new_value),
            height(*final(self)) <= height(*old(self)) + 1,
    {
        let mut d: usize = 1;
        proof {
            lemma_insert_possible(*old(self), new_value);
        }
        loop
            invariant_except_break
                d >= 1,
                *self == *old(self),
                height(*old(self)) < usize::MAX,
                forall|dd: nat| 1 <= dd < d ==> insert_at_depth(*old(self), new_value, dd) is None,
                exists|de: nat|
                    1 <= de <= height(*old(self)) && #[trigger] insert_at_depth(
                        *old(self),
                        new_value,
                        de,
                    ) is Some,
                d <= height(*old(self)),
            ensures
                exists|dx: nat| is_level_insert(*old(self), new_value, dx, *self),
            decreases height(*old(self)) - d,
        {
            if Self::try_insert_at(self, new_value, d) {
                proof {
                    assert(is_level_insert(*old(self), new_value, d as nat, *self));
                }
                break ;
            }
            proof {
                let de = choose|de: nat|
                    1 <= de <= height(*old(self)) && #[trigger] insert_at_depth(
                        *old(self),
                        new_value,
                        de,
                    ) is Some;
                assert(insert_at_depth(*old(self), new_value, d as nat) is None);
                assert(de != d);
                assert(d < de);
            }
            d = d + 1;
        }
        proof {
            let dx = choose|dx: nat| is_level_insert(*old(self), new_value, dx, *self);
            let dc = choose|dc: nat| #[trigger] insert_at_depth(*old(self), new_value, dc) is Some
                && forall|dd: nat|
                1 <= dd < dc ==> insert_at_depth(*old(self), new_value, dd) is None;
            assert(insert_at_depth(*old(self), new_value, dx) is Some && forall|dd: nat|
                1 <= dd < dx ==> insert_at_depth(*old(self), new_value, dd) is None);
            lemma_level_insert_unique(
                *old(self),
                new_value,
                dx,
                *self,
                dc,
                insert_at_depth(*old(self), new_value, dc)->Some_0,
            );
            lemma_insert_height(*old(self), new_value, dx, *self);
            lemma_insert_possible(*old(self), new_value);
            let de = choose|de: nat|
                1 <= de <= height(*old(self)) && #[trigger] insert_at_depth(
                    *old(self),
                    new_value,
                    de,
                ) is Some;
            assert(dx <= de);
        }
    }

    /// Builds a tree from a nonempty slice: the first value is the root,
    /// the rest are inserted in level order.
    #[verifier::rlimit(60)]
    pub fn from(new_values: &[T]) -> (r: Self)
        requires
            new_values@.len() > 0,
        ensures
            r == tree_of(new_values@),
    {
        let first = new_values[0];
        let mut root: BinaryTree<T> = BinaryTree::new(first);
        let mut i: usize = 1;
        proof {
            assert(new_values@.take(1) =~= seq![new_values@[0]]);
        }
        while i < new_values.len()
            invariant
                1 <= i <= new_values@.len(),
                root == tree_of(new_values@.take(i as int)),
                height(root) <= i,
            decreases new_values@.len() - i,
        {
            root.insert(new_values[i]);
            proof {
                assert(new_values@.take(i + 1 as int).drop_last() =~= new_values@.take(i as int));
                assert(new_values@.take(i + 1 as int).last() == new_values@[i as int]);
            }
            i = i + 1;
        }
        proof {
            assert(new_values@.take(new_values@.len() as int) =~= new_values@);
        }
        root
    }

    /// Replaces the left child with `node`.
    pub fn left(self, node: BinaryTree<T>) -> (r: Self)
        ensures
            r.value == self.value,
            r.right == self.right,
            r.left matches Some(l) && *l == node,
    {
        BinaryTree { value: self.value, left: Some(Box::new(node)), right: self.right }
    }

    /// Replaces the right child with `node`.
    pub fn right(self, node: BinaryTree<T>) -> (r: Self)
        ensures
            r.value == self.value,
            r.left == self.left,
            r.right matches Some(x) && *x == node,
    {
        BinaryTree { value: self.value, left: self.left, right: Some(Box::new(node)) }
    }
}

} // verus!
