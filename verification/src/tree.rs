//! An unbalanced binary search tree over a totally ordered element type.
//!
//! The tree is modelled by the set of values it holds; the shape it takes
//! after an insertion is given exactly by [`TreeNode::with_value`].

use std::cmp::Ordering;
use vstd::laws_cmp::*;
use vstd::laws_eq::*;
use vstd::prelude::*;
use vstd::std_specs::cmp::OrdSpec;
use vstd::std_specs::cmp::PartialOrdSpec;

verus! {

/// One node of the tree: a value and the two subtrees it owns.
#[derive(Debug)]
pub struct TreeNode<T: Ord> {
    pub value: T,
    pub left: Option<Box<TreeNode<T>>>,
    pub right: Option<Box<TreeNode<T>>>,
}

/// A binary search tree; `root` is `None` while the tree is empty.
#[derive(Debug)]
pub struct BinarySearchTree<T: Ord> {
    pub root: Option<Box<TreeNode<T>>>,
}

/// The comparison of `T` is a total order whose `Equal` means identity.
pub open spec fn is_total_order<T: Ord>() -> bool {
    &&& obeys_cmp::<T>()
    &&& obeys_concrete_eq::<T>()
}

/// `a` is ordered strictly before `b`.
pub open spec fn precedes<T: Ord>(a: T, b: T) -> bool {
    a.cmp_spec(&b) == Ordering::Less
}

/// What a total order gives, in the form the proofs below use.
pub proof fn lemma_total_order<T: Ord>()
    requires
        is_total_order::<T>(),
    ensures
        T::obeys_cmp_spec(),
        forall|a: T, b: T| #[trigger] a.cmp_spec(&b) == Ordering::Equal <==> a == b,
        forall|a: T, b: T| #[trigger]
            a.cmp_spec(&b) == Ordering::Greater <==> b.cmp_spec(&a) == Ordering::Less,
        forall|a: T, b: T, c: T|
            precedes(a, b) && #[trigger] precedes(b, c) ==> #[trigger] precedes(a, c),
{
    reveal(obeys_eq_spec_properties);
    reveal(obeys_partial_cmp_spec_properties);
    reveal(obeys_cmp_partial_ord);
    reveal(obeys_cmp_ord);
    reveal(obeys_concrete_eq);
    assert forall|a: T, b: T| #[trigger] a.cmp_spec(&b) == Ordering::Equal <==> a == b by {
        assert(a.partial_cmp_spec(&b) == Some(a.cmp_spec(&b)));
    }
    assert forall|a: T, b: T| #[trigger]
        a.cmp_spec(&b) == Ordering::Greater <==> b.cmp_spec(&a) == Ordering::Less by {
        assert(a.partial_cmp_spec(&b) == Some(a.cmp_spec(&b)));
        assert(b.partial_cmp_spec(&a) == Some(b.cmp_spec(&a)));
    }
    assert forall|a: T, b: T, c: T|
        precedes(a, b) && #[trigger] precedes(b, c) implies #[trigger] precedes(a, c) by {
        assert(a.partial_cmp_spec(&b) == Some(a.cmp_spec(&b)));
        assert(b.partial_cmp_spec(&c) == Some(b.cmp_spec(&c)));
        assert(a.partial_cmp_spec(&c) == Some(a.cmp_spec(&c)));
    }
}

/// The values held below an optional link.
pub open spec fn subtree_values<T: Ord>(link: Option<Box<TreeNode<T>>>) -> Set<T>
    decreases link,
{
    match link {
        None => Set::empty(),
        Some(node) => node.values(),
    }
}

/// Whether every node below an optional link keeps the search order.
pub open spec fn subtree_well_formed<T: Ord>(link: Option<Box<TreeNode<T>>>) -> bool
    decreases link,
{
    match link {
        None => true,
        Some(node) => node.well_formed(),
    }
}

/// The link that results from inserting `value` below `link`.
pub open spec fn subtree_with_value<T: Ord>(
    link: Option<Box<TreeNode<T>>>,
    value: T,
) -> Option<Box<TreeNode<T>>>
    decreases link,
{
    match link {
        None => Some(Box::new(TreeNode::leaf(value))),
        Some(node) => Some(Box::new(node.with_value(value))),
    }
}

/// The number of nodes below an optional link.
pub open spec fn subtree_size<T: Ord>(link: Option<Box<TreeNode<T>>>) -> nat
    decreases link,
{
    match link {
        None => 0,
        Some(node) => node.size(),
    }
}

impl<T: Ord> TreeNode<T> {
    /// A node without children.
    pub open spec fn leaf(value: T) -> TreeNode<T> {
        TreeNode { value, left: None, right: None }
    }

    /// The set of values held by this node and its descendants.
    pub open spec fn values(self) -> Set<T>
        decreases self,
    {
        subtree_values(self.left).union(subtree_values(self.right)).insert(self.value)
    }

    /// The number of nodes in this subtree.
    pub open spec fn size(self) -> nat
        decreases self,
    {
        1 + subtree_size(self.left) + subtree_size(self.right)
    }

    /// The search order: at every node, all values to the left come strictly
    /// before the node's value and all values to the right strictly after.
    pub open spec fn well_formed(self) -> bool
        decreases self,
    {
        &&& forall|v: T| #[trigger] subtree_values(self.left).contains(v) ==> precedes(v, self.value)
        &&& forall|v: T| #[trigger]
            subtree_values(self.right).contains(v) ==> precedes(self.value, v)
        &&& subtree_well_formed(self.left)
        &&& subtree_well_formed(self.right)
    }

    /// The subtree after `value` has been inserted: unchanged where the value
    /// is already held, else with one new leaf at the place the search order
    /// gives it. No other node moves.
    pub open spec fn with_value(self, value: T) -> TreeNode<T>
        decreases self,
    {
        match value.cmp_spec(&self.value) {
            Ordering::Equal => self,
            Ordering::Less => TreeNode {
                value: self.value,
                left: subtree_with_value(self.left, value),
                right: self.right,
            },
            Ordering::Greater => TreeNode {
                value: self.value,
                left: self.left,
                right: subtree_with_value(self.right, value),
            },
        }
    }

    /// Inserting keeps the search order and adds exactly `value` to the set.
    pub proof fn lemma_with_value(self, value: T)
        requires
            is_total_order::<T>(),
            self.well_formed(),
        ensures
            self.with_value(value).well_formed(),
            self.with_value(value).values() == self.values().insert(value),
            self.values().contains(value) ==> self.with_value(value) == self,
        decreases self,
    {
        lemma_total_order::<T>();
        let after = self.with_value(value);
        match value.cmp_spec(&self.value) {
            Ordering::Equal => {
                assert(self.values().insert(value) =~= self.values());
            },
            Ordering::Less => {
                match self.left {
                    Some(node) => node.lemma_with_value(value),
                    None => assert(Self::leaf(value).well_formed()),
                }
                assert(subtree_well_formed(after.left));
                assert(subtree_values(after.left) =~= subtree_values(self.left).insert(value));
                assert(after.values() =~= self.values().insert(value));
                assert forall|v: T| #[trigger] subtree_values(after.left).contains(v) implies precedes(
                    v,
                    after.value,
                ) by {
                    if v != value {
                        assert(subtree_values(self.left).contains(v));
                    }
                }
                if self.values().contains(value) {
                    if subtree_values(self.right).contains(value) {
                        assert(precedes(self.value, value));
                    }
                    assert(subtree_values(self.left).contains(value));
                }
            },
            Ordering::Greater => {
                match self.right {
                    Some(node) => node.lemma_with_value(value),
                    None => assert(Self::leaf(value).well_formed()),
                }
                assert(subtree_well_formed(after.right));
                assert(subtree_values(after.right) =~= subtree_values(self.right).insert(value));
                assert(after.values() =~= self.values().insert(value));
                assert forall|v: T| #[trigger] subtree_values(after.right).contains(v) implies precedes(
                    after.value,
                    v,
                ) by {
                    if v != value {
                        assert(subtree_values(self.right).contains(v));
                    }
                }
                if self.values().contains(value) {
                    if subtree_values(self.left).contains(value) {
                        assert(precedes(value, self.value));
                    }
                    assert(subtree_values(self.right).contains(value));
                }
            },
        }
    }

    /// Creates a node that holds `value` and has no children.
    pub fn new(value: T) -> (node: Self)
        ensures
            node == Self::leaf(value),
    {
        TreeNode { value, left: None, right: None }
    }

    /// Inserts `value` below this node. A value already held is ignored;
    /// a new one becomes a leaf, and no existing node moves.
    pub fn insert(&mut self, value: T)
        requires
            is_total_order::<T>(),
            old(self).well_formed(),
        ensures
            *final(self) == old(self).with_value(value),
            final(self).well_formed(),
            final(self).values() == old(self).values().insert(value),
        decreases *old(self),
    {
        proof {
            lemma_total_order::<T>();
            self.lemma_with_value(value);
        }
        match value.cmp(&self.value) {
            Ordering::Equal => {
                return;
            },
            Ordering::Less => {
                match &mut self.left {
                    None => {
                        self.left = Some(Box::new(TreeNode::new(value)));
                    },
                    Some(node) => {
                        node.insert(value);
                    },
                }
            },
            Ordering::Greater => {
                match &mut self.right {
                    None => {
                        self.right = Some(Box::new(TreeNode::new(value)));
                    },
                    Some(node) => {
                        node.insert(value);
                    },
                }
            },
        }
    }
}

impl<T: Ord> View for BinarySearchTree<T> {
    type V = Set<T>;

    /// The set of values the tree holds.
    open spec fn view(&self) -> Set<T> {
        subtree_values(self.root)
    }
}

impl<T: Ord> BinarySearchTree<T> {
    /// Every node keeps the search order.
    pub open spec fn well_formed(self) -> bool {
        subtree_well_formed(self.root)
    }

    /// The number of nodes in the tree.
    pub open spec fn size(self) -> nat {
        subtree_size(self.root)
    }

    /// The tree after `value` has been inserted.
    pub open spec fn with_value(self, value: T) -> BinarySearchTree<T> {
        BinarySearchTree { root: subtree_with_value(self.root, value) }
    }

    /// The tree built by inserting `values` in order into an empty tree.
    pub open spec fn from_values(values: Seq<T>) -> BinarySearchTree<T>
        decreases values.len(),
    {
        if values.len() == 0 {
            BinarySearchTree { root: None }
        } else {
            Self::from_values(values.drop_last()).with_value(values.last())
        }
    }

    /// Creates an empty tree.
    pub fn new() -> (tree: Self)
        ensures
            tree.root is None,
            tree@ == Set::<T>::empty(),
            tree.well_formed(),
    {
        BinarySearchTree { root: None }
    }

    /// Inserts `value`. A value already held is ignored; a new one becomes a
    /// leaf at the place the search order gives it, and no other node moves.
    pub fn insert(&mut self, value: T)
        requires
            is_total_order::<T>(),
            old(self).well_formed(),
        ensures
            *final(self) == old(self).with_value(value),
            final(self).well_formed(),
            final(self)@ == old(self)@.insert(value),
            old(self)@.contains(value) ==> *final(self) == *old(self),
    {
        proof {
            self.lemma_with_value(value);
        }
        match &mut self.root {
            None => {
                self.root = Some(Box::new(TreeNode::new(value)));
            },
            Some(node) => {
                node.insert(value);
            },
        }
    }

    /// Whether the tree holds `value`.
    pub fn search(&self, value: T) -> (found: bool)
        requires
            is_total_order::<T>(),
            self.well_formed(),
        ensures
            found == self@.contains(value),
    {
        match &self.root {
            None => false,
            Some(node) => {
                let mut current = node;
                loop
                    invariant
                        is_total_order::<T>(),
                        current.well_formed(),
                        self@.contains(value) == current.values().contains(value),
                    decreases current.size(),
                {
                    proof {
                        lemma_total_order::<T>();
                    }
                    match value.cmp(&current.value) {
                        Ordering::Equal => {
                            return true;
                        },
                        Ordering::Less => {
                            proof {
                                if subtree_values(current.right).contains(value) {
                                    assert(precedes(current.value, value));
                                }
                            }
                            match &current.left {
                                None => {
                                    return false;
                                },
                                Some(left) => {
                                    current = left;
                                },
                            }
                        },
                        Ordering::Greater => {
                            proof {
                                if subtree_values(current.left).contains(value) {
                                    assert(precedes(value, current.value));
                                }
                            }
                            match &current.right {
                                None => {
                                    return false;
                                },
                                Some(right) => {
                                    current = right;
                                },
                            }
                        },
                    }
                }
            },
        }
    }

    /// Inserting keeps the search order and adds exactly `value` to the set;
    /// a value already held leaves the tree as it was.
    pub proof fn lemma_with_value(self, value: T)
        requires
            is_total_order::<T>(),
            self.well_formed(),
        ensures
            self.with_value(value).well_formed(),
            self.with_value(value)@ == self@.insert(value),
            self@.contains(value) ==> self.with_value(value) == self,
    {
        match self.root {
            None => {
                assert(TreeNode::leaf(value).well_formed());
                assert(TreeNode::leaf(value).values() =~= Set::<T>::empty().insert(value));
            },
            Some(node) => {
                node.lemma_with_value(value);
            },
        }
    }

    /// Membership: after inserting a sequence of values into an empty tree,
    /// the tree holds exactly the values of the sequence, so that a search
    /// succeeds for those and for no others.
    pub proof fn lemma_membership(values: Seq<T>, x: T)
        requires
            is_total_order::<T>(),
        ensures
            Self::from_values(values).well_formed(),
            Self::from_values(values)@.contains(x) <==> values.contains(x),
        decreases values.len(),
    {
        if values.len() > 0 {
            let before = Self::from_values(values.drop_last());
            Self::lemma_membership(values.drop_last(), x);
            before.lemma_with_value(values.last());
            if values.contains(x) {
                let i = choose|i: int| 0 <= i < values.len() && values[i] == x;
                if i < values.len() - 1 {
                    assert(values.drop_last()[i] == x);
                }
            }
            if values.drop_last().contains(x) {
                let i = choose|i: int| 0 <= i < values.drop_last().len() && values.drop_last()[i] == x;
                assert(values[i] == x);
            }
        }
    }

    /// Ordering invariant: whatever the order of insertion, at every node of
    /// the resulting tree the values to the left come strictly before the
    /// node's value and those to the right strictly after.
    pub proof fn lemma_insertion_keeps_order(values: Seq<T>)
        requires
            is_total_order::<T>(),
        ensures
            Self::from_values(values).well_formed(),
        decreases values.len(),
    {
        if values.len() > 0 {
            Self::lemma_insertion_keeps_order(values.drop_last());
            Self::from_values(values.drop_last()).lemma_with_value(values.last());
        }
    }

    /// Duplicates are ignored: inserting a value a second time leaves the
    /// tree exactly as the first insertion left it, node for node.
    pub proof fn lemma_duplicate_insert(self, value: T)
        requires
            is_total_order::<T>(),
            self.well_formed(),
        ensures
            self.with_value(value).with_value(value) == self.with_value(value),
            self.with_value(value).with_value(value).size() == self.with_value(value).size(),
    {
        self.lemma_with_value(value);
        self.with_value(value).lemma_with_value(value);
        assert(self.with_value(value)@.contains(value));
    }
}

} // verus!
