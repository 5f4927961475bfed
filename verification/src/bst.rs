//! A binary search tree holding a set of ordered values.
//!
//! Duplicates are never stored: inserting a value already present leaves the
//! tree unchanged. The tree is modelled as the set of its values.

use vstd::prelude::*;

verus! {

use core::cmp::Ordering;
use vstd::std_specs::cmp::OrdSpec;

/// The type's three-way comparison is trustworthy and orders it totally:
/// `cmp` agrees with `cmp_spec`, comparing equal means being equal, the
/// verdict flips when the arguments swap, and strict order composes.
pub open spec fn cmp_is_total_order<T: Ord>() -> bool {
    &&& T::obeys_cmp_spec()
    &&& (forall|a: T, b: T| (#[trigger] a.cmp_spec(&b)) == Ordering::Equal <==> a == b)
    &&& (forall|a: T, b: T|
        (#[trigger] a.cmp_spec(&b)) == Ordering::Less <==> b.cmp_spec(&a) == Ordering::Greater)
    &&& (forall|a: T, b: T, c: T|
        (#[trigger] a.cmp_spec(&b)) == Ordering::Less && (#[trigger] b.cmp_spec(&c))
            == Ordering::Less ==> a.cmp_spec(&c) == Ordering::Less)
}

/// A node of the tree: a value and up to two ordered subtrees.
pub struct TreeNode<T> {
    pub value: T,
    pub left: Option<Box<TreeNode<T>>>,
    pub right: Option<Box<TreeNode<T>>>,
}

/// A binary search tree: an optional root node.
pub struct BinarySearchTree<T> {
    pub root: Option<Box<TreeNode<T>>>,
}

impl<T> TreeNode<T> {
    /// The values held by an optional subtree.
    pub open spec fn optional_as_set(node: Option<Box<TreeNode<T>>>) -> Set<T>
        decreases node,
    {
        match node {
            Some(n) => n.as_set(),
            None => Set::empty(),
        }
    }

    /// The values held by this subtree.
    pub open spec fn as_set(self) -> Set<T>
        decreases self,
    {
        Self::optional_as_set(self.left).insert(self.value).union(
            Self::optional_as_set(self.right),
        )
    }
}

impl<T: Ord> TreeNode<T> {
    /// The search-tree ordering: everything on the left compares below the
    /// node's value, everything on the right above, recursively.
    pub open spec fn well_formed(self) -> bool
        decreases self,
    {
        &&& (forall|x: T|
            #[trigger] Self::optional_as_set(self.left).contains(x) ==> x.cmp_spec(&self.value)
                == Ordering::Less)
        &&& (forall|x: T|
            #[trigger] Self::optional_as_set(self.right).contains(x) ==> x.cmp_spec(&self.value)
                == Ordering::Greater)
        &&& (match self.left {
            Some(n) => n.well_formed(),
            None => true,
        })
        &&& (match self.right {
            Some(n) => n.well_formed(),
            None => true,
        })
    }

    /// A leaf node holding `value`.
    pub fn new(value: T) -> (n: Self)
        ensures
            n.value == value,
            n.left is None,
            n.right is None,
            n.well_formed(),
            n.as_set() == Set::<T>::empty().insert(value),
    {
        proof {
            assert(Set::<T>::empty().insert(value).union(Set::<T>::empty()) =~= Set::<
                T,
            >::empty().insert(value));
        }
        TreeNode { value, left: None, right: None }
    }

    /// Insert `value` into the subtree rooted here, keeping the ordering;
    /// a value already present is dropped.
    pub fn insert(&mut self, value: T)
        requires
            old(self).well_formed(),
            cmp_is_total_order::<T>(),
        ensures
            final(self).well_formed(),
            final(self).as_set() == old(self).as_set().insert(value),
            final(self).value == old(self).value,
            old(self).as_set().contains(value) ==> *final(self) == *old(self),
        decreases *old(self),
    {
        match value.cmp(&self.value) {
            Ordering::Less => {
                Self::insert_into_optional(&mut self.left, value);
                proof {
                    assert(final(self).as_set() =~= old(self).as_set().insert(value));
                    if old(self).as_set().contains(value) {
                        assert(value != old(self).value);
                        if TreeNode::optional_as_set(old(self).right).contains(value) {
                            assert(false);
                        }
                        assert(TreeNode::optional_as_set(old(self).left).contains(value));
                        assert(*self == *old(self));
                    }
                }
            },
            Ordering::Greater => {
                Self::insert_into_optional(&mut self.right, value);
                proof {
                    assert(final(self).as_set() =~= old(self).as_set().insert(value));
                    if old(self).as_set().contains(value) {
                        assert(value != old(self).value);
                        if TreeNode::optional_as_set(old(self).left).contains(value) {
                            assert(false);
                        }
                        assert(TreeNode::optional_as_set(old(self).right).contains(value));
                        assert(*self == *old(self));
                    }
                }
            },
            Ordering::Equal => {
                proof {
                    assert(value == old(self).value);
                    assert(final(self).as_set() =~= old(self).as_set().insert(value));
                }
            },
        }
    }

    /// Insert `value` into an optional subtree, creating a leaf when empty.
    fn insert_into_optional(node: &mut Option<Box<TreeNode<T>>>, value: T)
        requires
            (match *old(node) {
                Some(n) => n.well_formed(),
                None => true,
            }),
            cmp_is_total_order::<T>(),
        ensures
            (match *final(node) {
                Some(n) => n.well_formed(),
                None => true,
            }),
            final(node).is_some(),
            Self::optional_as_set(*final(node)) == Self::optional_as_set(*old(node)).insert(
                value,
            ),
            old(node).is_some() ==> final(node).unwrap().value == old(node).unwrap().value,
            Self::optional_as_set(*old(node)).contains(value) ==> *final(node) == *old(node),
        decreases *old(node),
    {
        match node.take() {
            None => {
                *node = Some(Box::new(TreeNode::new(value)));
                proof {
                    assert(Self::optional_as_set(*final(node)) =~= Self::optional_as_set(
                        *old(node),
                    ).insert(value));
                }
            },
            Some(mut boxed) => {
                (&mut *boxed).insert(value);
                *node = Some(boxed);
                proof {
                    if Self::optional_as_set(*old(node)).contains(value) {
                        assert(*node == *old(node));
                    }
                }
            },
        }
    }
}

impl<T: Ord> BinarySearchTree<T> {
    /// The search-tree ordering holds throughout.
    pub open spec fn well_formed(self) -> bool {
        match self.root {
            Some(n) => n.well_formed(),
            None => true,
        }
    }

    /// The set of values the tree holds.
    pub open spec fn as_set(self) -> Set<T> {
        TreeNode::optional_as_set(self.root)
    }

    /// An empty tree.
    pub fn new() -> (t: Self)
        ensures
            t.well_formed(),
            t.as_set() == Set::<T>::empty(),
    {
        BinarySearchTree { root: None }
    }

    /// Insert a value, keeping the ordering; duplicates are dropped.
    pub fn insert(&mut self, value: T)
        requires
            old(self).well_formed(),
            cmp_is_total_order::<T>(),
        ensures
            final(self).well_formed(),
            final(self).as_set() == old(self).as_set().insert(value),
            old(self).as_set().contains(value) ==> *final(self) == *old(self),
    {
        TreeNode::insert_into_optional(&mut self.root, value);
        proof {
            if old(self).as_set().contains(value) {
                assert(*self == *old(self));
            }
        }
    }

    /// Whether the tree holds `value`.
    pub fn search(&self, value: T) -> (found: bool)
        requires
            self.well_formed(),
            cmp_is_total_order::<T>(),
        ensures
            found == self.as_set().contains(value),
    {
        Self::search_in_optional(&self.root, &value)
    }

    /// Walk down from an optional subtree, comparing at each node.
    fn search_in_optional(node: &Option<Box<TreeNode<T>>>, value: &T) -> (found: bool)
        requires
            (match *node {
                Some(n) => n.well_formed(),
                None => true,
            }),
            cmp_is_total_order::<T>(),
        ensures
            found == TreeNode::optional_as_set(*node).contains(*value),
        decreases *node,
    {
        match node {
            None => false,
            Some(n) => {
                match value.cmp(&n.value) {
                    Ordering::Equal => {
                        proof {
                            assert(*value == n.value);
                        }
                        true
                    },
                    Ordering::Less => {
                        proof {
                            assert(!TreeNode::optional_as_set(n.right).contains(*value));
                            assert(*value != n.value);
                        }
                        Self::search_in_optional(&n.left, value)
                    },
                    Ordering::Greater => {
                        proof {
                            assert(!TreeNode::optional_as_set(n.left).contains(*value));
                            assert(*value != n.value);
                        }
                        Self::search_in_optional(&n.right, value)
                    },
                }
            },
        }
    }
}

} // verus!
