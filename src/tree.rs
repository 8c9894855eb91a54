use vstd::prelude::*;
use vstd::multiset::Multiset;
use crate::key_order::KeyOrder;

verus! {

/// One node of the tree: a stored value and the two subtrees it owns.
/// `left` holds values that come strictly before `value`; `right` holds the
/// others, values equal to `value` included.
pub struct TreeNode<T> {
    pub value: T,
    pub left: Option<Box<TreeNode<T>>>,
    pub right: Option<Box<TreeNode<T>>>,
}

/// The values held by an optional subtree, with their multiplicities.
pub open spec fn subtree_values<T>(node: Option<Box<TreeNode<T>>>) -> Multiset<T>
    decreases node,
{
    match node {
        Some(n) => n.values(),
        None => Multiset::empty(),
    }
}

/// An optional subtree is absent or a well-formed node.
pub open spec fn subtree_well_formed<T: KeyOrder>(node: Option<Box<TreeNode<T>>>) -> bool
    decreases node,
{
    match node {
        Some(n) => n.well_formed(),
        None => true,
    }
}

/// The subtree that results from adding `v` to an optional subtree.
pub open spec fn subtree_inserted<T: KeyOrder>(node: Option<Box<TreeNode<T>>>, v: T) -> TreeNode<T>
    decreases node,
{
    match node {
        Some(n) => n.inserted(v),
        None => TreeNode::leaf(v),
    }
}

impl<T> TreeNode<T> {
    /// A node that holds `v` and has no children.
    pub open spec fn leaf(v: T) -> TreeNode<T> {
        TreeNode { value: v, left: None, right: None }
    }

    /// The values held by this subtree, with their multiplicities.
    pub open spec fn values(self) -> Multiset<T>
        decreases self,
    {
        subtree_values(self.left).add(subtree_values(self.right)).insert(self.value)
    }
}

impl<T: KeyOrder> TreeNode<T> {
    /// The search-tree ordering holds at every node: each value on the left
    /// comes strictly before the node's value, and no value on the right does.
    pub open spec fn well_formed(self) -> bool
        decreases self,
    {
        &&& forall|x: T| #[trigger] subtree_values(self.left).contains(x) ==> x.before(self.value)
        &&& forall|x: T| #[trigger] subtree_values(self.right).contains(x) ==> !x.before(self.value)
        &&& subtree_well_formed(self.left)
        &&& subtree_well_formed(self.right)
    }

    /// The tree after `v` is added: it descends left while `v` comes before
    /// the current value and right otherwise, and becomes a new leaf at the
    /// first empty slot.
    pub open spec fn inserted(self, v: T) -> TreeNode<T>
        decreases self,
    {
        if v.before(self.value) {
            TreeNode {
                value: self.value,
                left: Some(Box::new(subtree_inserted(self.left, v))),
                right: self.right,
            }
        } else {
            TreeNode {
                value: self.value,
                left: self.left,
                right: Some(Box::new(subtree_inserted(self.right, v))),
            }
        }
    }

    /// A leaf is well formed and holds its one value.
    pub proof fn lemma_leaf(v: T)
        ensures
            TreeNode::leaf(v).well_formed(),
            TreeNode::leaf(v).values() == Multiset::singleton(v),
    {
        assert(TreeNode::leaf(v).values() =~= Multiset::singleton(v));
    }

    /// Adding a value to a well-formed tree keeps it well formed and adds
    /// exactly one occurrence of that value.
    pub proof fn lemma_inserted(self, v: T)
        requires
            self.well_formed(),
        ensures
            self.inserted(v).well_formed(),
            self.inserted(v).values() == self.values().insert(v),
        decreases self,
    {
        let r = self.inserted(v);
        if v.before(self.value) {
            let sub = subtree_inserted(self.left, v);
            match self.left {
                Some(n) => n.lemma_inserted(v),
                None => TreeNode::lemma_leaf(v),
            }
            assert(sub.values() =~= subtree_values(self.left).insert(v));
            assert forall|x: T| #[trigger] subtree_values(r.left).contains(x) implies x.before(self.value) by {
                assert(subtree_values(r.left) == sub.values());
                if x != v {
                    assert(subtree_values(self.left).insert(v).count(x) == subtree_values(self.left).count(x));
                    assert(subtree_values(self.left).contains(x));
                }
            }
            assert(r.values() =~= self.values().insert(v));
        } else {
            let sub = subtree_inserted(self.right, v);
            match self.right {
                Some(n) => n.lemma_inserted(v),
                None => TreeNode::lemma_leaf(v),
            }
            assert(sub.values() =~= subtree_values(self.right).insert(v));
            assert forall|x: T| #[trigger] subtree_values(r.right).contains(x) implies !x.before(self.value) by {
                assert(subtree_values(r.right) == sub.values());
                if x != v {
                    assert(subtree_values(self.right).insert(v).count(x) == subtree_values(self.right).count(x));
                    assert(subtree_values(self.right).contains(x));
                }
            }
            assert(r.values() =~= self.values().insert(v));
        }
    }

    /// The tree after each value of `s` is added, in order.
    pub open spec fn inserted_all(self, s: Seq<T>) -> TreeNode<T>
        decreases s.len(),
    {
        if s.len() == 0 {
            self
        } else {
            self.inserted_all(s.drop_last()).inserted(s.last())
        }
    }

    /// The tree in which `sub` takes the empty slot that a search for `v`
    /// reaches, in place of the new leaf that adding `v` would put there.
    pub open spec fn attached(self, v: T, sub: TreeNode<T>) -> TreeNode<T>
        decreases self,
    {
        if v.before(self.value) {
            TreeNode {
                value: self.value,
                left: Some(Box::new(match self.left {
                    Some(n) => n.attached(v, sub),
                    None => sub,
                })),
                right: self.right,
            }
        } else {
            TreeNode {
                value: self.value,
                left: self.left,
                right: Some(Box::new(match self.right {
                    Some(n) => n.attached(v, sub),
                    None => sub,
                })),
            }
        }
    }

    /// Adding a value smaller than the value of a one-node tree makes it
    /// that node's left child.
    pub proof fn lemma_left_insertion(v1: T, v2: T)
        requires
            v2.before(v1),
        ensures
            TreeNode::leaf(v1).inserted(v2) == (TreeNode {
                value: v1,
                left: Some(Box::new(TreeNode::leaf(v2))),
                right: None,
            }),
    {
    }

    /// Adding a value that does not come before the value of a one-node
    /// tree, an equal one included, makes it that node's right child.
    pub proof fn lemma_right_insertion(v1: T, v2: T)
        requires
            !v2.before(v1),
        ensures
            TreeNode::leaf(v1).inserted(v2) == (TreeNode {
                value: v1,
                left: None,
                right: Some(Box::new(TreeNode::leaf(v2))),
            }),
    {
    }

    /// Whatever sequence of values is added to a well-formed tree, the
    /// ordering holds at every node of the result, and the result holds the
    /// tree's values and those of the sequence, each as often as added.
    pub proof fn lemma_insert_all_keeps_order(self, s: Seq<T>)
        requires
            self.well_formed(),
        ensures
            self.inserted_all(s).well_formed(),
            self.inserted_all(s).values() == self.values().add(s.to_multiset()),
        decreases s.len(),
    {
        broadcast use vstd::seq_lib::group_to_multiset_ensures;
        if s.len() == 0 {
            assert(s.to_multiset() =~= Multiset::empty());
            assert(self.values().add(s.to_multiset()) =~= self.values());
        } else {
            let init = s.drop_last();
            self.lemma_insert_all_keeps_order(init);
            self.inserted_all(init).lemma_inserted(s.last());
            assert(init.push(s.last()) == s);
            vstd::seq_lib::to_multiset_build(init, s.last());
            assert(self.values().add(init.to_multiset()).insert(s.last())
                =~= self.values().add(s.to_multiset()));
        }
    }

    /// Adding a value twice makes two nodes: the second is the right child
    /// of the first, at the slot where the value belongs.
    pub proof fn lemma_duplicate_goes_right(self, v: T)
        ensures
            self.inserted(v) == self.attached(v, TreeNode::leaf(v)),
            self.inserted(v).inserted(v) == self.attached(
                v,
                TreeNode { value: v, left: None, right: Some(Box::new(TreeNode::leaf(v))) },
            ),
        decreases self,
    {
        T::lemma_irreflexive(v);
        let twice = TreeNode { value: v, left: None, right: Some(Box::new(TreeNode::leaf(v))) };
        assert(TreeNode::leaf(v).inserted(v) == twice);
        if v.before(self.value) {
            if let Some(n) = self.left {
                n.lemma_duplicate_goes_right(v);
            }
        } else {
            if let Some(n) = self.right {
                n.lemma_duplicate_goes_right(v);
            }
        }
    }

    /// Adding a value twice to a well-formed tree adds two occurrences of
    /// it, and a search then finds it.
    pub proof fn lemma_duplicate_counted(self, v: T)
        requires
            self.well_formed(),
        ensures
            self.inserted(v).inserted(v).well_formed(),
            self.inserted(v).inserted(v).values().count(v) == self.values().count(v) + 2,
            self.inserted(v).inserted(v).values().contains(v),
    {
        self.lemma_inserted(v);
        self.inserted(v).lemma_inserted(v);
    }

    /// Creates a tree of one node that holds `value`.
    pub fn new(value: T) -> (r: TreeNode<T>)
        ensures
            r == TreeNode::leaf(value),
            r.well_formed(),
            r.values() == Multiset::singleton(value),
    {
        let r = TreeNode { value, left: None, right: None };
        proof {
            TreeNode::lemma_leaf(r.value);
        }
        r
    }

    /// Adds `new_value` to this subtree: it goes left of every node whose
    /// value it comes strictly before and right of every other node, and
    /// becomes a new leaf at the first empty slot on that path.
    pub fn insert(&mut self, new_value: T)
        requires
            old(self).well_formed(),
        ensures
            *final(self) == old(self).inserted(new_value),
            final(self).well_formed(),
            final(self).values() == old(self).values().insert(new_value),
        decreases *old(self),
    {
        proof {
            self.lemma_inserted(new_value);
        }
        if new_value.less_than(&self.value) {
            match &mut self.left {
                Some(left) => {
                    left.insert(new_value);
                },
                None => {
                    self.left = Some(Box::new(TreeNode::new(new_value)));
                },
            }
        } else {
            match &mut self.right {
                Some(right) => {
                    right.insert(new_value);
                },
                None => {
                    self.right = Some(Box::new(TreeNode::new(new_value)));
                },
            }
        }
    }

    /// Whether `search_value` is held anywhere in this subtree. The search
    /// stops at the first node on its path whose value equals it, and
    /// otherwise descends the one side where the value can be.
    pub fn contains(&self, search_value: T) -> (r: bool)
        requires
            self.well_formed(),
        ensures
            r == self.values().contains(search_value),
        decreases self,
    {
        if search_value.same_as(&self.value) {
            return true;
        }
        if search_value.less_than(&self.value) {
            proof {
                if subtree_values(self.right).contains(search_value) {
                    assert(!search_value.before(self.value));
                }
            }
            search_value_on_node(&self.left, search_value)
        } else {
            proof {
                if subtree_values(self.left).contains(search_value) {
                    assert(search_value.before(self.value));
                }
            }
            search_value_on_node(&self.right, search_value)
        }
    }
}

/// Whether `search_value` is held in an optional subtree: never in an
/// absent one.
pub fn search_value_on_node<T: KeyOrder>(node: &Option<Box<TreeNode<T>>>, search_value: T) -> (r: bool)
    requires
        subtree_well_formed(*node),
    ensures
        r == subtree_values(*node).contains(search_value),
    decreases *node,
{
    match node {
        Some(n) => n.contains(search_value),
        None => false,
    }
}

} // verus!
