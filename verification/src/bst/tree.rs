use vstd::prelude::*;
use vstd::string::StringExecFns;

use crate::bst::node::{hwf, size, Node};

verus! {

/// A map on a self-balancing binary search tree.
pub struct AVLTreeMap<K, V> {
    pub root: Option<Box<Node<K, V>>>,
    pub len: usize,
}

impl<K: Ord, V> AVLTreeMap<K, V> {
    pub open spec fn wf(self) -> bool {
        &&& hwf(self.root)
        &&& self.len == size(self.root)
        &&& size(self.root) <= 0x10000000
    }

    pub fn new() -> (r: Self)
        ensures
            r.wf(),
            r.len == 0,
    {
        AVLTreeMap { root: None, len: 0 }
    }

    pub fn len(&self) -> (r: usize)
        requires
            self.wf(),
        ensures
            r == size(self.root),
    {
        self.len
    }

    pub fn is_empty(&self) -> (r: bool)
        requires
            self.wf(),
        ensures
            r == (size(self.root) == 0),
    {
        self.len == 0
    }

    /// The value stored under the key, walking by comparisons.
    pub fn get(&self, key: &K) -> (r: Option<&V>)
        requires
            self.wf(),
        ensures
            r is Some ==> size(self.root) > 0,
    {
        let mut cur: &Option<Box<Node<K, V>>> = &self.root;
        loop
            invariant
                size(self.root) >= size(*cur),
            decreases size(*cur),
        {
            match cur {
                None => {
                    return None;
                },
                Some(n) => {
                    match key.cmp(&n.key) {
                        core::cmp::Ordering::Equal => {
                            return Some(&n.value);
                        },
                        core::cmp::Ordering::Less => {
                            cur = &n.left;
                        },
                        core::cmp::Ordering::Greater => {
                            cur = &n.right;
                        },
                    }
                },
            }
        }
    }

    /// The key handed in together with the value found under it.
    pub fn get_key_value<'a>(&'a self, key: &'a K) -> (r: Option<(&'a K, &'a V)>)
        requires
            self.wf(),
    {
        match self.get(key) {
            None => None,
            Some(v) => Some((key, v)),
        }
    }

    pub fn contains_key(&self, key: &K) -> (r: bool)
        requires
            self.wf(),
    {
        self.get(key).is_some()
    }

    /// Inserts or replaces; the displaced value comes back when the key
    /// was already present, and the length grows exactly when it was not.
    pub fn insert(&mut self, key: K, value: V) -> (r: Option<V>)
        requires
            old(self).wf(),
            old(self).len < 0x10000000,
        ensures
            final(self).wf(),
            r is Some ==> final(self).len == old(self).len,
            r is None ==> final(self).len == old(self).len + 1,
    {
        let mut out: Option<V> = None;
        let taken = self.root.take();
        self.root = Some(Node::Insert(taken, key, value, &mut out));
        match out {
            None => {
                self.len = self.len + 1;
                None
            },
            Some(v) => Some(v),
        }
    }

    /// The entry at inorder position `k`, if the map has that many.
    pub fn nth_key_value(&self, k: usize) -> (r: Option<(&K, &V)>)
        requires
            self.wf(),
    {
        if k >= self.len {
            return None;
        }
        let mut i: usize = 0;
        let mut out: Option<(&K, &V)> = None;
        Node::inorderTraversal(&self.root, &mut i, k, &mut out);
        out
    }

    /// Removes the key's entry and hands its value back; the length
    /// shrinks exactly when something was removed.
    pub fn remove(&mut self, key: &K) -> (r: Option<V>)
        requires
            old(self).wf(),
        ensures
            final(self).wf(),
            r is Some ==> final(self).len == old(self).len - 1,
            r is None ==> final(self).len == old(self).len,
    {
        match self.remove_entry(key) {
            None => None,
            Some(kv) => Some(kv.1),
        }
    }

    /// Removes the key's entry and hands the whole entry back.
    pub fn remove_entry(&mut self, key: &K) -> (r: Option<(K, V)>)
        requires
            old(self).wf(),
        ensures
            final(self).wf(),
            r is Some ==> final(self).len == old(self).len - 1,
            r is None ==> final(self).len == old(self).len,
    {
        let mut value: Option<(K, V)> = None;
        let taken = self.root.take();
        self.root = Node::remove(taken, key, &mut value);
        match value {
            None => None,
            Some(kv) => {
                self.len = self.len - 1;
                Some(kv)
            },
        }
    }

    /// A rendering of the tree's shape: one bracket pair per node, the
    /// left subtree before the bar and the right one after it.
    pub fn print(&self) -> (r: String)
        requires
            self.wf(),
    {
        Self::shape(&self.root)
    }

    fn shape(node: &Option<Box<Node<K, V>>>) -> (r: String)
        decreases size(*node),
    {
        match node {
            None => String::new(),
            Some(n) => {
                let mut s = String::new();
                s.append("(");
                let l = Self::shape(&n.left);
                s.append(l.as_str());
                s.append("|");
                let rgt = Self::shape(&n.right);
                s.append(rgt.as_str());
                s.append(")");
                s
            },
        }
    }
}

impl<K: Ord, V> Default for AVLTreeMap<K, V> {
    fn default() -> (r: Self)
        ensures
            r.wf(),
            r.len == 0,
    {
        AVLTreeMap { root: None, len: 0 }
    }
}

} // verus!
