use vstd::prelude::*;

verus! {

/// One node of the balanced tree; `height` caches the subtree height.
pub struct Node<K, V> {
    pub left: Option<Box<Node<K, V>>>,
    pub right: Option<Box<Node<K, V>>>,
    pub value: V,
    pub key: K,
    pub height: i32,
}

/// The number of nodes in a subtree.
pub open spec fn size<K, V>(n: Option<Box<Node<K, V>>>) -> nat
    decreases n,
{
    match n {
        None => 0,
        Some(b) => 1 + size(b.left) + size(b.right),
    }
}

/// The real height of a subtree.
pub open spec fn spec_height<K, V>(n: Option<Box<Node<K, V>>>) -> int
    decreases n,
{
    match n {
        None => 0,
        Some(b) => 1 + if spec_height(b.left) >= spec_height(b.right) {
            spec_height(b.left)
        } else {
            spec_height(b.right)
        },
    }
}

/// Every cached height in the subtree is the real height.
pub open spec fn hwf<K, V>(n: Option<Box<Node<K, V>>>) -> bool
    decreases n,
{
    match n {
        None => true,
        Some(b) => hwf(b.left) && hwf(b.right) && b.height == spec_height(n),
    }
}

/// A subtree's height never exceeds its node count.
pub proof fn lemma_height_le_size<K, V>(n: Option<Box<Node<K, V>>>)
    ensures
        0 <= spec_height(n) <= size(n),
    decreases n,
{
    match n {
        None => {},
        Some(b) => {
            lemma_height_le_size(b.left);
            lemma_height_le_size(b.right);
        },
    }
}

impl<K: Ord, V> Node<K, V> {
    pub fn new(k: K, v: V) -> (r: Box<Self>)
        ensures
            hwf(Some(r)),
            size(Some(r)) == 1,
            r.key == k,
            r.value == v,
    {
        proof {
            let n: Option<Box<Node<K, V>>> = None;
            assert(hwf(n) && size(n) == 0 && spec_height(n) == 0);
        }
        Box::new(Node { left: None, right: None, value: v, key: k, height: 1 })
    }

    /// The cached height, which under the invariant is the real one.
    pub fn getHeight(node: &Option<Box<Node<K, V>>>) -> (r: i32)
        requires
            hwf(*node),
        ensures
            r == spec_height(*node),
    {
        match node {
            None => 0,
            Some(v) => v.height,
        }
    }

    /// Recomputes the root's cached height from its children.
    pub fn fixHeight(node: &mut Box<Node<K, V>>)
        requires
            hwf(old(node).left),
            hwf(old(node).right),
            size(old(node).left) <= 0x10000000,
            size(old(node).right) <= 0x10000000,
        ensures
            final(node).left == old(node).left,
            final(node).right == old(node).right,
            final(node).key == old(node).key,
            final(node).value == old(node).value,
            hwf(Some(*final(node))),
    {
        proof {
            lemma_height_le_size(node.left);
            lemma_height_le_size(node.right);
        }
        let hl = Node::getHeight(&node.left);
        let hr = Node::getHeight(&node.right);
        let val = if hl > hr {
            hl
        } else {
            hr
        };
        node.height = val + 1;
    }

    /// The balance factor: right height minus left height.
    pub fn bfactor(node: &Box<Node<K, V>>) -> (r: i32)
        requires
            hwf(node.left),
            hwf(node.right),
            size(node.left) <= 0x10000000,
            size(node.right) <= 0x10000000,
        ensures
            r == spec_height(node.right) - spec_height(node.left),
    {
        proof {
            lemma_height_le_size(node.left);
            lemma_height_le_size(node.right);
        }
        Node::getHeight(&node.right) - Node::getHeight(&node.left)
    }

    /// Right rotation; a node without a left child is only re-measured.
    pub fn rotateRight(node: Box<Node<K, V>>) -> (r: Box<Node<K, V>>)
        requires
            hwf(node.left),
            hwf(node.right),
            size(Some(node)) <= 0x10000000,
        ensures
            hwf(Some(r)),
            size(Some(r)) == size(Some(node)),
    {
        let ghost n0 = node;
        proof {
            assert(size(Some(n0)) == 1 + size(n0.left) + size(n0.right));
        }
        let mut node = node;
        let taken = node.left.take();
        match taken {
            None => {
                Node::fixHeight(&mut node);
                node
            },
            Some(mut left_node) => {
                proof {
                    assert(hwf(Some(left_node)));
                    assert(size(n0.left) == 1 + size(left_node.left) + size(left_node.right));
                }
                node.left = left_node.right.take();
                Node::fixHeight(&mut node);
                left_node.right = Some(node);
                Node::fixHeight(&mut left_node);
                left_node
            },
        }
    }

    /// Left rotation; a node without a right child is only re-measured.
    pub fn rotateLeft(node: Box<Node<K, V>>) -> (r: Box<Node<K, V>>)
        requires
            hwf(node.left),
            hwf(node.right),
            size(Some(node)) <= 0x10000000,
        ensures
            hwf(Some(r)),
            size(Some(r)) == size(Some(node)),
    {
        let ghost n0 = node;
        proof {
            assert(size(Some(n0)) == 1 + size(n0.left) + size(n0.right));
        }
        let mut node = node;
        let taken = node.right.take();
        match taken {
            None => {
                Node::fixHeight(&mut node);
                node
            },
            Some(mut right_node) => {
                proof {
                    assert(hwf(Some(right_node)));
                    assert(size(n0.right) == 1 + size(right_node.left) + size(
                        right_node.right,
                    ));
                }
                node.right = right_node.left.take();
                Node::fixHeight(&mut node);
                right_node.left = Some(node);
                Node::fixHeight(&mut right_node);
                right_node
            },
        }
    }

    /// Restores the AVL shape at the root after one insertion or removal.
    pub fn balance(node: Box<Node<K, V>>) -> (r: Box<Node<K, V>>)
        requires
            hwf(node.left),
            hwf(node.right),
            size(Some(node)) <= 0x10000000,
        ensures
            hwf(Some(r)),
            size(Some(r)) == size(Some(node)),
    {
        let ghost n0 = node;
        proof {
            assert(size(Some(n0)) == 1 + size(n0.left) + size(n0.right));
        }
        let mut node = node;
        Node::fixHeight(&mut node);
        if Node::bfactor(&node) == 2 {
            let taken = node.right.take();
            match taken {
                Some(rn) => {
                    proof {
                        assert(hwf(Some(rn)));
                        assert(size(n0.right) == 1 + size(rn.left) + size(rn.right));
                    }
                    if Node::bfactor(&rn) < 0 {
                        node.right = Some(Node::rotateRight(rn));
                    } else {
                        node.right = Some(rn);
                    }
                },
                None => {},
            }
            return Node::rotateLeft(node);
        }
        if Node::bfactor(&node) == -2 {
            let taken = node.left.take();
            match taken {
                Some(ln) => {
                    proof {
                        assert(hwf(Some(ln)));
                        assert(size(n0.left) == 1 + size(ln.left) + size(ln.right));
                    }
                    if Node::bfactor(&ln) > 0 {
                        node.left = Some(Node::rotateLeft(ln));
                    } else {
                        node.left = Some(ln);
                    }
                },
                None => {},
            }
            return Node::rotateRight(node);
        }
        node
    }

    /// Inserts or replaces under `key`; `out` receives the displaced value
    /// when the key was already present.
    pub fn Insert(node: Option<Box<Node<K, V>>>, key: K, value: V, out: &mut Option<V>) -> (r:
        Box<Node<K, V>>)
        requires
            hwf(node),
            size(node) + 1 <= 0x10000000,
            *old(out) is None,
        ensures
            hwf(Some(r)),
            size(Some(r)) == size(node) + (if *final(out) is Some {
                0int
            } else {
                1int
            }),
        decreases size(node),
    {
        let mut node = match node {
            None => {
                return Node::new(key, value);
            },
            Some(n) => n,
        };
        if node.key.eq(&key) {
            *out = Some(node.value);
            node.value = value;
            return node;
        }
        match node.key.cmp(&key) {
            core::cmp::Ordering::Less => {
                let taken = node.right.take();
                node.right = Some(Node::Insert(taken, key, value, out));
            },
            _ => {
                let taken = node.left.take();
                node.left = Some(Node::Insert(taken, key, value, out));
            },
        }
        Node::balance(node)
    }

    pub fn find(node: &Box<Node<K, V>>) {
    }

    /// Removes the key's node if present; `value` receives its entry.
    pub fn remove(node: Option<Box<Node<K, V>>>, key: &K, value: &mut Option<(K, V)>) -> (r:
        Option<Box<Node<K, V>>>)
        requires
            hwf(node),
            size(node) <= 0x10000000,
            *old(value) is None,
        ensures
            hwf(r),
            size(r) == size(node) - (if *final(value) is Some {
                1int
            } else {
                0int
            }),
        decreases size(node),
    {
        let mut node = match node {
            None => {
                return None;
            },
            Some(n) => n,
        };
        match node.key.cmp(key) {
            core::cmp::Ordering::Less => {
                let taken = node.right.take();
                node.right = Node::remove(taken, key, value);
            },
            core::cmp::Ordering::Equal => {
                let q = node.left.take();
                let r = node.right.take();
                let boxed = node;
                let inner = *boxed;
                *value = Some((inner.key, inner.value));
                match r {
                    None => {
                        return q;
                    },
                    Some(rn) => {
                        let (rest, mut min_node) = Node::removeMin(rn);
                        min_node.right = rest;
                        min_node.left = q;
                        return Some(Node::balance(min_node));
                    },
                }
            },
            core::cmp::Ordering::Greater => {
                let taken = node.left.take();
                node.left = Node::remove(taken, key, value);
            },
        }
        Some(Node::balance(node))
    }

    /// Splits the leftmost node off a subtree, returning the rest and that
    /// node with both children cleared.
    fn removeMin(node: Box<Node<K, V>>) -> (r: (Option<Box<Node<K, V>>>, Box<Node<K, V>>))
        requires
            hwf(node.left),
            hwf(node.right),
            size(Some(node)) <= 0x10000000,
        ensures
            hwf(r.0),
            size(r.0) + 1 == size(Some(node)),
            r.1.left is None,
            r.1.right is None,
        decreases size(Some(node)),
    {
        let ghost n0 = node;
        proof {
            assert(size(Some(n0)) == 1 + size(n0.left) + size(n0.right));
        }
        let mut node = node;
        let taken = node.left.take();
        match taken {
            None => {
                proof {
                    assert(size(n0.left) == 0);
                }
                let x = node.right.take();
                (x, node)
            },
            Some(ln) => {
                proof {
                    assert(hwf(Some(ln)));
                    assert(size(n0.left) == 1 + size(ln.left) + size(ln.right));
                }
                let (rest, min_node) = Node::removeMin(ln);
                node.left = rest;
                (Some(Node::balance(node)), min_node)
            },
        }
    }

    /// Walks the tree in key order, counting nodes in `i`, and puts the
    /// entry whose inorder index is `k` into `out`.
    pub fn inorderTraversal<'a>(
        node: &'a Option<Box<Node<K, V>>>,
        i: &mut usize,
        k: usize,
        out: &mut Option<(&'a K, &'a V)>,
    )
        requires
            *old(i) + size(*node) <= usize::MAX,
        ensures
            *old(i) <= *final(i) <= *old(i) + size(*node),
        decreases size(*node),
    {
        match node {
            None => {},
            Some(n) => {
                Node::inorderTraversal(&n.left, i, k, out);
                if *i == k {
                    *out = Some((&n.key, &n.value));
                    *i = *i + 1;
                    return ;
                }
                *i = *i + 1;
                Node::inorderTraversal(&n.right, i, k, out);
            },
        }
    }
}

} // verus!
