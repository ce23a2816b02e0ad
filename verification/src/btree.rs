//! The root-holding tree: owns the minimum degree `order` and the storage
//! location, orchestrates root-level preemptive splitting, and delegates
//! into [`Node`].

use vstd::prelude::*;
use crate::key::Key;
use crate::lex::lex_lt;
use crate::node::{has_value, Node};

verus! {

/// The faults the index surfaces to its callers.
#[derive(Clone, Copy, Debug, PartialEq, Eq, Structural)]
pub enum IndexError {
    /// The storage location cannot be created (it already exists, or cannot
    /// be written).
    StorageInitialization,
    /// Persisted metadata or a node unit is missing, unreadable or
    /// malformed.
    CorruptIndex,
    /// A read, seek or write against the source file or a storage unit
    /// failed.
    Io,
    /// Bytes read from a recorded range are not valid text.
    Decode,
}

/// A disk-backed B-tree of minimum degree `order`, rooted at `root`, whose
/// storage units live under `path`.
#[derive(Debug)]
pub struct BTree {
    pub root: Node,
    pub order: usize,
    pub path: String,
}

impl Clone for BTree {
    /// A deep copy of the tree, for callers outside the verified core;
    /// nothing is claimed of the copy in specifications.
    fn clone(&self) -> BTree {
        BTree { root: self.root.clone(), order: self.order, path: self.path.clone() }
    }
}

impl BTree {
    /// Well-formedness: a sensible degree and a well-formed root subtree.
    pub open spec fn wf(self) -> bool {
        &&& 2 <= self.order <= usize::MAX / 2
        &&& self.root.wf(self.order as int)
    }

    /// All records of the tree, in key order.
    pub open spec fn contents(self) -> Seq<Key> {
        self.root.in_order()
    }

    /// Height of the tree: how many levels of children hang off the root.
    pub open spec fn height(self) -> nat {
        self.root.height()
    }

    /// Whether the root is full, which is what forces the one kind of
    /// height increase.
    pub open spec fn root_full(self) -> bool {
        self.root.keys@.len() == 2 * self.order - 1
    }

    /// A new tree of minimum degree `order` storing its units under `path`:
    /// an empty leaf root and no records. Allocating the storage location
    /// itself (and failing when it cannot be created) is the caller's side
    /// of the contract.
    pub fn create(order: usize, path: &str) -> (tree: BTree)
        requires
            2 <= order <= usize::MAX / 2,
        ensures
            tree.wf(),
            tree.order == order,
            tree.path@ == path@,
            tree.contents() == Seq::<Key>::empty(),
            tree.root.leaf,
            tree.height() == 0,
    {
        BTree { root: Node::empty(order, true, path), order, path: path.to_owned() }
    }

    /// Insert a record. If the root is full, a new internal root takes the
    /// old root as its only child and splits it — the only way the tree
    /// grows in height — then the insertion descends without ever handing a
    /// split back up. The records afterwards are the records before plus
    /// `key`.
    pub fn insert(&mut self, key: Key)
        requires
            old(self).wf(),
        ensures
            final(self).wf(),
            final(self).order == old(self).order,
            final(self).path == old(self).path,
            final(self).contents().to_multiset() == old(self).contents().to_multiset().insert(
                key,
            ),
            old(self).root_full() ==> final(self).height() == old(self).height() + 1,
            !old(self).root_full() ==> final(self).height() == old(self).height(),
    {
        if self.root.is_full(self.order) {
            let mut new_root = Node::empty(self.order, false, self.path.as_str());
            core::mem::swap(&mut self.root, &mut new_root);
            // `new_root` now holds the old root; attach it under the new one
            let ghost old_root = new_root;
            self.root.children.push(new_root);
            proof {
                let t = self.root;
                assert(t.children@ =~= seq![old_root]);
                assert(t.children@[0] == old_root);
                assert(t.height() == old_root.height() + 1);
                assert(t.in_order() == t.in_order_from(0));
                assert(t.in_order() == old_root.in_order());
                assert(t.ordered());
                assert(t.cap_ok(self.order as int));
                assert(t.balanced());
            }
            self.root.split(0, self.order, self.path.as_str());
        }
        self.root.insert(key, self.order, self.path.as_str());
    }

    /// Walk one subtree for `value`: scan the records in order; an exact
    /// match is returned, the first greater record sends the search into
    /// the child before it, and past the last record the search descends
    /// into the last child; at a leaf the walk ends.
    fn search_tree(node: &Node, value: String) -> (found: Option<Key>)
        requires
            node.ordered(),
        ensures
            match found {
                Some(k) => node.in_order().contains(k) && k.value@ == value@,
                None => !has_value(node.in_order(), value@),
            },
        decreases *node,
    {
        let n = node.keys.len();
        let mut i: usize = 0;
        while i < n
            invariant
                i <= n,
                n == node.keys@.len(),
                node.ordered(),
                forall|j: int| 0 <= j < i ==> lex_lt((#[trigger] node.keys@[j]).value@, value@),
            decreases n - i,
        {
            if crate::lex::str_eq(node.keys[i].value.as_str(), value.as_str()) {
                let k = node.keys[i].clone();
                proof {
                    crate::node::lemma_keys_in_in_order(*node, i as int);
                }
                return Some(k);
            } else if crate::lex::str_lt(value.as_str(), node.keys[i].value.as_str()) {
                if node.leaf {
                    proof {
                        crate::node::lemma_search_step(*node, value@, i as int);
                    }
                    return None;
                } else {
                    let found = BTree::search_tree(&node.children[i], value);
                    proof {
                        if found is Some {
                            crate::node::lemma_child_record_in_in_order(
                                *node,
                                i as int,
                                found.unwrap(),
                            );
                        } else {
                            crate::node::lemma_search_step(*node, value@, i as int);
                        }
                    }
                    return found;
                }
            }
            proof {
                crate::lex::lemma_lex_total(node.keys@[i as int].value@, value@);
            }
            i = i + 1;
        }
        if node.leaf {
            proof {
                crate::node::lemma_search_step(*node, value@, n as int);
            }
            None
        } else {
            let found = BTree::search_tree(&node.children[n], value);
            proof {
                if found is Some {
                    crate::node::lemma_child_record_in_in_order(*node, n as int, found.unwrap());
                } else {
                    crate::node::lemma_search_step(*node, value@, n as int);
                }
            }
            found
        }
    }

    /// Reassemble a tree from its persisted parts — root node, degree and
    /// storage location — validating them on the way in. Exactly the tree
    /// the parts describe comes back; parts that do not form a well-formed
    /// tree of degree `order` (or one too deep to measure, which no tree
    /// this library builds can be) are a corrupt index.
    pub fn load(root: Node, order: usize, path: String) -> (loaded: Result<BTree, IndexError>)
        ensures
            match loaded {
                Ok(t) => {
                    &&& t == (BTree { root, order, path })
                    &&& t.wf()
                },
                Err(e) => {
                    &&& e == IndexError::CorruptIndex
                    &&& !(2 <= order <= usize::MAX / 2 && root.wf(order as int) && root.height()
                        < usize::MAX)
                },
            },
    {
        if order < 2 || order > usize::MAX / 2 {
            return Err(IndexError::CorruptIndex);
        }
        match root.check(order) {
            Some(_) => Ok(BTree { root, order, path }),
            None => Err(IndexError::CorruptIndex),
        }
    }

    /// The height of the tree, as a number of levels below the root.
    pub fn depth(&self) -> (h: usize)
        requires
            self.height() < usize::MAX,
        ensures
            h == self.height(),
    {
        self.root.depth()
    }

    /// Look up `value`: some record carrying exactly that value if one was
    /// ever inserted, and nothing if none was.
    pub fn search(&self, value: &str) -> (found: Option<Key>)
        requires
            self.wf(),
        ensures
            match found {
                Some(k) => self.contents().contains(k) && k.value@ == value@,
                None => !has_value(self.contents(), value@),
            },
    {
        BTree::search_tree(&self.root, value.to_owned())
    }
}

/// Order of traversal: whatever order records were inserted in, a
/// well-formed tree hands them back sorted by value, ascending.
pub proof fn lemma_traversal_sorted(t: BTree)
    requires
        t.wf(),
    ensures
        crate::node::sorted_keys(t.contents()),
{
    crate::node::lemma_in_order_sorted(t.root);
}

/// A record an insertion just added is among the records, under its value —
/// so a search for that value, whose contract answers `None` only when no
/// record carries it, must come back with a match.
pub proof fn lemma_inserted_found(t1: BTree, t2: BTree, k: Key)
    requires
        t2.contents().to_multiset() == t1.contents().to_multiset().insert(k),
    ensures
        has_value(t2.contents(), k.value@),
{
    broadcast use vstd::seq_lib::group_to_multiset_ensures;
    broadcast use vstd::multiset::group_multiset_axioms;

    assert(t2.contents().to_multiset().count(k) > 0);
    assert(t2.contents().contains(k));
    let j = choose|j: int| 0 <= j < t2.contents().len() && t2.contents()[j] == k;
    assert(t2.contents()[j].value@ == k.value@);
}

/// Capacity bound: in a well-formed tree no node holds more than
/// `2 * order - 1` records — and since `insert` hands back a well-formed
/// tree, no insertion ever pushes any node past that bound.
pub proof fn lemma_capacity(t: BTree)
    requires
        t.wf(),
    ensures
        t.root.cap_ok(t.order as int),
{
}

/// Idempotence of reload: a well-formed tree is rebuilt from its own
/// persisted parts without change. Its root, degree and storage location
/// satisfy everything `load` asks of them, and the tree `load` assembles
/// from them is that very tree — so searching after a reload answers
/// exactly as searching before it did.
pub proof fn lemma_reload_identity(t: BTree)
    requires
        t.wf(),
        t.height() < usize::MAX,
    ensures
        2 <= t.order <= usize::MAX / 2,
        t.root.wf(t.order as int),
        t.root.height() < usize::MAX,
        (BTree { root: t.root, order: t.order, path: t.path }) == t,
{
}


} // verus!
