//! A single B-tree node: an ordered sequence of records, a leaf flag, and
//! (for internal nodes) the child nodes it separates.
//!
//! The ordering invariant, capacity bound and balance of a node's subtree
//! are the spec functions `ordered`, `cap_ok` and `balanced`, bundled as
//! `wf`. The records a subtree holds, in key order, are `in_order`.

use vstd::prelude::*;
use crate::key::Key;
use crate::lex::{lex_le, lex_lt};

verus! {

/// Keys are pairwise in order (duplicates may sit next to each other).
pub open spec fn sorted_keys(keys: Seq<Key>) -> bool {
    forall|i: int, j: int|
        0 <= i < j < keys.len() ==> lex_le(#[trigger] keys[i].value@, #[trigger] keys[j].value@)
}

/// `v` is at or above the lower bound, if there is one.
pub open spec fn above(lo: Option<Seq<char>>, v: Seq<char>) -> bool {
    match lo {
        None => true,
        Some(l) => lex_le(l, v),
    }
}

/// `v` is at or below the upper bound, if there is one.
pub open spec fn below(v: Seq<char>, hi: Option<Seq<char>>) -> bool {
    match hi {
        None => true,
        Some(h) => lex_le(v, h),
    }
}

/// Every record of `s` lies between the two bounds.
pub open spec fn all_between(s: Seq<Key>, lo: Option<Seq<char>>, hi: Option<Seq<char>>) -> bool {
    forall|j: int|
        0 <= j < s.len() ==> above(lo, (#[trigger] s[j]).value@) && below(s[j].value@, hi)
}

/// The first index whose record is strictly greater than `v`, or the number
/// of records when none is.
pub open spec fn first_gt(keys: Seq<Key>, v: Seq<char>) -> int
    decreases keys.len(),
{
    if keys.len() == 0 {
        0
    } else if lex_lt(v, keys[0].value@) {
        0
    } else {
        1 + first_gt(keys.drop_first(), v)
    }
}

/// The position the scan of `find_position` lands on: the first record
/// strictly greater than `v`, except that a `v` equal to the last record
/// stays on that record.
pub open spec fn find_pos(keys: Seq<Key>, v: Seq<char>) -> int {
    let f = first_gt(keys, v);
    if f == keys.len() && keys.len() > 0 && keys[keys.len() - 1].value@ == v {
        keys.len() - 1
    } else {
        f
    }
}

/// `first_gt` is the index at which the scan stops: everything before it is
/// at most `v`, and it is either past the end or strictly greater.
proof fn lemma_first_gt_at(keys: Seq<Key>, v: Seq<char>, i: int)
    requires
        0 <= i <= keys.len(),
        forall|j: int| 0 <= j < i ==> !lex_lt(v, (#[trigger] keys[j]).value@),
        i < keys.len() ==> lex_lt(v, keys[i].value@),
    ensures
        first_gt(keys, v) == i,
    decreases keys.len(),
{
    if keys.len() == 0 {
    } else if lex_lt(v, keys[0].value@) {
        assert(i == 0);
    } else {
        assert(i >= 1);
        let rest = keys.drop_first();
        assert(forall|j: int| 0 <= j < i - 1 ==> rest[j] == #[trigger] keys[j + 1]);
        assert(i - 1 < rest.len() ==> rest[i - 1] == keys[i]);
        lemma_first_gt_at(rest, v, i - 1);
    }
}

proof fn lemma_first_gt_props(keys: Seq<Key>, v: Seq<char>)
    ensures
        ({
            let f = first_gt(keys, v);
            &&& 0 <= f <= keys.len()
            &&& forall|j: int| 0 <= j < f ==> !lex_lt(v, (#[trigger] keys[j]).value@)
            &&& f < keys.len() ==> lex_lt(v, keys[f].value@)
        }),
    decreases keys.len(),
{
    if keys.len() == 0 {
    } else if lex_lt(v, keys[0].value@) {
    } else {
        let rest = keys.drop_first();
        lemma_first_gt_props(rest, v);
        let f = first_gt(keys, v);
        assert(f == 1 + first_gt(rest, v));
        assert forall|j: int| 0 <= j < f implies !lex_lt(v, (#[trigger] keys[j]).value@) by {
            if j >= 1 {
                assert(keys[j] == rest[j - 1]);
            }
        }
        if f < keys.len() {
            assert(keys[f] == rest[f - 1]);
        }
    }
}

/// Under sorted records, `find_pos` is an insertion point for `v`: records
/// before it are at most `v`, records from it on are at least `v`.
pub proof fn lemma_find_pos_insert_point(keys: Seq<Key>, v: Seq<char>)
    requires
        sorted_keys(keys),
    ensures
        ({
            let p = find_pos(keys, v);
            &&& 0 <= p <= keys.len()
            &&& forall|j: int| 0 <= j < p ==> lex_le((#[trigger] keys[j]).value@, v)
            &&& forall|j: int| p <= j < keys.len() ==> lex_le(v, (#[trigger] keys[j]).value@)
        }),
{
    lemma_first_gt_props(keys, v);
    let f = first_gt(keys, v);
    let p = find_pos(keys, v);
    assert forall|j: int| 0 <= j < p implies lex_le((#[trigger] keys[j]).value@, v) by {
        crate::lex::lemma_lex_total(keys[j].value@, v);
    }
    assert forall|j: int| p <= j < keys.len() implies lex_le(v, (#[trigger] keys[j]).value@) by {
        if p == f {
            if j > f {
                crate::lex::lemma_lex_lt_le_trans(v, keys[f].value@, keys[j].value@);
            }
        }
    }
}

/// Adding one record inside the bounds keeps a record sequence inside them.
pub proof fn lemma_all_between_insert(
    s1: Seq<Key>,
    s2: Seq<Key>,
    k: Key,
    lo: Option<Seq<char>>,
    hi: Option<Seq<char>>,
)
    requires
        s2.to_multiset() == s1.to_multiset().insert(k),
        all_between(s1, lo, hi),
        above(lo, k.value@),
        below(k.value@, hi),
    ensures
        all_between(s2, lo, hi),
{
    broadcast use vstd::seq_lib::group_to_multiset_ensures;
    broadcast use vstd::multiset::group_multiset_axioms;

    assert forall|j: int|
        0 <= j < s2.len() implies above(lo, (#[trigger] s2[j]).value@) && below(
        s2[j].value@,
        hi,
    ) by {
        let e = s2[j];
        assert(s2.contains(e));
        assert(s2.to_multiset().count(e) > 0);
        if e != k {
            assert(s1.to_multiset().count(e) > 0);
            assert(s1.contains(e));
            let m = choose|m: int| 0 <= m < s1.len() && s1[m] == e;
            assert(above(lo, s1[m].value@) && below(s1[m].value@, hi));
        }
    }
}

/// A B-tree node. A leaf has no children; an internal node with `k` records
/// has `k + 1` children. `filename` names the node's own storage unit and is
/// stable for the node's lifetime.
#[derive(Debug)]
pub struct Node {
    pub keys: Vec<Key>,
    pub children: Vec<Node>,
    pub leaf: bool,
    pub filename: String,
}

impl Node {
    /// Distance to the leaves. Leaves sit at height zero.
    pub open spec fn height(self) -> nat
        decreases self,
    {
        if self.leaf || self.children@.len() == 0 {
            0
        } else {
            1 + self.children@[0].height()
        }
    }

    /// The records of this subtree, in key order: for an internal node the
    /// records of child `i` come right before record `i`.
    pub open spec fn in_order(self) -> Seq<Key>
        decreases self, self.children@.len() + 1,
    {
        if self.leaf {
            self.keys@
        } else {
            self.in_order_from(0)
        }
    }

    /// The records contributed by children `i..` and records `i..`.
    pub open spec fn in_order_from(self, i: int) -> Seq<Key>
        decreases self, self.children@.len() - i,
    {
        if i < 0 || i >= self.children@.len() {
            Seq::empty()
        } else if i < self.keys@.len() {
            self.children@[i].in_order() + seq![self.keys@[i]] + self.in_order_from(i + 1)
        } else {
            self.children@[i].in_order()
        }
    }

    /// Lower bound separating child `i` from the records before it.
    pub open spec fn sep_lo(self, i: int) -> Option<Seq<char>> {
        if i <= 0 {
            None
        } else {
            Some(self.keys@[i - 1].value@)
        }
    }

    /// Upper bound separating child `i` from the records after it.
    pub open spec fn sep_hi(self, i: int) -> Option<Seq<char>> {
        if i >= self.keys@.len() {
            None
        } else {
            Some(self.keys@[i].value@)
        }
    }

    /// The ordering invariant: records are sorted within the node, a leaf has
    /// no children, an internal node with `k` records has `k + 1` children,
    /// and the records of child `i` lie between records `i - 1` and `i`.
    pub open spec fn ordered(self) -> bool
        decreases self,
    {
        &&& sorted_keys(self.keys@)
        &&& if self.leaf {
            self.children@.len() == 0
        } else {
            &&& self.children@.len() == self.keys@.len() + 1
            &&& forall|i: int|
                0 <= i < self.children@.len() ==> (#[trigger] self.children@[i]).ordered()
            &&& forall|i: int|
                0 <= i < self.children@.len() ==> all_between(
                    (#[trigger] self.children@[i]).in_order(),
                    self.sep_lo(i),
                    self.sep_hi(i),
                )
        }
    }

    /// No node of this subtree holds more than `2 * order - 1` records.
    pub open spec fn cap_ok(self, order: int) -> bool
        decreases self,
    {
        &&& self.keys@.len() <= 2 * order - 1
        &&& forall|i: int|
            0 <= i < self.children@.len() ==> (#[trigger] self.children@[i]).cap_ok(order)
    }

    /// All leaves of this subtree sit at the same depth.
    pub open spec fn balanced(self) -> bool
        decreases self,
    {
        !self.leaf ==> {
            &&& forall|i: int|
                0 <= i < self.children@.len() ==> (#[trigger] self.children@[i]).height() + 1
                    == self.height()
            &&& forall|i: int|
                0 <= i < self.children@.len() ==> (#[trigger] self.children@[i]).balanced()
        }
    }

    /// Well-formedness of a node of a tree of minimum degree `order`.
    pub open spec fn wf(self, order: int) -> bool {
        self.ordered() && self.cap_ok(order) && self.balanced()
    }

    /// A node is full when it holds `2 * order - 1` records; a full node is
    /// never inserted into directly, it is split by its parent first.
    pub fn is_full(&self, order: usize) -> (full: bool)
        requires
            1 <= order <= usize::MAX / 2,
        ensures
            full == (self.keys@.len() == 2 * order - 1),
    {
        self.keys.len() == 2 * order - 1
    }

    /// A new node with no records and no children, with a freshly named
    /// storage unit under `path`. Room for a full node is reserved up front.
    pub fn empty(order: usize, leaf: bool, path: &str) -> (node: Node)
        requires
            1 <= order <= usize::MAX / 2,
        ensures
            node.keys@.len() == 0,
            node.children@.len() == 0,
            node.leaf == leaf,
            node.height() == 0,
            leaf ==> node.wf(order as int),
    {
        Node {
            keys: Vec::with_capacity(2 * order - 1),
            children: Vec::with_capacity(2 * order),
            leaf,
            filename: Node::filename(path),
        }
    }

    /// The index of the first record whose value exceeds `key`'s — the
    /// insertion point in a leaf and the child to descend into in an
    /// internal node — except that a value equal to the last record stays
    /// on that record.
    pub fn find_position(&self, key: &Key) -> (idx: usize)
        ensures
            idx == find_pos(self.keys@, key.value@),
    {
        let n = self.keys.len();
        let mut i: usize = 0;
        while i < n && !crate::lex::str_lt(key.value.as_str(), self.keys[i].value.as_str())
            invariant
                i <= n,
                n == self.keys@.len(),
                forall|j: int| 0 <= j < i ==> !lex_lt(key.value@, (#[trigger] self.keys@[j]).value@),
            decreases n - i,
        {
            i = i + 1;
        }
        proof {
            lemma_first_gt_at(self.keys@, key.value@, i as int);
        }
        if i == n && n > 0 {
            if crate::lex::str_eq(self.keys[n - 1].value.as_str(), key.value.as_str()) {
                return n - 1;
            }
        }
        i
    }

    /// Insert `key` at position `idx` of a leaf's records, shifting the rest.
    pub fn add_key(&mut self, idx: usize, key: Key)
        requires
            old(self).leaf,
            old(self).ordered(),
            idx <= old(self).keys@.len(),
            forall|j: int|
                0 <= j < idx ==> lex_le((#[trigger] old(self).keys@[j]).value@, key.value@),
            forall|j: int|
                idx <= j < old(self).keys@.len() ==> lex_le(
                    key.value@,
                    (#[trigger] old(self).keys@[j]).value@,
                ),
        ensures
            final(self).leaf,
            final(self).ordered(),
            final(self).keys@ == old(self).keys@.insert(idx as int, key),
            final(self).children@ == old(self).children@,
            final(self).filename == old(self).filename,
            final(self).height() == old(self).height(),
            final(self).in_order() == old(self).in_order().insert(idx as int, key),
    {
        if self.keys.len() == 0 {
            self.keys.push(key);
            proof {
                assert(self.keys@ =~= old(self).keys@.insert(idx as int, key));
            }
        } else {
            self.keys.insert(idx, key);
        }
        proof {
            lemma_sorted_insert(old(self).keys@, idx as int, key);
        }
    }

    /// Split the full child at `children[pivot]` at its median record: the
    /// median is promoted into this node at position `pivot`, the child
    /// keeps its leading `order - 1` records, and a new sibling inserted at
    /// `pivot + 1` takes the trailing `order - 1` records (and, if the child
    /// is internal, its trailing `order` children). The subtree's records
    /// are unchanged; only their arrangement is.
    pub fn split(&mut self, pivot: usize, order: usize, path: &str)
        requires
            1 <= order <= usize::MAX / 2,
            old(self).wf(order as int),
            !old(self).leaf,
            pivot < old(self).children@.len(),
            old(self).children@[pivot as int].keys@.len() == 2 * order - 1,
            old(self).keys@.len() < 2 * order - 1,
        ensures
            final(self).wf(order as int),
            !final(self).leaf,
            final(self).leaf == old(self).leaf,
            final(self).height() == old(self).height(),
            final(self).in_order() == old(self).in_order(),
            final(self).filename == old(self).filename,
            final(self).keys@ == old(self).keys@.insert(
                pivot as int,
                old(self).children@[pivot as int].keys@[order - 1],
            ),
            final(self).children@.len() == old(self).children@.len() + 1,
            final(self).children@[pivot as int].keys@.len() == order - 1,
            final(self).children@[pivot as int + 1].keys@.len() == order - 1,
    {
        let ghost po = *old(self);
        let ghost a = old(self).children@[pivot as int];
        let ghost o = order as int;
        let ghost p = pivot as int;
        proof {
            assert((#[trigger] po.children@[p]).ordered());
            assert(po.children@[p].cap_ok(o));
            assert(po.children@[p].balanced());
        }
        let mut left = self.children.remove(pivot);
        let right_keys = left.keys.split_off(order);
        let median = left.keys.pop().unwrap();
        let right_children: Vec<Node> = if left.leaf {
            Vec::new()
        } else {
            proof {
                assert(a.children@.len() == a.keys@.len() + 1);
            }
            left.children.split_off(order)
        };
        let right = Node {
            keys: right_keys,
            children: right_children,
            leaf: left.leaf,
            filename: Node::filename(path),
        };
        let ghost l = left;
        let ghost r = right;
        self.keys.insert(pivot, median);
        self.children.insert(pivot, left);
        self.children.insert(pivot + 1, right);
        proof {
            let pn = *self;
            let m = a.keys@[o - 1];
            assert(median == m);
            assert(l.keys@ =~= a.keys@.subrange(0, o - 1));
            assert(r.keys@ =~= a.keys@.subrange(o, 2 * o - 1));
            if !a.leaf {
                assert(l.children@ =~= a.children@.subrange(0, o));
                assert(r.children@ =~= a.children@.subrange(o, a.children@.len() as int));
            }
            lemma_split_halves(a, l, r, o);

            // where the halves and the median sit relative to the parent
            assert(all_between(a.in_order(), po.sep_lo(p), po.sep_hi(p)));
            lemma_keys_in_in_order(a, o - 1);
            let aio = a.in_order();
            let lio = l.in_order();
            let rio = r.in_order();
            let mi = choose|j: int| 0 <= j < aio.len() && aio[j] == m;
            assert(above(po.sep_lo(p), (aio[mi]).value@) && below((aio[mi]).value@, po.sep_hi(p)));
            lemma_in_order_sorted(a);
            assert(aio.len() == lio.len() + 1 + rio.len());
            assert(aio[lio.len() as int] == m);
            assert forall|j: int|
                0 <= j < lio.len() implies above(po.sep_lo(p), (#[trigger] lio[j]).value@)
                && below(lio[j].value@, Some(m.value@)) by {
                assert(aio[j] == lio[j]);
                assert(lex_le(aio[j].value@, aio[lio.len() as int].value@));
            }
            assert forall|j: int|
                0 <= j < rio.len() implies above(Some(m.value@), (#[trigger] rio[j]).value@)
                && below(rio[j].value@, po.sep_hi(p)) by {
                assert(aio[lio.len() + 1 + j] == rio[j]);
                assert(lex_le(aio[lio.len() as int].value@, aio[lio.len() + 1 + j].value@));
            }

            // the parent's records stay sorted around the promoted median
            assert forall|j: int|
                0 <= j < p implies lex_le((#[trigger] po.keys@[j]).value@, m.value@) by {
                assert(lex_le(po.keys@[j].value@, po.keys@[p - 1].value@));
                crate::lex::lemma_lex_le_trans(
                    po.keys@[j].value@,
                    po.keys@[p - 1].value@,
                    m.value@,
                );
            }
            assert forall|j: int|
                p <= j < po.keys@.len() implies lex_le(m.value@, (#[trigger] po.keys@[j]).value@) by {
                assert(lex_le(po.keys@[p].value@, po.keys@[j].value@));
                crate::lex::lemma_lex_le_trans(m.value@, po.keys@[p].value@, po.keys@[j].value@);
            }
            lemma_sorted_insert(po.keys@, p, m);
            assert(pn.keys@ == po.keys@.insert(p, m));
            assert(sorted_keys(pn.keys@));
            assert(forall|j: int| 0 <= j < p ==> #[trigger] pn.keys@[j] == po.keys@[j]);
            assert(pn.keys@[p] == m);
            assert(forall|j: int|
                p < j < pn.keys@.len() ==> #[trigger] pn.keys@[j] == po.keys@[j - 1]);
            assert(forall|j: int| 0 <= j < p ==> #[trigger] pn.children@[j] == po.children@[j]);
            assert(pn.children@[p] == l);
            assert(pn.children@[p + 1] == r);
            assert(forall|j: int|
                p + 1 < j < pn.children@.len() ==> #[trigger] pn.children@[j] == po.children@[j
                    - 1]);

            // every child of the new parent: well formed, in bounds, at height
            assert forall|i: int|
                0 <= i < pn.children@.len() implies {
                let c = #[trigger] pn.children@[i];
                &&& c.ordered()
                &&& c.cap_ok(o)
                &&& c.balanced()
                &&& c.height() + 1 == po.height()
                &&& all_between(c.in_order(), pn.sep_lo(i), pn.sep_hi(i))
            } by {
                if i < p {
                    assert(pn.children@[i] == po.children@[i]);
                    assert((#[trigger] po.children@[i]).ordered());
                    assert(all_between(po.children@[i].in_order(), po.sep_lo(i), po.sep_hi(i)));
                    assert(pn.sep_lo(i) == po.sep_lo(i));
                    assert(pn.sep_hi(i) == po.sep_hi(i));
                } else if i == p {
                    assert(pn.sep_lo(p) == po.sep_lo(p));
                    assert(pn.sep_hi(p) == Some(m.value@));
                } else if i == p + 1 {
                    assert(pn.sep_lo(p + 1) == Some(m.value@));
                    if p < po.keys@.len() {
                        assert(pn.sep_hi(p + 1) == Some(po.keys@[p].value@));
                        assert(pn.sep_hi(p + 1) == po.sep_hi(p));
                    } else {
                        assert(p + 1 >= pn.keys@.len());
                        assert(pn.sep_hi(p + 1) == po.sep_hi(p));
                    }
                } else {
                    assert(pn.children@[i] == po.children@[i - 1]);
                    assert((#[trigger] po.children@[i - 1]).ordered());
                    assert(all_between(
                        po.children@[i - 1].in_order(),
                        po.sep_lo(i - 1),
                        po.sep_hi(i - 1),
                    ));
                    assert(pn.sep_lo(i) == po.sep_lo(i - 1));
                    assert(pn.sep_hi(i) == po.sep_hi(i - 1));
                }
            }
            assert(pn.ordered());
            assert(pn.cap_ok(o));
            assert(pn.height() == 1 + pn.children@[0].height());
            assert(pn.height() == po.height());
            assert(pn.balanced());
            lemma_split_parent_from(po, pn, l, r, m, p, 0);
            assert(pn.in_order() == po.in_order());
        }
    }

    /// Insert `key` into this subtree, top down. A leaf takes the record at
    /// its insertion point. An internal node first splits the descent child
    /// if it is full — so the recursion never has to hand a split back up —
    /// then recurses into the (now non-full) child. The node itself must not
    /// be full, which the caller guarantees by preemptive splitting.
    pub fn insert(&mut self, key: Key, order: usize, path: &str)
        requires
            1 <= order <= usize::MAX / 2,
            old(self).wf(order as int),
            old(self).keys@.len() < 2 * order - 1,
        ensures
            final(self).wf(order as int),
            final(self).leaf == old(self).leaf,
            final(self).height() == old(self).height(),
            final(self).filename == old(self).filename,
            final(self).in_order().to_multiset() == old(self).in_order().to_multiset().insert(
                key,
            ),
        decreases old(self).height(),
    {
        broadcast use vstd::seq_lib::group_to_multiset_ensures;

        if self.leaf {
            let idx = self.find_position(&key);
            proof {
                lemma_find_pos_insert_point(self.keys@, key.value@);
            }
            self.add_key(idx, key);
        } else {
            let ghost v = key.value@;
            let mut idx = self.find_position(&key);
            proof {
                lemma_find_pos_insert_point(self.keys@, v);
            }
            if self.children[idx].is_full(order) {
                let ghost before = *self;
                proof {
                    // the median to be promoted lies below the next separator
                    let a = before.children@[idx as int];
                    assert((#[trigger] before.children@[idx as int]).ordered());
                    assert(all_between(
                        a.in_order(),
                        before.sep_lo(idx as int),
                        before.sep_hi(idx as int),
                    ));
                    lemma_keys_in_in_order(a, order - 1);
                    let aio = a.in_order();
                    let mi = choose|j: int| 0 <= j < aio.len() && aio[j] == a.keys@[order - 1];
                    assert(below((aio[mi]).value@, before.sep_hi(idx as int)));
                }
                self.split(idx, order, path);
                proof {
                    lemma_find_pos_after_split(before.keys@, v, before.children@[idx as int].keys@[order - 1]);
                }
                idx = self.find_position(&key);
                proof {
                    assert(idx == find_pos(before.keys@, v) || idx == find_pos(before.keys@, v)
                        + 1);
                    assert(self.children@[idx as int].keys@.len() == order - 1);
                }
            }
            let ghost mid = *self;
            proof {
                assert((#[trigger] mid.children@[idx as int]).ordered());
                assert(mid.children@[idx as int].cap_ok(order as int));
                assert(mid.children@[idx as int].keys@.len() < 2 * order - 1);
                assert(mid.children@[idx as int].balanced());
                assert(mid.children@[idx as int].height() + 1 == mid.height());
                lemma_find_pos_insert_point(mid.keys@, v);
            }
            let mut child = self.children.remove(idx);
            child.insert(key, order, path);
            let ghost grown = child;
            self.children.insert(idx, child);
            proof {
                let pn = *self;
                assert(pn.keys@ == mid.keys@);
                assert(pn.children@.len() == mid.children@.len());
                assert(forall|j: int|
                    0 <= j < mid.children@.len() && j != idx as int
                        ==> #[trigger] pn.children@[j] == mid.children@[j]);
                assert(pn.children@[idx as int] == grown);

                // the grown child still lies between its separators
                assert(all_between(
                    mid.children@[idx as int].in_order(),
                    mid.sep_lo(idx as int),
                    mid.sep_hi(idx as int),
                ));
                lemma_all_between_insert(
                    mid.children@[idx as int].in_order(),
                    grown.in_order(),
                    key,
                    mid.sep_lo(idx as int),
                    mid.sep_hi(idx as int),
                );

                // every child of the reassembled node is in place
                assert forall|i: int|
                    0 <= i < pn.children@.len() implies {
                    let c = #[trigger] pn.children@[i];
                    &&& c.ordered()
                    &&& c.cap_ok(order as int)
                    &&& c.balanced()
                    &&& c.height() + 1 == mid.height()
                    &&& all_between(c.in_order(), pn.sep_lo(i), pn.sep_hi(i))
                } by {
                    assert(pn.sep_lo(i) == mid.sep_lo(i));
                    assert(pn.sep_hi(i) == mid.sep_hi(i));
                    if i != idx as int {
                        assert(pn.children@[i] == mid.children@[i]);
                        assert((#[trigger] mid.children@[i]).ordered());
                        assert(mid.children@[i].cap_ok(order as int));
                        assert(mid.children@[i].balanced());
                        assert(all_between(
                            mid.children@[i].in_order(),
                            mid.sep_lo(i),
                            mid.sep_hi(i),
                        ));
                    }
                }
                assert(pn.ordered());
                assert(pn.cap_ok(order as int));
                assert(pn.height() == mid.height());
                assert(pn.balanced());
                lemma_insert_child_from(mid, pn, idx as int, key, 0);
                assert(pn.in_order().to_multiset() == old(self).in_order().to_multiset().insert(
                    key,
                ));
            }
        }
    }

    /// All records of this subtree, in key order, as values.
    pub fn records(&self) -> (out: Vec<Key>)
        requires
            self.ordered(),
        ensures
            out@ == self.in_order(),
        decreases *self,
    {
        let mut out: Vec<Key> = Vec::new();
        if self.leaf {
            let mut i: usize = 0;
            while i < self.keys.len()
                invariant
                    i <= self.keys@.len(),
                    out@ =~= self.keys@.subrange(0, i as int),
                decreases self.keys@.len() - i,
            {
                out.push(self.keys[i].clone());
                i = i + 1;
            }
            proof {
                assert(out@ =~= self.keys@);
            }
        } else {
            let mut i: usize = 0;
            while i < self.children.len()
                invariant
                    self.ordered(),
                    !self.leaf,
                    i <= self.children@.len(),
                    out@ + self.in_order_from(i as int) =~= self.in_order(),
                decreases self.children@.len() - i,
            {
                let ghost before = out@;
                proof {
                    assert((#[trigger] self.children@[i as int]).ordered());
                }
                let mut sub = self.children[i].records();
                out.append(&mut sub);
                if i < self.keys.len() {
                    out.push(self.keys[i].clone());
                    proof {
                        assert(self.in_order_from(i as int) == self.children@[
                            i as int
                        ].in_order() + seq![self.keys@[i as int]] + self.in_order_from(
                            i as int + 1,
                        ));
                        assert(out@ + self.in_order_from(i as int + 1) =~= before
                            + self.in_order_from(i as int));
                    }
                } else {
                    proof {
                        assert(self.in_order_from(i as int) == self.children@[
                            i as int
                        ].in_order());
                        assert(i as int + 1 >= self.children@.len());
                        assert(self.in_order_from(i as int + 1) =~= Seq::<Key>::empty());
                        assert(out@ + self.in_order_from(i as int + 1) =~= before
                            + self.in_order_from(i as int));
                    }
                }
                i = i + 1;
            }
            proof {
                assert(self.in_order_from(i as int) =~= Seq::<Key>::empty());
                assert(out@ =~= self.in_order());
            }
        }
        out
    }

    /// Validate this subtree as part of a tree of minimum degree `order`:
    /// records sorted and within capacity, child counts matching the leaf
    /// flag, children valid in turn, each child's records between the
    /// records around it, and all leaves at one depth. Returns that depth,
    /// or nothing when the subtree is malformed — or too deep to measure,
    /// which no tree this library builds can be.
    pub fn check(&self, order: usize) -> (r: Option<usize>)
        requires
            1 <= order <= usize::MAX / 2,
        ensures
            match r {
                Some(h) => self.wf(order as int) && self.height() == h,
                None => !self.wf(order as int) || self.height() >= usize::MAX,
            },
        decreases *self,
    {
        let n = self.keys.len();
        if n > 2 * order - 1 {
            return None;
        }
        let mut j: usize = 1;
        while j < n
            invariant
                1 <= j,
                n == self.keys@.len(),
                forall|a: int|
                    0 <= a < j - 1 && a < n - 1 ==> lex_le(
                        (#[trigger] self.keys@[a]).value@,
                        self.keys@[a + 1].value@,
                    ),
            decreases n - j,
        {
            if crate::lex::str_lt(self.keys[j].value.as_str(), self.keys[j - 1].value.as_str()) {
                proof {
                    crate::lex::lemma_lex_asym(self.keys@[j as int].value@, self.keys@[j - 1].value@);
                    assert(!lex_le(self.keys@[j - 1].value@, self.keys@[j as int].value@)) by {
                        if self.keys@[j - 1].value@ == self.keys@[j as int].value@ {
                            crate::lex::lemma_lex_lt_irrefl(self.keys@[j as int].value@);
                        }
                    }
                    assert(!sorted_keys(self.keys@));
                }
                return None;
            }
            proof {
                crate::lex::lemma_lex_total(self.keys@[j - 1].value@, self.keys@[j as int].value@);
            }
            j = j + 1;
        }
        proof {
            lemma_sorted_from_adjacent(self.keys@);
        }
        if self.leaf {
            if self.children.len() > 0 {
                return None;
            }
            return Some(0);
        }
        if self.children.len() != n + 1 {
            return None;
        }
        let mut h: usize = 0;
        let mut i: usize = 0;
        while i < n + 1
            invariant
                n == self.keys@.len(),
                n <= 2 * order - 1,
                1 <= order <= usize::MAX / 2,
                sorted_keys(self.keys@),
                !self.leaf,
                self.children@.len() == n + 1,
                i <= n + 1,
                h < usize::MAX,
                i > 0 ==> self.children@[0].height() == h,
                forall|m: int|
                    0 <= m < i ==> {
                        let c = #[trigger] self.children@[m];
                        &&& c.ordered()
                        &&& c.cap_ok(order as int)
                        &&& c.balanced()
                        &&& c.height() == h
                        &&& all_between(c.in_order(), self.sep_lo(m), self.sep_hi(m))
                    },
            decreases n + 1 - i,
        {
            let chv: usize = match self.children[i].check(order) {
                None => {
                    proof {
                        if self.wf(order as int) {
                            let c = self.children@[i as int];
                            assert((#[trigger] self.children@[i as int]).ordered());
                            assert(self.children@[i as int].cap_ok(order as int));
                            assert(self.children@[i as int].balanced());
                            assert(c.wf(order as int));
                            assert(c.height() >= usize::MAX);
                            assert(c.height() + 1 == self.height());
                        }
                    }
                    return None;
                },
                Some(x) => x,
            };
            if i == 0 {
                if chv == usize::MAX {
                    proof {
                        assert(self.height() == 1 + self.children@[0].height());
                    }
                    return None;
                }
                h = chv;
            } else if chv != h {
                proof {
                    if self.wf(order as int) {
                        assert((#[trigger] self.children@[0]).height() + 1 == self.height());
                        assert((#[trigger] self.children@[i as int]).height() + 1
                            == self.height());
                    }
                }
                return None;
            }
            let recs = self.children[i].records();
            let mut t: usize = 0;
            while t < recs.len()
                invariant
                    n == self.keys@.len(),
                    !self.leaf,
                    self.children@.len() == n + 1,
                    i < n + 1,
                    t <= recs@.len(),
                    recs@ == self.children@[i as int].in_order(),
                    forall|q: int|
                        0 <= q < t ==> above(
                            self.sep_lo(i as int),
                            (#[trigger] recs@[q]).value@,
                        ) && below(recs@[q].value@, self.sep_hi(i as int)),
                decreases recs@.len() - t,
            {
                if i > 0 {
                    if crate::lex::str_lt(
                        recs[t].value.as_str(),
                        self.keys[i - 1].value.as_str(),
                    ) {
                        proof {
                            crate::lex::lemma_lex_asym(
                                recs@[t as int].value@,
                                self.keys@[i - 1].value@,
                            );
                            assert(!lex_le(self.keys@[i - 1].value@, recs@[t as int].value@)) by {
                                if self.keys@[i - 1].value@ == recs@[t as int].value@ {
                                    crate::lex::lemma_lex_lt_irrefl(recs@[t as int].value@);
                                }
                            }
                            assert(!above(self.sep_lo(i as int), recs@[t as int].value@));
                            assert(!all_between(
                                self.children@[i as int].in_order(),
                                self.sep_lo(i as int),
                                self.sep_hi(i as int),
                            ));
                            assert(!self.ordered());
                        }
                        return None;
                    }
                }
                if i < n {
                    if crate::lex::str_lt(
                        self.keys[i].value.as_str(),
                        recs[t].value.as_str(),
                    ) {
                        proof {
                            crate::lex::lemma_lex_asym(
                                self.keys@[i as int].value@,
                                recs@[t as int].value@,
                            );
                            assert(!lex_le(recs@[t as int].value@, self.keys@[i as int].value@)) by {
                                if self.keys@[i as int].value@ == recs@[t as int].value@ {
                                    crate::lex::lemma_lex_lt_irrefl(recs@[t as int].value@);
                                }
                            }
                            assert(!below(recs@[t as int].value@, self.sep_hi(i as int)));
                            assert(!all_between(
                                self.children@[i as int].in_order(),
                                self.sep_lo(i as int),
                                self.sep_hi(i as int),
                            ));
                            assert(!self.ordered());
                        }
                        return None;
                    }
                }
                proof {
                    if i > 0 {
                        crate::lex::lemma_lex_total(
                            self.keys@[i - 1].value@,
                            recs@[t as int].value@,
                        );
                    }
                    if i < n {
                        crate::lex::lemma_lex_total(
                            recs@[t as int].value@,
                            self.keys@[i as int].value@,
                        );
                    }
                }
                t = t + 1;
            }
            proof {
                assert(all_between(
                    self.children@[i as int].in_order(),
                    self.sep_lo(i as int),
                    self.sep_hi(i as int),
                ));
            }
            i = i + 1;
        }
        proof {
            assert(self.ordered());
            assert(self.cap_ok(order as int));
            assert(self.height() == h + 1);
            assert(self.balanced());
        }
        Some(h + 1)
    }

    /// The height of this subtree as a number: how many levels of children
    /// lie below this node.
    pub fn depth(&self) -> (h: usize)
        requires
            self.height() < usize::MAX,
        ensures
            h == self.height(),
        decreases *self,
    {
        if self.leaf || self.children.len() == 0 {
            0
        } else {
            1 + self.children[0].depth()
        }
    }

    /// Relies on `uuid::Uuid::new_v4` for a fresh name for a node's storage
    /// unit under `path`. The result depends on the generator's randomness,
    /// so nothing is promised of it.
    #[verifier::external_body]
    fn filename(path: &str) -> String {
        format!("{}/{}.json", path, uuid::Uuid::new_v4())
    }
}


impl Clone for Node {
    /// A deep copy of the subtree, for callers outside the verified core;
    /// nothing is claimed of the copy in specifications.
    fn clone(&self) -> (other: Node)
        decreases *self,
    {
        let mut children: Vec<Node> = Vec::new();
        let mut i: usize = 0;
        while i < self.children.len()
            invariant
                i <= self.children@.len(),
            decreases self.children@.len() - i,
        {
            children.push(self.children[i].clone());
            i = i + 1;
        }
        Node {
            keys: self.keys.clone(),
            children,
            leaf: self.leaf,
            filename: self.filename.clone(),
        }
    }
}

/// `s` holds some record whose value is `v`.
pub open spec fn has_value(s: Seq<Key>, v: Seq<char>) -> bool {
    exists|j: int| 0 <= j < s.len() && (#[trigger] s[j]).value@ == v
}

/// Structural sanity of an internal node, shared by the lemmas below.
pub open spec fn internal_shape(n: Node) -> bool {
    &&& !n.leaf
    &&& n.children@.len() == n.keys@.len() + 1
}

/// Record `m` of an internal node appears in its traversal from child `i` on.
proof fn lemma_key_in_from(n: Node, i: int, m: int)
    requires
        internal_shape(n),
        0 <= i <= m < n.keys@.len(),
    ensures
        n.in_order_from(i).contains(n.keys@[m]),
    decreases n.children@.len() - i,
{
    let s = n.in_order_from(i);
    let c = n.children@[i].in_order();
    if i == m {
        assert(s[c.len() as int] == n.keys@[m]);
    } else {
        lemma_key_in_from(n, i + 1, m);
        let rest = n.in_order_from(i + 1);
        let j = choose|j: int| 0 <= j < rest.len() && rest[j] == n.keys@[m];
        assert(s[c.len() + 1 + j] == n.keys@[m]);
    }
}

/// Every record of an internal node appears in its own traversal.
pub proof fn lemma_keys_in_in_order(n: Node, m: int)
    requires
        0 <= m < n.keys@.len(),
        n.leaf || internal_shape(n),
    ensures
        n.in_order().contains(n.keys@[m]),
{
    if !n.leaf {
        lemma_key_in_from(n, 0, m);
    }
}

/// A record of child `m` appears in the traversal from child `i` on.
proof fn lemma_child_record_in_from(n: Node, i: int, m: int, k: Key)
    requires
        internal_shape(n),
        0 <= i <= m < n.children@.len(),
        n.children@[m].in_order().contains(k),
    ensures
        n.in_order_from(i).contains(k),
    decreases n.children@.len() - i,
{
    let s = n.in_order_from(i);
    let c = n.children@[i].in_order();
    if i == m {
        let j = choose|j: int| 0 <= j < c.len() && c[j] == k;
        assert(s[j] == k);
    } else {
        lemma_child_record_in_from(n, i + 1, m, k);
        let rest = n.in_order_from(i + 1);
        let j = choose|j: int| 0 <= j < rest.len() && rest[j] == k;
        assert(s[c.len() + 1 + j] == k);
    }
}

/// A record of a child appears in the parent's traversal.
pub proof fn lemma_child_record_in_in_order(n: Node, m: int, k: Key)
    requires
        internal_shape(n),
        0 <= m < n.children@.len(),
        n.children@[m].in_order().contains(k),
    ensures
        n.in_order().contains(k),
{
    lemma_child_record_in_from(n, 0, m, k);
}

/// If no record from child or key `i` on has value `v`, the traversal from
/// `i` on has none either.
proof fn lemma_from_no_value(n: Node, i: int, v: Seq<char>)
    requires
        internal_shape(n),
        0 <= i < n.children@.len(),
        forall|m: int| i <= m < n.keys@.len() ==> (#[trigger] n.keys@[m]).value@ != v,
        forall|m: int|
            i <= m < n.children@.len() ==> !has_value(
                (#[trigger] n.children@[m]).in_order(),
                v,
            ),
    ensures
        !has_value(n.in_order_from(i), v),
    decreases n.children@.len() - i,
{
    let s = n.in_order_from(i);
    let c = n.children@[i].in_order();
    if i < n.keys@.len() {
        lemma_from_no_value(n, i + 1, v);
        let rest = n.in_order_from(i + 1);
        assert forall|j: int| 0 <= j < s.len() implies (#[trigger] s[j]).value@ != v by {
            if j < c.len() {
                assert(s[j] == c[j]);
            } else if j == c.len() {
                assert(s[j] == n.keys@[i]);
            } else {
                assert(s[j] == rest[j - c.len() - 1]);
            }
        }
    } else {
        assert forall|j: int| 0 <= j < s.len() implies (#[trigger] s[j]).value@ != v by {
            assert(s[j] == c[j]);
        }
    }
}

/// If neither the records of an internal node nor any child's traversal
/// holds value `v`, the node's traversal has none.
pub proof fn lemma_no_value(n: Node, v: Seq<char>)
    requires
        n.leaf || internal_shape(n),
        forall|m: int| 0 <= m < n.keys@.len() ==> (#[trigger] n.keys@[m]).value@ != v,
        !n.leaf ==> forall|m: int|
            0 <= m < n.children@.len() ==> !has_value(
                (#[trigger] n.children@[m]).in_order(),
                v,
            ),
    ensures
        !has_value(n.in_order(), v),
{
    if !n.leaf {
        lemma_from_no_value(n, 0, v);
    }
}

/// Inserting a record at an insertion point keeps the records sorted.
pub proof fn lemma_sorted_insert(keys: Seq<Key>, idx: int, k: Key)
    requires
        sorted_keys(keys),
        0 <= idx <= keys.len(),
        forall|j: int| 0 <= j < idx ==> lex_le((#[trigger] keys[j]).value@, k.value@),
        forall|j: int| idx <= j < keys.len() ==> lex_le(k.value@, (#[trigger] keys[j]).value@),
    ensures
        sorted_keys(keys.insert(idx, k)),
{
    let ks = keys.insert(idx, k);
    assert forall|a: int, b: int| 0 <= a < b < ks.len() implies lex_le(
        (#[trigger] ks[a]).value@,
        (#[trigger] ks[b]).value@,
    ) by {
        if a < idx && b < idx {
            assert(ks[a] == keys[a] && ks[b] == keys[b]);
        } else if a < idx && b == idx {
            assert(ks[a] == keys[a]);
        } else if a < idx && b > idx {
            assert(ks[a] == keys[a] && ks[b] == keys[b - 1]);
            crate::lex::lemma_lex_le_trans(ks[a].value@, k.value@, ks[b].value@);
        } else if a == idx && b > idx {
            assert(ks[b] == keys[b - 1]);
        } else {
            assert(ks[a] == keys[a - 1] && ks[b] == keys[b - 1]);
        }
    }
}

/// Two internal nodes whose children and records agree from positions `i`
/// and `j` on have the same traversal from there on.
proof fn lemma_from_congruent(a: Node, b: Node, i: int, j: int)
    requires
        !a.leaf,
        !b.leaf,
        0 <= i <= a.children@.len(),
        0 <= j <= b.children@.len(),
        a.children@.len() - i == b.children@.len() - j,
        a.keys@.len() - i == b.keys@.len() - j,
        forall|m: int|
            0 <= m < a.children@.len() - i ==> a.children@[i + m] == #[trigger] b.children@[j + m],
        forall|m: int|
            0 <= m < a.keys@.len() - i ==> a.keys@[i + m] == #[trigger] b.keys@[j + m],
    ensures
        a.in_order_from(i) == b.in_order_from(j),
    decreases a.children@.len() - i,
{
    if i < a.children@.len() {
        assert(a.children@[i + 0] == b.children@[j + 0]);
        if i < a.keys@.len() {
            assert(a.keys@[i + 0] == b.keys@[j + 0]);
            assert forall|m: int|
                0 <= m < a.children@.len() - (i + 1) implies a.children@[i + 1 + m]
                == #[trigger] b.children@[j + 1 + m] by {
                assert(a.children@[i + (m + 1)] == b.children@[j + (m + 1)]);
            }
            assert forall|m: int|
                0 <= m < a.keys@.len() - (i + 1) implies a.keys@[i + 1 + m]
                == #[trigger] b.keys@[j + 1 + m] by {
                assert(a.keys@[i + (m + 1)] == b.keys@[j + (m + 1)]);
            }
            lemma_from_congruent(a, b, i + 1, j + 1);
        }
    }
}

/// Splitting a full node at its median record: the traversal of the whole
/// equals left half, median, right half.
proof fn lemma_split_child_from(a: Node, l: Node, r: Node, order: int, i: int)
    requires
        !a.leaf,
        !l.leaf,
        !r.leaf,
        order >= 1,
        a.keys@.len() == 2 * order - 1,
        a.children@.len() == a.keys@.len() + 1,
        l.keys@ == a.keys@.subrange(0, order - 1),
        r.keys@ == a.keys@.subrange(order, 2 * order - 1),
        l.children@ == a.children@.subrange(0, order),
        r.children@ == a.children@.subrange(order, a.children@.len() as int),
        0 <= i <= order - 1,
    ensures
        a.in_order_from(i) == l.in_order_from(i) + seq![a.keys@[order - 1]] + r.in_order(),
    decreases order - i,
{
    let m = a.keys@[order - 1];
    if i == order - 1 {
        // the left half's traversal from here is just its last child
        assert(l.in_order_from(i) == l.children@[i].in_order());
        assert(l.children@[i] == a.children@[i]);
        // the whole's traversal from here: last left child, median, rest
        assert(a.in_order_from(i) == a.children@[i].in_order() + seq![m] + a.in_order_from(
            order,
        ));
        lemma_from_congruent(a, r, order, 0);
        assert(r.in_order() == r.in_order_from(0));
        assert(a.in_order_from(i) =~= l.in_order_from(i) + seq![m] + r.in_order());
    } else {
        lemma_split_child_from(a, l, r, order, i + 1);
        assert(l.children@[i] == a.children@[i]);
        assert(l.keys@[i] == a.keys@[i]);
        assert(a.in_order_from(i) == a.children@[i].in_order() + seq![a.keys@[i]]
            + a.in_order_from(i + 1));
        assert(l.in_order_from(i) == l.children@[i].in_order() + seq![l.keys@[i]]
            + l.in_order_from(i + 1));
        assert(a.in_order_from(i) =~= l.in_order_from(i) + seq![m] + r.in_order());
    }
}

/// Replacing child `pivot` by its two halves with the median promoted leaves
/// the parent's traversal unchanged, from any position at or before `pivot`.
proof fn lemma_split_parent_from(po: Node, pn: Node, l: Node, r: Node, m: Key, pivot: int, i: int)
    requires
        !po.leaf,
        !pn.leaf,
        po.children@.len() == po.keys@.len() + 1,
        0 <= pivot < po.children@.len(),
        pn.keys@ == po.keys@.insert(pivot, m),
        pn.children@.len() == po.children@.len() + 1,
        forall|j: int| 0 <= j < pivot ==> #[trigger] pn.children@[j] == po.children@[j],
        pn.children@[pivot] == l,
        pn.children@[pivot + 1] == r,
        forall|j: int|
            pivot + 1 < j < pn.children@.len() ==> #[trigger] pn.children@[j] == po.children@[j
                - 1],
        l.in_order() + seq![m] + r.in_order() == po.children@[pivot].in_order(),
        0 <= i <= pivot,
    ensures
        pn.in_order_from(i) == po.in_order_from(i),
    decreases pivot - i,
{
    assert(forall|j: int| 0 <= j < pivot ==> #[trigger] pn.keys@[j] == po.keys@[j]);
    assert(pn.keys@[pivot] == m);
    assert(forall|j: int|
        pivot < j < pn.keys@.len() ==> #[trigger] pn.keys@[j] == po.keys@[j - 1]);
    if i == pivot {
        assert(pn.in_order_from(pivot) == l.in_order() + seq![m] + pn.in_order_from(pivot + 1));
        if pivot < po.keys@.len() {
            assert(pn.in_order_from(pivot + 1) == r.in_order() + seq![po.keys@[pivot]]
                + pn.in_order_from(pivot + 2));
            assert forall|mm: int|
                0 <= mm < pn.children@.len() - (pivot + 2) implies pn.children@[pivot + 2 + mm]
                == #[trigger] po.children@[pivot + 1 + mm] by {
                assert(pn.children@[(pivot + 2 + mm)] == po.children@[(pivot + 2 + mm) - 1]);
            }
            assert forall|mm: int|
                0 <= mm < pn.keys@.len() - (pivot + 2) implies pn.keys@[pivot + 2 + mm]
                == #[trigger] po.keys@[pivot + 1 + mm] by {
                assert(pn.keys@[(pivot + 2 + mm)] == po.keys@[(pivot + 2 + mm) - 1]);
            }
            lemma_from_congruent(pn, po, pivot + 2, pivot + 1);
            assert(po.in_order_from(pivot) == po.children@[pivot].in_order() + seq![
                po.keys@[pivot],
            ] + po.in_order_from(pivot + 1));
            assert(pn.in_order_from(pivot) =~= po.in_order_from(pivot));
        } else {
            assert(po.in_order_from(pivot) == po.children@[pivot].in_order());
            assert(pivot + 1 == pn.keys@.len());
            assert(pn.in_order_from(pivot + 1) == r.in_order());
            assert(pn.in_order_from(pivot) =~= po.in_order_from(pivot));
        }
    } else {
        lemma_split_parent_from(po, pn, l, r, m, pivot, i + 1);
        assert(pn.children@[i] == po.children@[i]);
        assert(pn.keys@[i] == po.keys@[i]);
        assert(pn.in_order_from(i) == pn.children@[i].in_order() + seq![pn.keys@[i]]
            + pn.in_order_from(i + 1));
        assert(po.in_order_from(i) == po.children@[i].in_order() + seq![po.keys@[i]]
            + po.in_order_from(i + 1));
    }
}

/// The two halves of a full node, split at the median: both well formed, at
/// the node's own height, and together they carry the node's records.
proof fn lemma_split_halves(a: Node, l: Node, r: Node, order: int)
    requires
        a.ordered(),
        a.cap_ok(order),
        a.balanced(),
        order >= 1,
        a.keys@.len() == 2 * order - 1,
        l.leaf == a.leaf,
        r.leaf == a.leaf,
        l.keys@ == a.keys@.subrange(0, order - 1),
        r.keys@ == a.keys@.subrange(order, 2 * order - 1),
        a.leaf ==> l.children@.len() == 0 && r.children@.len() == 0,
        !a.leaf ==> l.children@ == a.children@.subrange(0, order),
        !a.leaf ==> r.children@ == a.children@.subrange(order, a.children@.len() as int),
    ensures
        l.ordered(),
        r.ordered(),
        l.cap_ok(order),
        r.cap_ok(order),
        l.balanced(),
        r.balanced(),
        l.height() == a.height(),
        r.height() == a.height(),
        a.in_order() == l.in_order() + seq![a.keys@[order - 1]] + r.in_order(),
{
    assert(sorted_keys(l.keys@));
    assert(sorted_keys(r.keys@));
    if a.leaf {
        assert(a.in_order() =~= l.in_order() + seq![a.keys@[order - 1]] + r.in_order());
    } else {
        assert(a.children@.len() == 2 * order);
        assert(l.children@.len() == order);
        assert(r.children@.len() == order);
        // each half's children are children of `a`, with bounds shifted
        assert forall|i: int|
            0 <= i < l.children@.len() implies (#[trigger] l.children@[i]).ordered()
            && l.children@[i].cap_ok(order) && l.children@[i].balanced() && all_between(
            l.children@[i].in_order(),
            l.sep_lo(i),
            l.sep_hi(i),
        ) && l.children@[i].height() + 1 == a.height() by {
            assert(l.children@[i] == a.children@[i]);
            assert(all_between(a.children@[i].in_order(), a.sep_lo(i), a.sep_hi(i)));
            assert(l.sep_lo(i) == a.sep_lo(i));
            if i < order - 1 {
                assert(l.sep_hi(i) == a.sep_hi(i));
            } else {
                assert(l.sep_hi(i) is None);
            }
        }
        assert forall|i: int|
            0 <= i < r.children@.len() implies (#[trigger] r.children@[i]).ordered()
            && r.children@[i].cap_ok(order) && r.children@[i].balanced() && all_between(
            r.children@[i].in_order(),
            r.sep_lo(i),
            r.sep_hi(i),
        ) && r.children@[i].height() + 1 == a.height() by {
            assert(r.children@[i] == a.children@[order + i]);
            assert(all_between(
                a.children@[order + i].in_order(),
                a.sep_lo(order + i),
                a.sep_hi(order + i),
            ));
            if i > 0 {
                assert(r.sep_lo(i) == a.sep_lo(order + i));
            } else {
                assert(r.sep_lo(0) is None);
            }
            assert(r.sep_hi(i) == a.sep_hi(order + i));
        }
        assert(l.height() == 1 + l.children@[0].height());
        assert(l.children@[0] == a.children@[0]);
        assert(r.height() == 1 + r.children@[0].height());
        assert(r.children@[0] == a.children@[order]);
        lemma_split_child_from(a, l, r, order, 0);
    }
}

/// After the median `m` of the descent child is promoted into position
/// `find_pos`, the position recomputed for `v` moves by at most one: it
/// lands on one of the two halves of the split child.
proof fn lemma_find_pos_after_split(keys: Seq<Key>, v: Seq<char>, m: Key)
    requires
        sorted_keys(keys),
        ({
            let p = find_pos(keys, v);
            p < keys.len() ==> lex_le(m.value@, keys[p].value@)
        }),
    ensures
        ({
            let p = find_pos(keys, v);
            let p2 = find_pos(keys.insert(p, m), v);
            p2 == p || p2 == p + 1
        }),
{
    lemma_first_gt_props(keys, v);
    lemma_find_pos_insert_point(keys, v);
    let f = first_gt(keys, v);
    let p = find_pos(keys, v);
    let ks = keys.insert(p, m);
    assert(forall|j: int| 0 <= j < p ==> #[trigger] ks[j] == keys[j]);
    assert(ks[p] == m);
    assert(forall|j: int| p < j < ks.len() ==> #[trigger] ks[j] == keys[j - 1]);
    assert forall|j: int| 0 <= j < p implies !lex_lt(v, (#[trigger] keys[j]).value@) by {
        if lex_lt(keys[j].value@, v) {
            crate::lex::lemma_lex_asym(keys[j].value@, v);
        } else {
            assert(keys[j].value@ == v);
            crate::lex::lemma_lex_lt_irrefl(v);
        }
    }
    if p == f && p < keys.len() {
        if lex_lt(v, m.value@) {
            lemma_first_gt_at(ks, v, p);
            assert(find_pos(ks, v) == p);
        } else {
            assert forall|j: int| 0 <= j < p + 1 implies !lex_lt(v, (#[trigger] ks[j]).value@) by {
                if j < p {
                    assert(ks[j] == keys[j]);
                }
            }
            assert(ks[p + 1] == keys[p]);
            lemma_first_gt_at(ks, v, p + 1);
            assert(find_pos(ks, v) == p + 1);
        }
    } else if p == f {
        // v lies above every record; the new position depends on the median
        if lex_lt(v, m.value@) {
            lemma_first_gt_at(ks, v, p);
            assert(find_pos(ks, v) == p);
        } else {
            assert forall|j: int| 0 <= j < p + 1 implies !lex_lt(v, (#[trigger] ks[j]).value@) by {
                if j < p {
                    assert(ks[j] == keys[j]);
                }
            }
            lemma_first_gt_at(ks, v, p + 1);
            if m.value@ == v {
                assert(find_pos(ks, v) == p);
            } else {
                assert(find_pos(ks, v) == p + 1);
            }
        }
    } else {
        // the scan had stayed on a last record equal to v
        assert(f == keys.len() && p == keys.len() - 1 && keys[p].value@ == v);
        assert(lex_le(m.value@, v));
        assert(!lex_lt(v, m.value@)) by {
            if lex_lt(m.value@, v) {
                crate::lex::lemma_lex_asym(m.value@, v);
            } else {
                crate::lex::lemma_lex_lt_irrefl(v);
            }
        }
        assert forall|j: int| 0 <= j < p + 2 implies !lex_lt(v, (#[trigger] ks[j]).value@) by {
            if j < p {
                assert(ks[j] == keys[j]);
            } else if j == p + 1 {
                assert(ks[j] == keys[p]);
                crate::lex::lemma_lex_lt_irrefl(v);
            }
        }
        lemma_first_gt_at(ks, v, p + 2);
        assert(ks[ks.len() - 1] == keys[p]);
        assert(find_pos(ks, v) == p + 1);
    }
}

/// Growing one child's records by one record `k` grows the parent's
/// traversal by exactly that record, from any position at or before `idx`.
proof fn lemma_insert_child_from(mid: Node, pn: Node, idx: int, k: Key, i: int)
    requires
        !mid.leaf,
        !pn.leaf,
        mid.children@.len() == mid.keys@.len() + 1,
        pn.keys@ == mid.keys@,
        pn.children@.len() == mid.children@.len(),
        0 <= idx < mid.children@.len(),
        forall|j: int|
            0 <= j < mid.children@.len() && j != idx ==> #[trigger] pn.children@[j]
                == mid.children@[j],
        pn.children@[idx].in_order().to_multiset() == mid.children@[
            idx
        ].in_order().to_multiset().insert(k),
        0 <= i <= idx,
    ensures
        pn.in_order_from(i).to_multiset() == mid.in_order_from(i).to_multiset().insert(k),
    decreases idx - i,
{
    broadcast use vstd::seq_lib::lemma_multiset_commutative;
    broadcast use vstd::multiset::group_multiset_axioms;

    if i == idx {
        let c1 = mid.children@[idx].in_order();
        let c2 = pn.children@[idx].in_order();
        if idx < mid.keys@.len() {
            assert forall|mm: int|
                0 <= mm < mid.children@.len() - (idx + 1) implies pn.children@[idx + 1 + mm]
                == #[trigger] mid.children@[idx + 1 + mm] by {}
            assert forall|mm: int|
                0 <= mm < mid.keys@.len() - (idx + 1) implies pn.keys@[idx + 1 + mm]
                == #[trigger] mid.keys@[idx + 1 + mm] by {}
            lemma_from_congruent(pn, mid, idx + 1, idx + 1);
            let rest = mid.in_order_from(idx + 1);
            let ki = mid.keys@[idx];
            assert(mid.in_order_from(idx) == c1 + seq![ki] + rest);
            assert(pn.in_order_from(idx) == c2 + seq![ki] + rest);
            assert((c1 + seq![ki] + rest).to_multiset() == c1.to_multiset().add(
                seq![ki].to_multiset(),
            ).add(rest.to_multiset()));
            assert((c2 + seq![ki] + rest).to_multiset() == c2.to_multiset().add(
                seq![ki].to_multiset(),
            ).add(rest.to_multiset()));
            assert(pn.in_order_from(idx).to_multiset() =~= mid.in_order_from(
                idx,
            ).to_multiset().insert(k));
        } else {
            assert(mid.in_order_from(idx) == c1);
            assert(pn.in_order_from(idx) == c2);
        }
    } else {
        lemma_insert_child_from(mid, pn, idx, k, i + 1);
        assert(pn.children@[i] == mid.children@[i]);
        let c = mid.children@[i].in_order();
        let ki = mid.keys@[i];
        assert(mid.in_order_from(i) == c + seq![ki] + mid.in_order_from(i + 1));
        assert(pn.in_order_from(i) == c + seq![ki] + pn.in_order_from(i + 1));
        assert((c + seq![ki] + mid.in_order_from(i + 1)).to_multiset() == c.to_multiset().add(
            seq![ki].to_multiset(),
        ).add(mid.in_order_from(i + 1).to_multiset()));
        assert((c + seq![ki] + pn.in_order_from(i + 1)).to_multiset() == c.to_multiset().add(
            seq![ki].to_multiset(),
        ).add(pn.in_order_from(i + 1).to_multiset()));
        assert(pn.in_order_from(i).to_multiset() =~= mid.in_order_from(i).to_multiset().insert(
            k,
        ));
    }
}

proof fn lemma_le_span(keys: Seq<Key>, i: int, j: int)
    requires
        forall|a: int|
            0 <= a < keys.len() - 1 ==> lex_le((#[trigger] keys[a]).value@, keys[a + 1].value@),
        0 <= i <= j < keys.len(),
    ensures
        lex_le(keys[i].value@, keys[j].value@),
    decreases j - i,
{
    if i < j {
        lemma_le_span(keys, i, j - 1);
        crate::lex::lemma_lex_le_trans(keys[i].value@, keys[j - 1].value@, keys[j].value@);
    }
}

/// Records are pairwise in order as soon as every neighbouring pair is.
pub proof fn lemma_sorted_from_adjacent(keys: Seq<Key>)
    requires
        forall|a: int|
            0 <= a < keys.len() - 1 ==> lex_le((#[trigger] keys[a]).value@, keys[a + 1].value@),
    ensures
        sorted_keys(keys),
{
    assert forall|i: int, j: int| 0 <= i < j < keys.len() implies lex_le(
        #[trigger] keys[i].value@,
        #[trigger] keys[j].value@,
    ) by {
        lemma_le_span(keys, i, j);
    }
}

/// When a search's scan stops at position `i` — every record before is
/// strictly below `v`, the one at `i` (if any) strictly above — and the
/// descent child at `i` has no record of value `v`, the whole subtree has
/// none.
pub proof fn lemma_search_step(n: Node, v: Seq<char>, i: int)
    requires
        n.ordered(),
        0 <= i <= n.keys@.len(),
        forall|j: int| 0 <= j < i ==> lex_lt((#[trigger] n.keys@[j]).value@, v),
        i < n.keys@.len() ==> lex_lt(v, n.keys@[i].value@),
        !n.leaf ==> !has_value(n.children@[i].in_order(), v),
    ensures
        !has_value(n.in_order(), v),
{
    assert forall|m: int| 0 <= m < n.keys@.len() implies (#[trigger] n.keys@[m]).value@ != v by {
        if m < i {
            crate::lex::lemma_lex_lt_irrefl(v);
        } else if m == i {
            crate::lex::lemma_lex_lt_irrefl(v);
        } else {
            assert(lex_le(n.keys@[i].value@, n.keys@[m].value@));
            crate::lex::lemma_lex_lt_le_trans(v, n.keys@[i].value@, n.keys@[m].value@);
            crate::lex::lemma_lex_lt_irrefl(v);
        }
    }
    if !n.leaf {
        assert forall|m: int|
            0 <= m < n.children@.len() implies !has_value(
            (#[trigger] n.children@[m]).in_order(),
            v,
        ) by {
            let cio = n.children@[m].in_order();
            assert(all_between(cio, n.sep_lo(m), n.sep_hi(m)));
            if m < i {
                // everything in that child is at most keys[m], which is below v
                assert forall|j: int| 0 <= j < cio.len() implies (#[trigger] cio[j]).value@
                    != v by {
                    assert(below(cio[j].value@, n.sep_hi(m)));
                    crate::lex::lemma_lex_le_lt_trans(cio[j].value@, n.keys@[m].value@, v);
                    crate::lex::lemma_lex_lt_irrefl(v);
                }
            } else if m > i {
                // everything in that child is at least keys[m - 1], above v
                assert forall|j: int| 0 <= j < cio.len() implies (#[trigger] cio[j]).value@
                    != v by {
                    assert(above(n.sep_lo(m), cio[j].value@));
                    assert(lex_le(n.keys@[i].value@, n.keys@[m - 1].value@));
                    crate::lex::lemma_lex_lt_le_trans(v, n.keys@[i].value@, n.keys@[m - 1].value@);
                    crate::lex::lemma_lex_lt_le_trans(v, n.keys@[m - 1].value@, cio[j].value@);
                    crate::lex::lemma_lex_lt_irrefl(v);
                }
            }
        }
    }
    lemma_no_value(n, v);
}

/// Traversal from child `i` on of an ordered internal node: sorted, and all
/// of it at or above the separator before child `i`.
proof fn lemma_from_sorted(n: Node, i: int)
    requires
        n.ordered(),
        !n.leaf,
        0 <= i < n.children@.len(),
    ensures
        sorted_keys(n.in_order_from(i)),
        all_between(n.in_order_from(i), n.sep_lo(i), None),
    decreases n, n.children@.len() - i,
{
    let s = n.in_order_from(i);
    let c = n.children@[i].in_order();
    lemma_in_order_sorted(n.children@[i]);
    if i < n.keys@.len() {
        lemma_from_sorted(n, i + 1);
        let rest = n.in_order_from(i + 1);
        let ki = n.keys@[i];
        // every element, by segment: c is below ki, rest is above ki
        assert forall|a: int, b: int| 0 <= a < b < s.len() implies lex_le(
            (#[trigger] s[a]).value@,
            (#[trigger] s[b]).value@,
        ) by {
            let va = if a < c.len() {
                assert(s[a] == c[a]);
                c[a].value@
            } else if a == c.len() {
                assert(s[a] == ki);
                ki.value@
            } else {
                assert(s[a] == rest[a - c.len() - 1]);
                rest[a - c.len() - 1].value@
            };
            let vb = if b < c.len() {
                assert(s[b] == c[b]);
                c[b].value@
            } else if b == c.len() {
                assert(s[b] == ki);
                ki.value@
            } else {
                assert(s[b] == rest[b - c.len() - 1]);
                rest[b - c.len() - 1].value@
            };
            if a < c.len() && b < c.len() {
            } else if a < c.len() && b == c.len() {
                // c within sep_hi(i) = ki
            } else if a < c.len() {
                // va <= ki <= vb
                crate::lex::lemma_lex_le_trans(va, ki.value@, vb);
            } else if a == c.len() {
                // ki <= rest elements (sep_lo(i+1) = ki)
            } else {
            }
        }
        assert forall|j: int| 0 <= j < s.len() implies above(
            n.sep_lo(i),
            (#[trigger] s[j]).value@,
        ) && below(s[j].value@, None) by {
            if i > 0 {
                let lo = n.keys@[i - 1].value@;
                if j < c.len() {
                    assert(s[j] == c[j]);
                } else if j == c.len() {
                    assert(s[j] == ki);
                } else {
                    assert(s[j] == rest[j - c.len() - 1]);
                    // lo <= ki <= element
                    crate::lex::lemma_lex_le_trans(lo, ki.value@, s[j].value@);
                }
            }
        }
    } else {
        assert(s == c);
    }
}

/// The in-order traversal of an ordered subtree is sorted by value: the
/// records come out in ascending key order.
pub proof fn lemma_in_order_sorted(n: Node)
    requires
        n.ordered(),
    ensures
        sorted_keys(n.in_order()),
    decreases n, n.children@.len() + 1,
{
    if !n.leaf {
        lemma_from_sorted(n, 0);
    }
}

} // verus!
