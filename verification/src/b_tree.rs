use vstd::prelude::*;
use crate::order::{
    before, increasing, is_before, is_same, lemma_before_transitive, lemma_increasing_distinct,
    total_order,
};

verus! {

/// A key with the value stored under it.
struct Entry<T: Clone, S: Eq + Ord> {
    key: S,
    value: T,
}

/// A run of entries in increasing key order. A leaf owns no children; an
/// internal node with `k` entries owns `k + 1` children, child `i` holding the
/// keys that lie between entry `i - 1` and entry `i`.
pub struct Node<T: Clone, S: Eq + Ord> {
    entries: Vec<Entry<T, S>>,
    children: Vec<Node<T, S>>,
}

impl<T: Clone, S: Eq + Ord> Node<T, S> {
    /// Number of entries of this node.
    pub closed spec fn len(self) -> nat {
        self.entries@.len()
    }

    /// Key of entry `i`.
    pub closed spec fn key_at(self, i: int) -> S {
        self.entries@[i].key
    }

    /// Value of entry `i`.
    pub closed spec fn value_at(self, i: int) -> T {
        self.entries@[i].value
    }

    /// Number of children of this node.
    pub closed spec fn fanout(self) -> nat {
        self.children@.len()
    }

    /// Child `j`.
    pub closed spec fn child_at(self, j: int) -> Node<T, S> {
        self.children@[j]
    }

    /// The subtree of height `h` rooted here stores `k`.
    pub open spec fn holds(self, h: nat, k: S) -> bool
        decreases h,
    {
        ||| exists|i: int| 0 <= i < self.len() && #[trigger] self.key_at(i) == k
        ||| h > 0 && exists|j: int|
            0 <= j < self.fanout() && (#[trigger] self.child_at(j)).holds((h - 1) as nat, k)
    }

    /// The value that the subtree of height `h` rooted here stores under `k`.
    pub open spec fn value_of(self, h: nat, k: S) -> T
        decreases h,
    {
        if exists|i: int| 0 <= i < self.len() && #[trigger] self.key_at(i) == k {
            self.value_at(choose|i: int| 0 <= i < self.len() && #[trigger] self.key_at(i) == k)
        } else if h > 0 {
            let j = choose|j: int|
                0 <= j < self.fanout() && (#[trigger] self.child_at(j)).holds((h - 1) as nat, k);
            self.child_at(j).value_of((h - 1) as nat, k)
        } else {
            arbitrary()
        }
    }

    /// The subtree of height `h` rooted here, as a map from keys to values.
    pub open spec fn model(self, h: nat) -> Map<S, T> {
        Map::new(|k: S| self.holds(h, k), |k: S| self.value_of(h, k))
    }

    /// The entries of this node are in strictly increasing key order.
    pub open spec fn sorted(self) -> bool {
        forall|i: int, j: int|
            0 <= i < j < self.len() ==> before(#[trigger] self.key_at(i), #[trigger] self.key_at(j))
    }

    /// Every key below child `j` lies strictly between the entries on either
    /// side of that child.
    pub open spec fn separates(self, h: nat) -> bool
        recommends
            h > 0,
    {
        forall|j: int, k: S|
            0 <= j < self.fanout() && #[trigger] self.child_at(j).holds((h - 1) as nat, k) ==> {
                &&& j < self.len() ==> before(k, self.key_at(j))
                &&& j > 0 ==> before(self.key_at(j - 1), k)
            }
    }

    /// The subtree rooted here has all its leaves at depth `h`, and its keys
    /// are in search order.
    pub open spec fn ordered(self, h: nat) -> bool
        decreases h,
    {
        &&& self.sorted()
        &&& if h == 0 {
            self.fanout() == 0
        } else {
            &&& self.fanout() == self.len() + 1
            &&& forall|j: int|
                0 <= j < self.fanout() ==> (#[trigger] self.child_at(j)).ordered((h - 1) as nat)
            &&& self.separates(h)
        }
    }

    /// This node has at most `2t - 1` entries, and every node below it has
    /// between `t - 1` and `2t - 1`.
    pub open spec fn filled(self, h: nat, t: nat) -> bool
        decreases h,
    {
        &&& self.len() <= 2 * t - 1
        &&& h > 0 ==> forall|j: int|
            0 <= j < self.fanout() ==> {
                &&& (#[trigger] self.child_at(j)).len() >= t - 1
                &&& self.child_at(j).filled((h - 1) as nat, t)
            }
    }

    /// `i` is where a search for `k` leaves this node: every entry before
    /// `i` is at or before `k`, every entry from `i` on comes after `k`.
    pub open spec fn routes(self, k: S, i: int) -> bool {
        &&& 0 <= i <= self.len()
        &&& forall|j: int| 0 <= j < i ==> !before(k, #[trigger] self.key_at(j))
        &&& forall|j: int| i <= j < self.len() ==> before(k, #[trigger] self.key_at(j))
    }

    /// The keys of the subtree of height `h` rooted here, as a walk from left
    /// to right meets them: each child's keys, then the entry after it.
    pub open spec fn in_order(self, h: nat) -> Seq<S>
        decreases h, self.len() + 1,
    {
        if h == 0 {
            Seq::new(self.len(), |a: int| self.key_at(a))
        } else {
            self.in_order_upto(h, self.len())
        }
    }

    /// The part of the walk that ends with child `n`.
    pub open spec fn in_order_upto(self, h: nat, n: nat) -> Seq<S>
        decreases h, n,
    {
        if h == 0 {
            Seq::empty()
        } else if n == 0 {
            self.child_at(0).in_order((h - 1) as nat)
        } else {
            self.in_order_upto(h, (n - 1) as nat).push(self.key_at(n - 1)) + self.child_at(
                n as int,
            ).in_order((h - 1) as nat)
        }
    }

    /// `path` names a node of this subtree: the children to enter, one after
    /// the other, on the way down from here.
    pub open spec fn reaches(self, path: Seq<int>) -> bool
        decreases path.len(),
    {
        path.len() == 0 || (0 <= path[0] < self.fanout() && self.child_at(path[0]).reaches(
            path.drop_first(),
        ))
    }

    /// The node that `path` names.
    pub open spec fn descend(self, path: Seq<int>) -> Self
        decreases path.len(),
    {
        if path.len() == 0 {
            self
        } else {
            self.child_at(path[0]).descend(path.drop_first())
        }
    }

    /// `l` and `r` are what a split makes of the full node `c`: the entries
    /// and children before its median, and those after it.
    pub open spec fn halves(c: Self, l: Self, r: Self, t: int) -> bool {
        &&& c.len() == 2 * t - 1
        &&& l.len() == t - 1
        &&& r.len() == t - 1
        &&& forall|a: int|
            0 <= a < t - 1 ==> #[trigger] l.key_at(a) == c.key_at(a) && l.value_at(a) == c.value_at(
                a,
            )
        &&& forall|a: int|
            0 <= a < t - 1 ==> #[trigger] r.key_at(a) == c.key_at(a + t) && r.value_at(a)
                == c.value_at(a + t)
        &&& if c.fanout() == 0 {
            l.fanout() == 0 && r.fanout() == 0
        } else {
            &&& c.fanout() == 2 * t
            &&& l.fanout() == t
            &&& r.fanout() == t
            &&& forall|b: int| 0 <= b < t ==> #[trigger] l.child_at(b) == c.child_at(b)
            &&& forall|b: int| 0 <= b < t ==> #[trigger] r.child_at(b) == c.child_at(b + t)
        }
    }

    /// `q` is `p` after the split of its full child `i`: the child's median
    /// has become entry `i`, and the two halves are children `i` and `i + 1`.
    pub open spec fn split_at(p: Self, q: Self, i: int, t: int) -> bool {
        &&& 0 <= i < p.fanout()
        &&& q.len() == p.len() + 1
        &&& q.fanout() == p.fanout() + 1
        &&& forall|a: int|
            0 <= a < i ==> #[trigger] q.key_at(a) == p.key_at(a) && q.value_at(a) == p.value_at(a)
        &&& q.key_at(i) == p.child_at(i).key_at(t - 1)
        &&& q.value_at(i) == p.child_at(i).value_at(t - 1)
        &&& forall|a: int|
            i < a < q.len() ==> #[trigger] q.key_at(a) == p.key_at(a - 1) && q.value_at(a)
                == p.value_at(a - 1)
        &&& forall|b: int| 0 <= b < i ==> #[trigger] q.child_at(b) == p.child_at(b)
        &&& forall|b: int| i + 1 < b < q.fanout() ==> #[trigger] q.child_at(b) == p.child_at(b - 1)
        &&& Self::halves(p.child_at(i), q.child_at(i), q.child_at(i + 1), t)
    }

    /// `q` has the keys and children of `p`, and its values but for that of
    /// entry `at`.
    pub open spec fn overwritten(p: Self, q: Self, at: int) -> bool {
        &&& 0 <= at < p.len()
        &&& q.len() == p.len()
        &&& q.fanout() == p.fanout()
        &&& forall|a: int| 0 <= a < p.len() ==> #[trigger] q.key_at(a) == p.key_at(a)
        &&& forall|a: int|
            0 <= a < p.len() && a != at ==> #[trigger] q.value_at(a) == p.value_at(a)
        &&& forall|b: int| 0 <= b < p.fanout() ==> #[trigger] q.child_at(b) == p.child_at(b)
    }

    /// `q` is the leaf `p` with one more entry, at position `at`.
    pub open spec fn widened(p: Self, q: Self, at: int) -> bool {
        &&& 0 <= at <= p.len()
        &&& q.len() == p.len() + 1
        &&& p.fanout() == 0
        &&& q.fanout() == 0
        &&& forall|a: int|
            0 <= a < at ==> #[trigger] q.key_at(a) == p.key_at(a) && q.value_at(a) == p.value_at(a)
        &&& forall|a: int|
            at < a < q.len() ==> #[trigger] q.key_at(a) == p.key_at(a - 1) && q.value_at(a)
                == p.value_at(a - 1)
    }

    /// `q` has the entries of `p`, and its children but for child `at`.
    pub open spec fn regrown(p: Self, q: Self, at: int) -> bool {
        &&& 0 <= at < p.fanout()
        &&& q.len() == p.len()
        &&& q.fanout() == p.fanout()
        &&& forall|a: int|
            0 <= a < p.len() ==> #[trigger] q.key_at(a) == p.key_at(a) && q.value_at(a)
                == p.value_at(a)
        &&& forall|b: int|
            0 <= b < p.fanout() && b != at ==> #[trigger] q.child_at(b) == p.child_at(b)
    }

    /// An empty leaf with room for `size` entries.
    pub fn new(size: usize) -> (node: Node<T, S>)
        ensures
            node.len() == 0,
            node.fanout() == 0,
    {
        Node { entries: Vec::with_capacity(size), children: Vec::new() }
    }

    /// The number of entries.
    pub fn count(&self) -> (n: usize)
        ensures
            n == self.len(),
    {
        self.entries.len()
    }

    /// Whether this node has no children.
    pub fn is_leaf(&self) -> (r: bool)
        ensures
            r == (self.fanout() == 0),
    {
        self.children.len() == 0
    }

    /// The key of entry `i`.
    pub fn key(&self, i: usize) -> (k: &S)
        requires
            i < self.len(),
        ensures
            *k == self.key_at(i as int),
    {
        &self.entries[i].key
    }

    /// The value of entry `i`.
    pub fn value(&self, i: usize) -> (v: &T)
        requires
            i < self.len(),
        ensures
            *v == self.value_at(i as int),
    {
        &self.entries[i].value
    }

    /// Child `j`.
    pub fn child(&self, j: usize) -> (c: &Node<T, S>)
        requires
            j < self.fanout(),
        ensures
            *c == self.child_at(j as int),
    {
        &self.children[j]
    }

    /// The first position whose key comes after `key`, or the number of
    /// entries if there is none.
    fn upper_bound(&self, key: &S) -> (i: usize)
        requires
            total_order::<S>(),
            self.sorted(),
        ensures
            i <= self.len(),
            forall|j: int| 0 <= j < i ==> !before(*key, #[trigger] self.key_at(j)),
            forall|j: int| i <= j < self.len() ==> before(*key, #[trigger] self.key_at(j)),
    {
        let mut lo: usize = 0;
        let mut hi: usize = self.entries.len();
        while lo < hi
            invariant
                total_order::<S>(),
                self.sorted(),
                lo <= hi <= self.len(),
                forall|j: int| 0 <= j < lo ==> !before(*key, #[trigger] self.key_at(j)),
                forall|j: int| hi <= j < self.len() ==> before(*key, #[trigger] self.key_at(j)),
            decreases hi - lo,
        {
            let mid: usize = lo + (hi - lo) / 2;
            if is_before(key, &self.entries[mid].key) {
                proof {
                    assert forall|j: int| mid <= j < self.len() implies before(
                        *key,
                        #[trigger] self.key_at(j),
                    ) by {
                        if mid < j {
                            lemma_before_transitive(*key, self.key_at(mid as int), self.key_at(j));
                        }
                    }
                }
                hi = mid;
            } else {
                proof {
                    assert forall|j: int| 0 <= j < mid + 1 implies !before(
                        *key,
                        #[trigger] self.key_at(j),
                    ) by {
                        if j < mid && before(*key, self.key_at(j)) {
                            lemma_before_transitive(*key, self.key_at(j), self.key_at(mid as int));
                        }
                    }
                }
                lo = mid + 1;
            }
        }
        lo
    }

    /// Splits the full child `i`: its median moves up to become entry `i` of
    /// this node, and the entries and children after the median move to a new
    /// node, which becomes child `i + 1`.
    fn split_child(&mut self, i: usize, t: usize)
        requires
            t >= 2,
            i < old(self).fanout(),
            old(self).fanout() == old(self).len() + 1,
            old(self).child_at(i as int).len() == 2 * t - 1,
            old(self).child_at(i as int).fanout() == 0 || old(self).child_at(i as int).fanout()
                == 2 * t,
        ensures
            Self::split_at(*old(self), *final(self), i as int, t as int),
    {
        assert(i < self.children.len());
        let next: usize = i + 1;
        let child = &mut self.children[i];
        let right_entries = child.entries.split_off(t);
        let median = child.entries.pop().unwrap();
        let right_children = if child.children.len() == 0 {
            Vec::new()
        } else {
            child.children.split_off(t)
        };
        let right = Node { entries: right_entries, children: right_children };
        self.entries.insert(i, median);
        self.children.insert(next, right);
    }

    /// Stores `value` under `key` in the subtree of height `h` rooted at this
    /// node, which is not full, and says whether `key` was new to it. On the
    /// way down each full child is split before it is entered.
    fn insert_nonfull(&mut self, key: S, value: T, h: usize, t: usize) -> (fresh: bool)
        requires
            total_order::<S>(),
            2 <= t <= i16::MAX,
            old(self).ordered(h as nat),
            old(self).filled(h as nat, t as nat),
            old(self).len() < 2 * t - 1,
        ensures
            final(self).ordered(h as nat),
            final(self).filled(h as nat, t as nat),
            final(self).len() >= old(self).len(),
            final(self).model(h as nat) == old(self).model(h as nat).insert(key, value),
            fresh == !old(self).model(h as nat).contains_key(key),
        decreases h,
    {
        let ghost p = *self;
        let at = self.upper_bound(&key);
        if at > 0 && is_same(&self.entries[at - 1].key, &key) {
            self.entries[at - 1].value = value;
            proof {
                Self::lemma_overwritten(p, *self, at - 1, h as nat);
            }
            return false;
        }
        if h == 0 {
            self.entries.insert(at, Entry { key, value });
            proof {
                Self::lemma_widened(p, *self, at as int);
            }
            return true;
        }
        let mut at = at;
        let ghost mut q = p;
        proof {
            assert(p.child_at(at as int).ordered((h - 1) as nat));
            assert(p.child_at(at as int).filled((h - 1) as nat, t as nat));
        }
        if self.children[at].entries.len() == 2 * t - 1 {
            self.split_child(at, t);
            proof {
                q = *self;
                Self::lemma_split(p, q, at as int, t as int, h as nat);
            }
            if is_same(&self.entries[at].key, &key) {
                self.entries[at].value = value;
                proof {
                    Self::lemma_overwritten(q, *self, at as int, h as nat);
                }
                return false;
            }
            proof {
                Self::lemma_split_routes(p, q, at as int, t as int, key);
            }
            if is_before(&self.entries[at].key, &key) {
                at = at + 1;
            }
        }
        proof {
            assert(q.child_at(at as int).ordered((h - 1) as nat));
            assert(q.child_at(at as int).filled((h - 1) as nat, t as nat));
        }
        let fresh = self.children[at].insert_nonfull(key, value, h - 1, t);
        proof {
            Self::lemma_regrown(q, *self, at as int, key, value, h as nat);
        }
        fresh
    }
}

/// The reason why an index could not be made: a branching factor under 2
/// cannot keep every node between `t - 1` and `2t - 1` entries.
#[derive(Debug, Clone, Copy, PartialEq, Eq, Structural)]
pub struct ConfigurationError {
    /// The branching factor that was asked for.
    pub degree: i16,
}

/// A balanced search tree from keys `S` to values `T`, with branching factor
/// `degree`: every node but the root holds between `degree - 1` and
/// `2 * degree - 1` entries, and all leaves are at depth `height`.
pub struct BTree<T: Clone, S: Eq + Ord> {
    root: Node<T, S>,
    degree: i16,
    height: usize,
    size: usize,
}

impl<T: Clone, S: Eq + Ord> View for BTree<T, S> {
    type V = Map<S, T>;

    /// The keys of the index, each with the value last stored under it.
    closed spec fn view(&self) -> Map<S, T> {
        self.root.model(self.height as nat)
    }
}

impl<T: Clone, S: Eq + Ord> BTree<T, S> {
    /// The root node.
    pub closed spec fn spec_root(self) -> Node<T, S> {
        self.root
    }

    /// The branching factor.
    pub closed spec fn spec_degree(self) -> int {
        self.degree as int
    }

    /// The depth of the leaves.
    pub closed spec fn spec_height(self) -> nat {
        self.height as nat
    }

    /// The number of keys.
    pub closed spec fn spec_size(self) -> nat {
        self.size as nat
    }

    /// What holds of an index between any two operations: the branching
    /// factor is at least 2; the keys are in search order and all leaves lie at
    /// depth `height`; the root has at most `2 * degree - 1` entries and every
    /// other node between `degree - 1` and `2 * degree - 1`; a root that is
    /// no leaf has an entry; and `size` counts the keys.
    pub open spec fn well_formed(self) -> bool {
        &&& self.spec_degree() >= 2
        &&& self.spec_root().ordered(self.spec_height())
        &&& self.spec_root().filled(self.spec_height(), self.spec_degree() as nat)
        &&& self.spec_height() > 0 ==> self.spec_root().len() >= 1
        &&& self@ == self.spec_root().model(self.spec_height())
        &&& self@.dom().finite()
        &&& self.spec_size() == self@.dom().len()
    }

    /// An empty index with branching factor `degree`, which must be at least 2.
    pub fn new(degree: i16) -> (r: Result<BTree<T, S>, ConfigurationError>)
        ensures
            degree < 2 <==> r is Err,
            r matches Err(e) ==> e.degree == degree,
            r matches Ok(tree) ==> {
                &&& tree.well_formed()
                &&& tree@ == Map::<S, T>::empty()
                &&& tree.spec_degree() == degree
                &&& tree.spec_height() == 0
                &&& tree.spec_size() == 0
            },
    {
        if degree < 2 {
            return Err(ConfigurationError { degree });
        }
        let tree = BTree { root: Node::new(0), degree, height: 0, size: 0 };
        proof {
            assert(tree@ =~= Map::<S, T>::empty());
        }
        Ok(tree)
    }

    /// Whether the index holds no key.
    pub fn is_empty(&self) -> (r: bool)
        requires
            self.well_formed(),
        ensures
            r == (self@ == Map::<S, T>::empty()),
            r == (self.spec_size() == 0),
    {
        proof {
            if self.size == 0 {
                assert(self@.dom() =~= Set::<S>::empty());
                assert(self@ =~= Map::<S, T>::empty());
            }
        }
        self.size == 0
    }

    /// The number of keys in the index.
    pub fn size(&self) -> (r: usize)
        ensures
            r == self.spec_size(),
            self.well_formed() ==> r == self@.dom().len(),
    {
        self.size
    }

    /// The depth of the leaves; 0 while the root is a leaf.
    pub fn height(&self) -> (r: usize)
        ensures
            r == self.spec_height(),
    {
        self.height
    }

    /// The branching factor that the index was made with.
    pub fn degree(&self) -> (r: i16)
        ensures
            r == self.spec_degree(),
    {
        self.degree
    }

    /// The root node.
    pub fn root(&self) -> (r: &Node<T, S>)
        ensures
            *r == self.spec_root(),
    {
        &self.root
    }

    /// The keys of the index as a walk from left to right meets them.
    pub open spec fn in_order(self) -> Seq<S> {
        self.spec_root().in_order(self.spec_height())
    }

    /// The walk from left to right meets the keys of the index in strictly
    /// increasing order, each of them once, and there are `size` of them.
    pub proof fn lemma_sorted_traversal(self)
        requires
            total_order::<S>(),
            self.well_formed(),
        ensures
            increasing(self.in_order()),
            self.in_order().no_duplicates(),
            forall|k: S| self.in_order().contains(k) <==> self@.contains_key(k),
            self.in_order().len() == self.spec_size(),
    {
        let s = self.in_order();
        self.spec_root().lemma_in_order(self.spec_height());
        lemma_increasing_distinct(s);
        s.unique_seq_to_set();
        assert(s.to_set() =~= self@.dom());
    }

    /// An index holds at least `height` keys besides the entries of its root.
    pub proof fn lemma_height_bound(self)
        requires
            total_order::<S>(),
            self.well_formed(),
        ensures
            self.spec_size() >= self.spec_root().len() + self.spec_height(),
    {
        self.lemma_sorted_traversal();
        self.spec_root().lemma_in_order_len(self.spec_height(), self.spec_degree() as nat);
    }

    /// In an index every leaf lies at depth `height`, and no node lies
    /// deeper.
    pub proof fn lemma_balanced(self, path: Seq<int>)
        requires
            self.well_formed(),
            self.spec_root().reaches(path),
        ensures
            path.len() <= self.spec_height(),
            self.spec_root().descend(path).fanout() == 0 <==> path.len() == self.spec_height(),
    {
        self.spec_root().lemma_leaves_at_depth(self.spec_height(), path);
    }

    /// In an index with branching factor `t` the root has at most `2t - 1`
    /// entries, and every other node has between `t - 1` and `2t - 1`.
    pub proof fn lemma_occupancy(self, path: Seq<int>)
        requires
            self.well_formed(),
            self.spec_root().reaches(path),
        ensures
            self.spec_root().descend(path).len() <= 2 * self.spec_degree() - 1,
            path.len() > 0 ==> self.spec_root().descend(path).len() >= self.spec_degree() - 1,
    {
        if path.len() > 0 {
            self.spec_root().lemma_nodes_filled(
                self.spec_height(),
                self.spec_degree() as nat,
                path,
            );
        }
    }

    /// `next` is this index after `put(key, value)`.
    pub open spec fn put_step(self, next: Self, key: S, value: T) -> bool {
        &&& next@ == self@.insert(key, value)
        &&& next.spec_degree() == self.spec_degree()
        &&& next.spec_size() == self.spec_size() + if self@.contains_key(key) {
            0int
        } else {
            1int
        }
        &&& next.spec_height() == self.spec_height() + if self.spec_root().len() == 2
            * self.spec_degree() - 1 {
            1int
        } else {
            0int
        }
    }

    /// After puts under keys that are all different, made one after the
    /// other on an empty index, each of the keys has the value that was put
    /// under it, and no other key is there.
    pub proof fn lemma_round_trip(states: Seq<Self>, puts: Seq<(S, T)>)
        requires
            states.len() == puts.len() + 1,
            states[0]@ == Map::<S, T>::empty(),
            forall|i: int|
                0 <= i < puts.len() ==> (#[trigger] states[i]).put_step(
                    states[i + 1],
                    puts[i].0,
                    puts[i].1,
                ),
            forall|i: int, j: int| 0 <= i < j < puts.len() ==> puts[i].0 != puts[j].0,
        ensures
            forall|i: int|
                0 <= i < puts.len() ==> states.last()@.contains_key((#[trigger] puts[i]).0)
                    && states.last()@[puts[i].0] == puts[i].1,
            forall|k: S|
                states.last()@.contains_key(k) ==> exists|i: int|
                    0 <= i < puts.len() && (#[trigger] puts[i]).0 == k,
        decreases puts.len(),
    {
        if puts.len() > 0 {
            let n = puts.len() - 1;
            assert(states[n].put_step(states[n + 1], puts[n].0, puts[n].1));
            Self::lemma_round_trip(states.drop_last(), puts.drop_last());
            assert forall|i: int| 0 <= i < puts.len() implies states.last()@.contains_key(
                (#[trigger] puts[i]).0,
            ) && states.last()@[puts[i].0] == puts[i].1 by {
                if i < n {
                    assert(puts.drop_last()[i] == puts[i]);
                }
            }
            assert forall|k: S| states.last()@.contains_key(k) implies exists|i: int|
                0 <= i < puts.len() && (#[trigger] puts[i]).0 == k by {
                if k != puts[n].0 {
                    assert(states.drop_last().last()@.contains_key(k));
                    let i = choose|i: int|
                        0 <= i < puts.drop_last().len() && (#[trigger] puts.drop_last()[i]).0 == k;
                    assert(puts[i].0 == k);
                } else {
                    assert(puts[n].0 == k);
                }
            }
        }
    }

    /// A second put under the same key leaves the number of keys as the
    /// first put left it, and its value is the one that `get` then finds.
    pub proof fn lemma_upsert(start: Self, first: Self, second: Self, key: S, v1: T, v2: T)
        requires
            start.put_step(first, key, v1),
            first.put_step(second, key, v2),
        ensures
            second.spec_size() == first.spec_size(),
            second@.contains_key(key),
            second@[key] == v2,
            second@ == start@.insert(key, v2),
    {
        assert(second@ =~= start@.insert(key, v2));
    }

    /// Stores `value` under `key`: in place of the value that was there, or
    /// as a new entry. A full root is split first, and the index grows by a
    /// level.
    pub fn put(&mut self, key: S, value: T)
        requires
            total_order::<S>(),
            old(self).well_formed(),
            old(self)@.contains_key(key) || old(self).spec_size() < usize::MAX,
        ensures
            final(self).well_formed(),
            final(self)@ == old(self)@.insert(key, value),
            old(self).put_step(*final(self), key, value),
    {
        let t: usize = self.degree as usize;
        if self.root.entries.len() == 2 * t - 1 {
            proof {
                self.lemma_height_bound();
            }
            let mut top: Node<T, S> = Node::new(0);
            std::mem::swap(&mut top, &mut self.root);
            self.root.children.push(top);
            let ghost lifted = self.root;
            proof {
                Node::lemma_lifted(lifted, top, self.height as nat);
            }
            self.root.split_child(0, t);
            self.height = self.height + 1;
            proof {
                Node::lemma_split(lifted, self.root, 0, t as int, self.height as nat);
            }
        }
        let fresh = self.root.insert_nonfull(key, value, self.height, t);
        if fresh {
            self.size = self.size + 1;
        }
    }

    /// Looks `key` up in the subtree of height `h` rooted at `x`, and returns
    /// a clone of the value stored under it. In each node on the way the
    /// search stops at the first entry whose key comes after `key`: it has
    /// found `key` if the entry before that one holds it, and else goes on
    /// below the child between the two.
    pub fn search(&self, x: &Node<T, S>, key: S, h: usize) -> (r: Option<T>)
        requires
            total_order::<S>(),
            x.ordered(h as nat),
        ensures
            r is Some <==> x.model(h as nat).contains_key(key),
            r matches Some(v) ==> cloned(x.model(h as nat)[key], v),
        decreases h,
    {
        let i = x.upper_bound(&key);
        if i > 0 && is_same(&x.entries[i - 1].key, &key) {
            proof {
                x.lemma_entry_found(h as nat, i - 1);
            }
            return Some(x.entries[i - 1].value.clone());
        }
        proof {
            x.lemma_route(h as nat, key, i as int);
        }
        if h == 0 {
            None
        } else {
            self.search(&x.children[i], key, h - 1)
        }
    }

    /// A clone of the value stored under `key`, if there is one.
    pub fn get(&self, key: S) -> (r: Option<T>)
        requires
            total_order::<S>(),
            self.well_formed(),
        ensures
            r is Some <==> self@.contains_key(key),
            r matches Some(v) ==> cloned(self@[key], v),
    {
        self.search(&self.root, key, self.height)
    }
}

} // verus!
