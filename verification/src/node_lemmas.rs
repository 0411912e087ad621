use vstd::prelude::*;
use crate::b_tree::Node;
use crate::order::{
    before, increasing, lemma_before_transitive, lemma_increasing_joined, lemma_trichotomy,
    total_order,
};

verus! {

impl<T: Clone, S: Eq + Ord> Node<T, S> {
    /// An entry of a sorted node is found under its key, with its value.
    pub proof fn lemma_entry_found(self, h: nat, i: int)
        requires
            total_order::<S>(),
            self.sorted(),
            0 <= i < self.len(),
        ensures
            self.holds(h, self.key_at(i)),
            self.value_of(h, self.key_at(i)) == self.value_at(i),
    {
        let k = self.key_at(i);
        let c = choose|c: int| 0 <= c < self.len() && #[trigger] self.key_at(c) == k;
        lemma_trichotomy(self.key_at(i), self.key_at(c));
        lemma_trichotomy(self.key_at(c), self.key_at(i));
    }

    /// A key that a child stores is no entry of this node, lies below no other
    /// child, and is found through that child.
    pub proof fn lemma_child_found(self, h: nat, j: int, k: S)
        requires
            total_order::<S>(),
            self.ordered(h),
            h > 0,
            0 <= j < self.fanout(),
            self.child_at(j).holds((h - 1) as nat, k),
        ensures
            self.holds(h, k),
            forall|i: int| 0 <= i < self.len() ==> #[trigger] self.key_at(i) != k,
            forall|c: int|
                0 <= c < self.fanout() && c != j ==> !(#[trigger] self.child_at(c)).holds(
                    (h - 1) as nat,
                    k,
                ),
            self.value_of(h, k) == self.child_at(j).value_of((h - 1) as nat, k),
    {
        assert forall|i: int| 0 <= i < self.len() implies #[trigger] self.key_at(i) != k by {
            if self.key_at(i) == k {
                if i >= j {
                    lemma_trichotomy(k, self.key_at(j));
                    lemma_trichotomy(self.key_at(j), self.key_at(i));
                } else {
                    lemma_trichotomy(self.key_at(j - 1), k);
                    lemma_trichotomy(self.key_at(i), self.key_at(j - 1));
                }
            }
        }
        assert forall|c: int| 0 <= c < self.fanout() && c != j implies !(
        #[trigger] self.child_at(c)).holds((h - 1) as nat, k) by {
            if self.child_at(c).holds((h - 1) as nat, k) {
                if c < j {
                    // k < key(c) <= key(j - 1) < k
                    lemma_trichotomy(k, self.key_at(c));
                    lemma_trichotomy(self.key_at(j - 1), k);
                    if c < j - 1 {
                        lemma_before_transitive(k, self.key_at(c), self.key_at(j - 1));
                    }
                } else {
                    lemma_trichotomy(k, self.key_at(j));
                    lemma_trichotomy(self.key_at(c - 1), k);
                    if j < c - 1 {
                        lemma_before_transitive(k, self.key_at(j), self.key_at(c - 1));
                    }
                }
            }
        }
    }

    /// A search for `k` that leaves this node at `i` without meeting `k`
    /// finds it below child `i`, or nowhere.
    pub proof fn lemma_route(self, h: nat, k: S, i: int)
        requires
            total_order::<S>(),
            self.ordered(h),
            self.routes(k, i),
            i > 0 ==> self.key_at(i - 1) != k,
        ensures
            forall|j: int| 0 <= j < self.len() ==> #[trigger] self.key_at(j) != k,
            h == 0 ==> !self.holds(h, k),
            h > 0 ==> self.holds(h, k) == self.child_at(i).holds((h - 1) as nat, k),
            h > 0 && self.holds(h, k) ==> self.value_of(h, k) == self.child_at(i).value_of(
                (h - 1) as nat,
                k,
            ),
    {
        assert forall|j: int| 0 <= j < self.len() implies #[trigger] self.key_at(j) != k by {
            if self.key_at(j) == k {
                lemma_trichotomy(k, self.key_at(j));
                if j < i - 1 {
                    lemma_trichotomy(self.key_at(i - 1), k);
                }
            }
        }
        if h > 0 {
            assert forall|c: int| 0 <= c < self.fanout() && c != i implies !(
            #[trigger] self.child_at(c)).holds((h - 1) as nat, k) by {
                if self.child_at(c).holds((h - 1) as nat, k) {
                    if c < i {
                        // k < key(c), yet key(c) is at or before k
                        assert(before(k, self.key_at(c)));
                    } else {
                        // key(c - 1) < k < key(c - 1)
                        assert(before(self.key_at(c - 1), k));
                        assert(before(k, self.key_at(c - 1)));
                        lemma_trichotomy(k, self.key_at(c - 1));
                    }
                }
            }
            if self.child_at(i).holds((h - 1) as nat, k) {
                self.lemma_child_found(h, i, k);
            }
        }
    }

    /// The halves of a full node are in search order, and between them and
    /// the median they store what the node stored: the left half what came
    /// before the median, the right half what came after it.
    pub proof fn lemma_halves(c: Self, l: Self, r: Self, t: int, g: nat)
        requires
            total_order::<S>(),
            t >= 2,
            c.ordered(g),
            Self::halves(c, l, r, t),
        ensures
            l.ordered(g),
            r.ordered(g),
            c.filled(g, t as nat) ==> l.filled(g, t as nat) && r.filled(g, t as nat),
            forall|k: S|
                c.holds(g, k) <==> (l.holds(g, k) || k == c.key_at(t - 1) || r.holds(g, k)),
            forall|k: S|
                l.holds(g, k) ==> before(k, c.key_at(t - 1)) && l.value_of(g, k) == c.value_of(
                    g,
                    k,
                ),
            forall|k: S|
                r.holds(g, k) ==> before(c.key_at(t - 1), k) && r.value_of(g, k) == c.value_of(
                    g,
                    k,
                ),
    {
        let m = c.key_at(t - 1);
        assert(l.sorted());
        assert(r.sorted()) by {
            assert forall|a: int, b: int| 0 <= a < b < r.len() implies before(
                #[trigger] r.key_at(a),
                #[trigger] r.key_at(b),
            ) by {
                assert(before(c.key_at(a + t), c.key_at(b + t)));
            }
        }
        if g > 0 {
            assert(l.separates(g)) by {
                assert forall|j: int, k: S|
                    0 <= j < l.fanout() && #[trigger] l.child_at(j).holds((g - 1) as nat, k) implies {
                    &&& j < l.len() ==> before(k, l.key_at(j))
                    &&& j > 0 ==> before(l.key_at(j - 1), k)
                } by {
                    assert(c.child_at(j).holds((g - 1) as nat, k));
                }
            }
            assert(r.separates(g)) by {
                assert forall|j: int, k: S|
                    0 <= j < r.fanout() && #[trigger] r.child_at(j).holds((g - 1) as nat, k) implies {
                    &&& j < r.len() ==> before(k, r.key_at(j))
                    &&& j > 0 ==> before(r.key_at(j - 1), k)
                } by {
                    assert(c.child_at(j + t).holds((g - 1) as nat, k));
                    if j > 0 {
                        assert(r.key_at(j - 1) == c.key_at(j - 1 + t));
                    }
                }
            }
            assert forall|j: int| 0 <= j < r.fanout() implies (#[trigger] r.child_at(j)).ordered(
                (g - 1) as nat,
            ) by {
                assert(c.child_at(j + t).ordered((g - 1) as nat));
            }
        }
        assert(l.ordered(g));
        assert(r.ordered(g));
        if c.filled(g, t as nat) {
            if g > 0 {
                assert forall|j: int| 0 <= j < r.fanout() implies {
                    &&& (#[trigger] r.child_at(j)).len() >= t - 1
                    &&& r.child_at(j).filled((g - 1) as nat, t as nat)
                } by {
                    assert(c.child_at(j + t).filled((g - 1) as nat, t as nat));
                }
            }
            assert(l.filled(g, t as nat));
            assert(r.filled(g, t as nat));
        }
        assert forall|k: S| l.holds(g, k) implies c.holds(g, k) && before(k, m) && l.value_of(g, k)
            == c.value_of(g, k) by {
            if exists|a: int| 0 <= a < l.len() && #[trigger] l.key_at(a) == k {
                let a = choose|a: int| 0 <= a < l.len() && #[trigger] l.key_at(a) == k;
                assert(c.key_at(a) == k);
                l.lemma_entry_found(g, a);
                c.lemma_entry_found(g, a);
            } else {
                let j = choose|j: int|
                    0 <= j < l.fanout() && (#[trigger] l.child_at(j)).holds((g - 1) as nat, k);
                assert(c.child_at(j).holds((g - 1) as nat, k));
                l.lemma_child_found(g, j, k);
                c.lemma_child_found(g, j, k);
                if j < t - 1 {
                    lemma_before_transitive(k, c.key_at(j), m);
                }
            }
        }
        assert forall|k: S| r.holds(g, k) implies c.holds(g, k) && before(m, k) && r.value_of(g, k)
            == c.value_of(g, k) by {
            if exists|a: int| 0 <= a < r.len() && #[trigger] r.key_at(a) == k {
                let a = choose|a: int| 0 <= a < r.len() && #[trigger] r.key_at(a) == k;
                assert(c.key_at(a + t) == k);
                r.lemma_entry_found(g, a);
                c.lemma_entry_found(g, a + t);
            } else {
                let j = choose|j: int|
                    0 <= j < r.fanout() && (#[trigger] r.child_at(j)).holds((g - 1) as nat, k);
                assert(c.child_at(j + t).holds((g - 1) as nat, k));
                r.lemma_child_found(g, j, k);
                c.lemma_child_found(g, j + t, k);
                if j > 0 {
                    lemma_before_transitive(m, c.key_at(j + t - 1), k);
                }
            }
        }
        assert forall|k: S| c.holds(g, k) implies l.holds(g, k) || k == m || r.holds(g, k) by {
            if exists|a: int| 0 <= a < c.len() && #[trigger] c.key_at(a) == k {
                let a = choose|a: int| 0 <= a < c.len() && #[trigger] c.key_at(a) == k;
                if a < t - 1 {
                    assert(l.key_at(a) == k);
                } else if a > t - 1 {
                    assert(r.key_at(a - t) == k);
                }
            } else {
                let j = choose|j: int|
                    0 <= j < c.fanout() && (#[trigger] c.child_at(j)).holds((g - 1) as nat, k);
                if j < t {
                    assert(l.child_at(j).holds((g - 1) as nat, k));
                } else {
                    assert(r.child_at(j - t).holds((g - 1) as nat, k));
                }
            }
        }
        assert(c.holds(g, m)) by {
            assert(c.key_at(t - 1) == m);
        }
    }

    /// A split keeps the search order, the occupancy bounds and everything
    /// that the subtree stores.
    pub proof fn lemma_split(p: Self, q: Self, i: int, t: int, h: nat)
        requires
            total_order::<S>(),
            t >= 2,
            h > 0,
            p.ordered(h),
            Self::split_at(p, q, i, t),
        ensures
            q.ordered(h),
            q.model(h) == p.model(h),
            p.filled(h, t as nat) && p.len() < 2 * t - 1 ==> q.filled(h, t as nat),
    {
        let g = (h - 1) as nat;
        let c = p.child_at(i);
        let l = q.child_at(i);
        let r = q.child_at(i + 1);
        let m = c.key_at(t - 1);
        assert(c.ordered(g));
        Self::lemma_halves(c, l, r, t, g);
        assert(c.holds(g, m));
        assert(i < p.len() ==> before(m, p.key_at(i)));
        assert(i > 0 ==> before(p.key_at(i - 1), m));
        assert(q.sorted()) by {
            assert forall|a: int, b: int| 0 <= a < b < q.len() implies before(
                #[trigger] q.key_at(a),
                #[trigger] q.key_at(b),
            ) by {
                if b < i {
                } else if b == i {
                    if a < i - 1 {
                        lemma_before_transitive(p.key_at(a), p.key_at(i - 1), m);
                    }
                } else if a == i {
                    if i < b - 1 {
                        lemma_before_transitive(m, p.key_at(i), p.key_at(b - 1));
                    }
                } else if a < i {
                    assert(before(p.key_at(a), p.key_at(b - 1)));
                } else {
                    assert(before(p.key_at(a - 1), p.key_at(b - 1)));
                }
            }
        }
        assert forall|j: int| 0 <= j < q.fanout() implies (#[trigger] q.child_at(j)).ordered(g) by {
            if j < i {
                assert(p.child_at(j).ordered(g));
            } else if j > i + 1 {
                assert(p.child_at(j - 1).ordered(g));
            }
        }
        assert(q.separates(h)) by {
            assert forall|j: int, k: S|
                0 <= j < q.fanout() && #[trigger] q.child_at(j).holds(g, k) implies {
                &&& j < q.len() ==> before(k, q.key_at(j))
                &&& j > 0 ==> before(q.key_at(j - 1), k)
            } by {
                if j < i {
                    assert(p.child_at(j).holds(g, k));
                } else if j == i {
                    assert(c.holds(g, k));
                } else if j == i + 1 {
                    assert(c.holds(g, k));
                } else {
                    assert(p.child_at(j - 1).holds(g, k));
                    assert(q.key_at(j - 1) == p.key_at(j - 2));
                }
            }
        }
        assert(q.ordered(h));
        assert forall|k: S| p.holds(h, k) implies q.holds(h, k) && q.value_of(h, k) == p.value_of(
            h,
            k,
        ) by {
            if exists|a: int| 0 <= a < p.len() && #[trigger] p.key_at(a) == k {
                let a = choose|a: int| 0 <= a < p.len() && #[trigger] p.key_at(a) == k;
                p.lemma_entry_found(h, a);
                if a < i {
                    assert(q.key_at(a) == k);
                    q.lemma_entry_found(h, a);
                } else {
                    assert(q.key_at(a + 1) == k);
                    q.lemma_entry_found(h, a + 1);
                }
            } else {
                let b = choose|b: int|
                    0 <= b < p.fanout() && (#[trigger] p.child_at(b)).holds(g, k);
                p.lemma_child_found(h, b, k);
                if b < i {
                    assert(q.child_at(b).holds(g, k));
                    q.lemma_child_found(h, b, k);
                } else if b > i {
                    assert(q.child_at(b + 1) == p.child_at(b));
                    assert(q.child_at(b + 1).holds(g, k));
                    q.lemma_child_found(h, b + 1, k);
                } else if l.holds(g, k) {
                    q.lemma_child_found(h, i, k);
                } else if r.holds(g, k) {
                    q.lemma_child_found(h, i + 1, k);
                } else {
                    assert(q.key_at(i) == k);
                    q.lemma_entry_found(h, i);
                    c.lemma_entry_found(g, t - 1);
                }
            }
        }
        assert forall|k: S| q.holds(h, k) implies p.holds(h, k) by {
            if exists|a: int| 0 <= a < q.len() && #[trigger] q.key_at(a) == k {
                let a = choose|a: int| 0 <= a < q.len() && #[trigger] q.key_at(a) == k;
                if a < i {
                    assert(p.key_at(a) == k);
                } else if a == i {
                    assert(p.child_at(i).holds(g, k));
                } else {
                    assert(p.key_at(a - 1) == k);
                }
            } else {
                let b = choose|b: int|
                    0 <= b < q.fanout() && (#[trigger] q.child_at(b)).holds(g, k);
                if b < i {
                    assert(p.child_at(b).holds(g, k));
                } else if b > i + 1 {
                    assert(p.child_at(b - 1).holds(g, k));
                } else {
                    assert(p.child_at(i).holds(g, k));
                }
            }
        }
        assert(q.model(h) =~= p.model(h));
        if p.filled(h, t as nat) && p.len() < 2 * t - 1 {
            assert forall|j: int| 0 <= j < q.fanout() implies {
                &&& (#[trigger] q.child_at(j)).len() >= t - 1
                &&& q.child_at(j).filled(g, t as nat)
            } by {
                if j < i {
                    assert(p.child_at(j).filled(g, t as nat));
                } else if j > i + 1 {
                    assert(p.child_at(j - 1).filled(g, t as nat));
                } else {
                    assert(c.filled(g, t as nat));
                }
            }
        }
    }

    /// To overwrite the value of an entry is to store that value under the
    /// entry's key and to leave all else as it was.
    pub proof fn lemma_overwritten(p: Self, q: Self, at: int, h: nat)
        requires
            total_order::<S>(),
            p.ordered(h),
            Self::overwritten(p, q, at),
        ensures
            q.ordered(h),
            p.holds(h, p.key_at(at)),
            q.model(h) == p.model(h).insert(p.key_at(at), q.value_at(at)),
            forall|t: nat| p.filled(h, t) ==> q.filled(h, t),
    {
        let key = p.key_at(at);
        assert(q.sorted());
        if h > 0 {
            assert(q.separates(h)) by {
                assert forall|j: int, k: S|
                    0 <= j < q.fanout() && #[trigger] q.child_at(j).holds((h - 1) as nat, k) implies {
                    &&& j < q.len() ==> before(k, q.key_at(j))
                    &&& j > 0 ==> before(q.key_at(j - 1), k)
                } by {
                    assert(p.child_at(j).holds((h - 1) as nat, k));
                }
            }
        }
        assert(q.ordered(h));
        p.lemma_entry_found(h, at);
        assert(q.key_at(at) == key);
        q.lemma_entry_found(h, at);
        assert forall|k: S| p.holds(h, k) implies q.holds(h, k) && (k != key ==> q.value_of(h, k)
            == p.value_of(h, k)) by {
            if exists|a: int| 0 <= a < p.len() && #[trigger] p.key_at(a) == k {
                let a = choose|a: int| 0 <= a < p.len() && #[trigger] p.key_at(a) == k;
                assert(q.key_at(a) == k);
                p.lemma_entry_found(h, a);
                q.lemma_entry_found(h, a);
            } else {
                let b = choose|b: int|
                    0 <= b < p.fanout() && (#[trigger] p.child_at(b)).holds((h - 1) as nat, k);
                assert(q.child_at(b).holds((h - 1) as nat, k));
                p.lemma_child_found(h, b, k);
                q.lemma_child_found(h, b, k);
            }
        }
        assert forall|k: S| q.holds(h, k) implies p.holds(h, k) by {
            if exists|a: int| 0 <= a < q.len() && #[trigger] q.key_at(a) == k {
                let a = choose|a: int| 0 <= a < q.len() && #[trigger] q.key_at(a) == k;
                assert(p.key_at(a) == k);
            } else {
                let b = choose|b: int|
                    0 <= b < q.fanout() && (#[trigger] q.child_at(b)).holds((h - 1) as nat, k);
                assert(p.child_at(b).holds((h - 1) as nat, k));
            }
        }
        assert(q.model(h) =~= p.model(h).insert(key, q.value_at(at)));
        assert forall|t: nat| p.filled(h, t) implies q.filled(h, t) by {
            if h > 0 {
                assert forall|j: int| 0 <= j < q.fanout() implies {
                    &&& (#[trigger] q.child_at(j)).len() >= t - 1
                    &&& q.child_at(j).filled((h - 1) as nat, t)
                } by {
                    assert(p.child_at(j).filled((h - 1) as nat, t));
                }
            }
        }
    }

    /// To put a new entry into a leaf at the place where a search for its key
    /// ends is to store its value under that key and to leave all else as it
    /// was.
    pub proof fn lemma_widened(p: Self, q: Self, at: int)
        requires
            total_order::<S>(),
            p.ordered(0),
            Self::widened(p, q, at),
            p.routes(q.key_at(at), at),
            at > 0 ==> p.key_at(at - 1) != q.key_at(at),
        ensures
            q.ordered(0),
            !p.holds(0, q.key_at(at)),
            q.model(0) == p.model(0).insert(q.key_at(at), q.value_at(at)),
    {
        let key = q.key_at(at);
        p.lemma_route(0, key, at);
        assert(q.sorted()) by {
            assert forall|a: int, b: int| 0 <= a < b < q.len() implies before(
                #[trigger] q.key_at(a),
                #[trigger] q.key_at(b),
            ) by {
                if b < at {
                } else if b == at {
                    assert(q.key_at(a) == p.key_at(a));
                    lemma_trichotomy(p.key_at(a), key);
                } else if a == at {
                    assert(before(key, p.key_at(b - 1)));
                } else if a < at {
                    assert(before(p.key_at(a), p.key_at(b - 1)));
                } else {
                    assert(before(p.key_at(a - 1), p.key_at(b - 1)));
                }
            }
        }
        q.lemma_entry_found(0, at);
        assert forall|k: S| p.holds(0, k) implies q.holds(0, k) && q.value_of(0, k) == p.value_of(
            0,
            k,
        ) by {
            let a = choose|a: int| 0 <= a < p.len() && #[trigger] p.key_at(a) == k;
            p.lemma_entry_found(0, a);
            if a < at {
                assert(q.key_at(a) == k);
                q.lemma_entry_found(0, a);
            } else {
                assert(q.key_at(a + 1) == k);
                q.lemma_entry_found(0, a + 1);
            }
        }
        assert forall|k: S| q.holds(0, k) implies k == key || p.holds(0, k) by {
            let a = choose|a: int| 0 <= a < q.len() && #[trigger] q.key_at(a) == k;
            if a < at {
                assert(p.key_at(a) == k);
            } else if a > at {
                assert(p.key_at(a - 1) == k);
            }
        }
        assert(q.model(0) =~= p.model(0).insert(key, q.value_at(at)));
    }

    /// To store a value under `key` in the child that a search for `key`
    /// leads to is to store it in this subtree.
    pub proof fn lemma_regrown(p: Self, q: Self, at: int, key: S, value: T, h: nat)
        requires
            total_order::<S>(),
            h > 0,
            p.ordered(h),
            Self::regrown(p, q, at),
            p.routes(key, at),
            at > 0 ==> p.key_at(at - 1) != key,
            q.child_at(at).ordered((h - 1) as nat),
            q.child_at(at).model((h - 1) as nat) == p.child_at(at).model((h - 1) as nat).insert(
                key,
                value,
            ),
        ensures
            q.ordered(h),
            p.holds(h, key) == p.child_at(at).holds((h - 1) as nat, key),
            q.model(h) == p.model(h).insert(key, value),
            forall|t: nat|
                p.filled(h, t) && q.child_at(at).filled((h - 1) as nat, t) && q.child_at(at).len()
                    >= p.child_at(at).len() ==> q.filled(h, t),
    {
        let g = (h - 1) as nat;
        let c = p.child_at(at);
        let d = q.child_at(at);
        p.lemma_route(h, key, at);
        assert forall|k: S| d.holds(g, k) <==> (k == key || c.holds(g, k)) by {
            assert(d.model(g).contains_key(k) <==> c.model(g).insert(key, value).contains_key(k));
        }
        assert(d.value_of(g, key) == value) by {
            assert(d.model(g)[key] == value);
        }
        assert forall|k: S| c.holds(g, k) && k != key implies d.value_of(g, k) == c.value_of(
            g,
            k,
        ) by {
            assert(d.model(g)[k] == c.model(g)[k]);
        }
        assert(at < p.len() ==> before(key, p.key_at(at)));
        assert(at > 0 ==> before(p.key_at(at - 1), key)) by {
            if at > 0 {
                lemma_trichotomy(p.key_at(at - 1), key);
            }
        }
        assert(q.sorted());
        assert forall|j: int| 0 <= j < q.fanout() implies (#[trigger] q.child_at(j)).ordered(g) by {
            if j != at {
                assert(p.child_at(j).ordered(g));
            }
        }
        assert(q.separates(h)) by {
            assert forall|j: int, k: S|
                0 <= j < q.fanout() && #[trigger] q.child_at(j).holds(g, k) implies {
                &&& j < q.len() ==> before(k, q.key_at(j))
                &&& j > 0 ==> before(q.key_at(j - 1), k)
            } by {
                if j != at {
                    assert(p.child_at(j).holds(g, k));
                } else if k != key {
                    assert(p.child_at(j).holds(g, k));
                }
            }
        }
        assert(q.ordered(h));
        assert(d.holds(g, key));
        q.lemma_child_found(h, at, key);
        assert forall|k: S| p.holds(h, k) && k != key implies q.holds(h, k) && q.value_of(h, k)
            == p.value_of(h, k) by {
            if exists|a: int| 0 <= a < p.len() && #[trigger] p.key_at(a) == k {
                let a = choose|a: int| 0 <= a < p.len() && #[trigger] p.key_at(a) == k;
                assert(q.key_at(a) == k);
                p.lemma_entry_found(h, a);
                q.lemma_entry_found(h, a);
            } else {
                let b = choose|b: int|
                    0 <= b < p.fanout() && (#[trigger] p.child_at(b)).holds(g, k);
                assert(q.child_at(b).holds(g, k));
                p.lemma_child_found(h, b, k);
                q.lemma_child_found(h, b, k);
            }
        }
        assert forall|k: S| q.holds(h, k) && k != key implies p.holds(h, k) by {
            if exists|a: int| 0 <= a < q.len() && #[trigger] q.key_at(a) == k {
                let a = choose|a: int| 0 <= a < q.len() && #[trigger] q.key_at(a) == k;
                assert(p.key_at(a) == k);
            } else {
                let b = choose|b: int|
                    0 <= b < q.fanout() && (#[trigger] q.child_at(b)).holds(g, k);
                assert(p.child_at(b).holds(g, k));
            }
        }
        assert(q.model(h) =~= p.model(h).insert(key, value));
        assert forall|t: nat|
            p.filled(h, t) && d.filled(g, t) && d.len() >= c.len() implies q.filled(h, t) by {
            assert forall|j: int| 0 <= j < q.fanout() implies {
                &&& (#[trigger] q.child_at(j)).len() >= t - 1
                &&& q.child_at(j).filled(g, t)
            } by {
                assert(p.child_at(j).filled(g, t));
            }
        }
    }

    /// After the split of the child that a search for `key` led to, the
    /// search goes on to the left of the new entry or to its right, by how
    /// `key` compares with it.
    pub proof fn lemma_split_routes(p: Self, q: Self, i: int, t: int, key: S)
        requires
            total_order::<S>(),
            Self::split_at(p, q, i, t),
            p.routes(key, i),
            i > 0 ==> p.key_at(i - 1) != key,
            q.key_at(i) != key,
        ensures
            before(q.key_at(i), key) ==> q.routes(key, i + 1),
            !before(q.key_at(i), key) ==> q.routes(key, i),
            i > 0 ==> q.key_at(i - 1) != key,
    {
        lemma_trichotomy(q.key_at(i), key);
        if before(q.key_at(i), key) {
            assert forall|j: int| i + 1 <= j < q.len() implies before(
                key,
                #[trigger] q.key_at(j),
            ) by {
                assert(before(key, p.key_at(j - 1)));
            }
            assert forall|j: int| 0 <= j < i + 1 implies !before(key, #[trigger] q.key_at(j)) by {
                if j < i {
                    assert(!before(key, p.key_at(j)));
                }
            }
        } else {
            assert forall|j: int| i <= j < q.len() implies before(key, #[trigger] q.key_at(j)) by {
                if j > i {
                    assert(before(key, p.key_at(j - 1)));
                }
            }
            assert forall|j: int| 0 <= j < i implies !before(key, #[trigger] q.key_at(j)) by {
                assert(!before(key, p.key_at(j)));
            }
        }
    }

    /// A node without entries whose one child is `c` stores what `c` stores.
    pub proof fn lemma_lifted(p: Self, c: Self, h: nat)
        requires
            total_order::<S>(),
            c.ordered(h),
            p.len() == 0,
            p.fanout() == 1,
            p.child_at(0) == c,
        ensures
            p.ordered(h + 1),
            p.model(h + 1) == c.model(h),
            forall|t: nat| c.filled(h, t) && c.len() >= t - 1 && t >= 1 ==> p.filled(h + 1, t),
    {
        assert(p.ordered(h + 1));
        assert forall|k: S| c.holds(h, k) implies p.holds(h + 1, k) && p.value_of(h + 1, k)
            == c.value_of(h, k) by {
            assert(p.child_at(0).holds(h, k));
            p.lemma_child_found(h + 1, 0, k);
        }
        assert forall|k: S| p.holds(h + 1, k) implies c.holds(h, k) by {
            let b = choose|b: int| 0 <= b < p.fanout() && (#[trigger] p.child_at(b)).holds(h, k);
            assert(b == 0);
        }
        assert(p.model(h + 1) =~= c.model(h));
    }

    /// The walk from left to right meets the keys in increasing order, and
    /// meets exactly the keys that the subtree stores.
    pub proof fn lemma_in_order(self, h: nat)
        requires
            total_order::<S>(),
            self.ordered(h),
        ensures
            increasing(self.in_order(h)),
            forall|k: S| self.in_order(h).contains(k) <==> self.holds(h, k),
        decreases h, self.len() + 1,
    {
        let s = self.in_order(h);
        if h == 0 {
            assert forall|k: S| s.contains(k) <==> self.holds(h, k) by {
                if s.contains(k) {
                    let a = choose|a: int| 0 <= a < s.len() && s[a] == k;
                    assert(self.key_at(a) == k);
                }
                if self.holds(h, k) {
                    let a = choose|a: int| 0 <= a < self.len() && #[trigger] self.key_at(a) == k;
                    assert(s[a] == k);
                }
            }
        } else {
            self.lemma_in_order_upto(h, self.len());
            assert forall|k: S| s.contains(k) <==> self.holds(h, k) by {
                if self.holds(h, k) {
                    if exists|a: int| 0 <= a < self.len() && #[trigger] self.key_at(a) == k {
                    } else {
                        let j = choose|j: int|
                            0 <= j < self.fanout() && (#[trigger] self.child_at(j)).holds(
                                (h - 1) as nat,
                                k,
                            );
                        assert(self.child_at(j).holds((h - 1) as nat, k));
                    }
                }
            }
        }
    }

    /// The part of the walk that ends with child `n` is increasing, and meets
    /// the first `n` entries and what the first `n + 1` children store.
    pub proof fn lemma_in_order_upto(self, h: nat, n: nat)
        requires
            total_order::<S>(),
            self.ordered(h),
            h > 0,
            n <= self.len(),
        ensures
            increasing(self.in_order_upto(h, n)),
            forall|k: S|
                self.in_order_upto(h, n).contains(k) <==> ((exists|a: int|
                    0 <= a < n && #[trigger] self.key_at(a) == k) || (exists|j: int|
                    0 <= j <= n && (#[trigger] self.child_at(j)).holds((h - 1) as nat, k))),
        decreases h, n,
    {
        let g = (h - 1) as nat;
        let s = self.in_order_upto(h, n);
        let last = self.child_at(n as int);
        assert(last.ordered(g));
        last.lemma_in_order(g);
        let tail = last.in_order(g);
        if n == 0 {
            assert forall|k: S|
                s.contains(k) <==> ((exists|a: int| 0 <= a < n && #[trigger] self.key_at(a) == k)
                    || (exists|j: int|
                    0 <= j <= n && (#[trigger] self.child_at(j)).holds(g, k))) by {
                if s.contains(k) {
                    assert(self.child_at(0).holds(g, k));
                }
            }
        } else {
            let m = (n - 1) as nat;
            let head = self.in_order_upto(h, m);
            let mid = self.key_at(n - 1);
            self.lemma_in_order_upto(h, m);
            assert forall|a: int| 0 <= a < head.len() implies before(#[trigger] head[a], mid) by {
                let k = head[a];
                assert(head.contains(k));
                if exists|e: int| 0 <= e < m && #[trigger] self.key_at(e) == k {
                    let e = choose|e: int| 0 <= e < m && #[trigger] self.key_at(e) == k;
                    assert(before(self.key_at(e), self.key_at(n - 1)));
                } else {
                    let j = choose|j: int|
                        0 <= j <= m && (#[trigger] self.child_at(j)).holds(g, k);
                    assert(before(k, self.key_at(j)));
                    if j < n - 1 {
                        lemma_before_transitive(k, self.key_at(j), mid);
                    }
                }
            }
            assert forall|b: int| 0 <= b < tail.len() implies before(mid, #[trigger] tail[b]) by {
                assert(tail.contains(tail[b]));
                assert(self.child_at(n as int).holds(g, tail[b]));
            }
            lemma_increasing_joined(head, mid, tail);
            assert forall|k: S|
                s.contains(k) <==> ((exists|a: int| 0 <= a < n && #[trigger] self.key_at(a) == k)
                    || (exists|j: int|
                    0 <= j <= n && (#[trigger] self.child_at(j)).holds(g, k))) by {
                let front = head.push(mid);
                if s.contains(k) {
                    let x = choose|x: int| 0 <= x < s.len() && s[x] == k;
                    if x < head.len() {
                        assert(head[x] == k);
                        assert(head.contains(k));
                        if exists|e: int| 0 <= e < m && #[trigger] self.key_at(e) == k {
                            let e = choose|e: int| 0 <= e < m && #[trigger] self.key_at(e) == k;
                            assert(0 <= e < n && self.key_at(e) == k);
                        } else {
                            let j = choose|j: int|
                                0 <= j <= m && (#[trigger] self.child_at(j)).holds(g, k);
                            assert(0 <= j <= n && self.child_at(j).holds(g, k));
                        }
                    } else if x == head.len() {
                        assert(self.key_at(n - 1) == k);
                    } else {
                        assert(tail[x - head.len() - 1] == k);
                        assert(tail.contains(k));
                        assert(self.child_at(n as int).holds(g, k));
                    }
                }
                if exists|a: int| 0 <= a < n && #[trigger] self.key_at(a) == k {
                    let a = choose|a: int| 0 <= a < n && #[trigger] self.key_at(a) == k;
                    if a < m {
                        assert(head.contains(k));
                        let x = choose|x: int| 0 <= x < head.len() && head[x] == k;
                        assert(s[x] == k);
                    } else {
                        assert(s[head.len() as int] == k);
                    }
                }
                if exists|j: int| 0 <= j <= n && (#[trigger] self.child_at(j)).holds(g, k) {
                    let j = choose|j: int|
                        0 <= j <= n && (#[trigger] self.child_at(j)).holds(g, k);
                    if j <= m {
                        assert(head.contains(k));
                        let x = choose|x: int| 0 <= x < head.len() && head[x] == k;
                        assert(s[x] == k);
                    } else {
                        assert(tail.contains(k));
                        let x = choose|x: int| 0 <= x < tail.len() && tail[x] == k;
                        assert(s[head.len() + 1 + x] == k);
                    }
                }
            }
        }
    }

    /// A subtree of height `h` whose nodes below the root are not empty
    /// stores at least `h` keys besides the entries of its root.
    pub proof fn lemma_in_order_len(self, h: nat, t: nat)
        requires
            t >= 2,
            self.ordered(h),
            self.filled(h, t),
        ensures
            self.in_order(h).len() >= self.len() + h,
        decreases h, self.len() + 1,
    {
        if h > 0 {
            self.lemma_in_order_upto_len(h, t, self.len());
        }
    }

    /// The part of the walk that ends with child `n` meets at least `h` keys
    /// besides the first `n` entries.
    pub proof fn lemma_in_order_upto_len(self, h: nat, t: nat, n: nat)
        requires
            t >= 2,
            h > 0,
            self.ordered(h),
            self.filled(h, t),
            n <= self.len(),
        ensures
            self.in_order_upto(h, n).len() >= n + h,
        decreases h, n,
    {
        let g = (h - 1) as nat;
        assert(self.child_at(n as int).ordered(g));
        assert(self.child_at(n as int).filled(g, t));
        self.child_at(n as int).lemma_in_order_len(g, t);
        if n > 0 {
            self.lemma_in_order_upto_len(h, t, (n - 1) as nat);
        }
    }

    /// In a subtree of height `h` no node lies deeper than `h`, and a node is
    /// a leaf exactly if it lies at depth `h`.
    pub proof fn lemma_leaves_at_depth(self, h: nat, path: Seq<int>)
        requires
            self.ordered(h),
            self.reaches(path),
        ensures
            path.len() <= h,
            self.descend(path).fanout() == 0 <==> path.len() == h,
        decreases path.len(),
    {
        if path.len() > 0 {
            assert(self.child_at(path[0]).ordered((h - 1) as nat));
            self.child_at(path[0]).lemma_leaves_at_depth((h - 1) as nat, path.drop_first());
        }
    }

    /// In a subtree that keeps the occupancy bounds for branching factor `t`,
    /// every node below the root has between `t - 1` and `2t - 1` entries.
    pub proof fn lemma_nodes_filled(self, h: nat, t: nat, path: Seq<int>)
        requires
            self.ordered(h),
            self.filled(h, t),
            self.reaches(path),
            path.len() > 0,
        ensures
            t - 1 <= self.descend(path).len() <= 2 * t - 1,
        decreases path.len(),
    {
        let c = self.child_at(path[0]);
        let rest = path.drop_first();
        assert(c.ordered((h - 1) as nat));
        assert(c.filled((h - 1) as nat, t));
        if rest.len() > 0 {
            c.lemma_nodes_filled((h - 1) as nat, t, rest);
        }
    }
}

} // verus!
