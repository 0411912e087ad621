use vstd::prelude::*;
use vstd::laws_cmp::obeys_cmp;
use vstd::laws_eq::obeys_concrete_eq;
use vstd::std_specs::cmp::PartialOrdIs;

verus! {

/// The comparisons that std offers on `S` behave as a strict total order, and
/// its `==` is equality of values.
pub open spec fn total_order<S: Ord>() -> bool {
    obeys_cmp::<S>() && obeys_concrete_eq::<S>()
}

/// `a` comes strictly before `b`.
pub open spec fn before<S: Ord>(a: S, b: S) -> bool {
    a.is_lt(&b)
}

/// Exactly one of `a` before `b`, `a == b`, `b` before `a` holds.
pub proof fn lemma_trichotomy<S: Ord>(a: S, b: S)
    requires
        total_order::<S>(),
    ensures
        before(a, b) || a == b || before(b, a),
        !(before(a, b) && a == b),
        !(before(b, a) && a == b),
        !(before(a, b) && before(b, a)),
{
    reveal(vstd::laws_cmp::obeys_cmp_partial_ord);
    reveal(vstd::laws_cmp::obeys_cmp_ord);
    reveal(vstd::laws_cmp::obeys_partial_cmp_spec_properties);
    reveal(vstd::laws_eq::obeys_concrete_eq);
    reveal(vstd::laws_eq::obeys_eq_spec_properties);
}

/// `before` is transitive.
pub proof fn lemma_before_transitive<S: Ord>(a: S, b: S, c: S)
    requires
        total_order::<S>(),
        before(a, b),
        before(b, c),
    ensures
        before(a, c),
{
    reveal(vstd::laws_cmp::obeys_partial_cmp_spec_properties);
}

/// Whether `a` comes strictly before `b`.
pub fn is_before<S: Ord>(a: &S, b: &S) -> (r: bool)
    requires
        total_order::<S>(),
    ensures
        r == before(*a, *b),
{
    proof {
        reveal(vstd::laws_cmp::obeys_cmp_partial_ord);
    }
    *a < *b
}

/// Whether `a` and `b` are the same key.
pub fn is_same<S: Ord>(a: &S, b: &S) -> (r: bool)
    requires
        total_order::<S>(),
    ensures
        r == (*a == *b),
{
    proof {
        reveal(vstd::laws_eq::obeys_concrete_eq);
    }
    *a == *b
}

/// `i32`, the type of a row's id, is totally ordered: an index can be keyed
/// by it.
pub proof fn lemma_i32_total_order()
    ensures
        total_order::<i32>(),
{
    broadcast use vstd::laws_cmp::group_laws_cmp;
    broadcast use vstd::laws_eq::group_laws_eq;
}

/// Each element of `s` comes strictly before the ones after it.
pub open spec fn increasing<S: Ord>(s: Seq<S>) -> bool {
    forall|a: int, b: int| 0 <= a < b < s.len() ==> before(#[trigger] s[a], #[trigger] s[b])
}

/// An increasing sequence holds nothing twice.
pub proof fn lemma_increasing_distinct<S: Ord>(s: Seq<S>)
    requires
        total_order::<S>(),
        increasing(s),
    ensures
        s.no_duplicates(),
{
    assert forall|a: int, b: int| 0 <= a < s.len() && 0 <= b < s.len() && a != b implies s[a]
        != s[b] by {
        if a < b {
            lemma_trichotomy(s[a], s[b]);
        } else {
            lemma_trichotomy(s[b], s[a]);
        }
    }
}

/// Two increasing sequences with an element between them make one
/// increasing sequence.
pub proof fn lemma_increasing_joined<S: Ord>(left: Seq<S>, mid: S, right: Seq<S>)
    requires
        total_order::<S>(),
        increasing(left),
        increasing(right),
        forall|a: int| 0 <= a < left.len() ==> before(#[trigger] left[a], mid),
        forall|b: int| 0 <= b < right.len() ==> before(mid, #[trigger] right[b]),
    ensures
        increasing(left.push(mid) + right),
{
    let s = left.push(mid) + right;
    let n = left.len();
    assert forall|a: int, b: int| 0 <= a < b < s.len() implies before(
        #[trigger] s[a],
        #[trigger] s[b],
    ) by {
        if b < n {
            assert(s[a] == left[a] && s[b] == left[b]);
        } else if b == n {
            assert(s[a] == left[a] && s[b] == mid);
        } else if a < n {
            assert(s[a] == left[a] && s[b] == right[b - n - 1]);
            lemma_before_transitive(left[a], mid, right[b - n - 1]);
        } else if a == n {
            assert(s[a] == mid && s[b] == right[b - n - 1]);
        } else {
            assert(s[a] == right[a - n - 1] && s[b] == right[b - n - 1]);
        }
    }
}

} // verus!
