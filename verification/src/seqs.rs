//! Small reusable facts about sequences: how `push` and `insert` act on
//! membership, duplicate-freedom and element order.

use vstd::prelude::*;

verus! {

/// Membership after a `push`: the old elements and the new one.
pub proof fn lemma_push_contains<A>(s: Seq<A>, x: A)
    ensures
        forall|y: A| #[trigger] s.push(x).contains(y) <==> (s.contains(y) || y == x),
{
    assert forall|y: A| #[trigger] s.push(x).contains(y) <==> (s.contains(y) || y == x) by {
        if s.contains(y) {
            let idx = choose|idx: int| 0 <= idx < s.len() && s[idx] == y;
            assert(s.push(x)[idx] == y);
        }
        if y == x {
            assert(s.push(x)[s.len() as int] == y);
        }
        if s.push(x).contains(y) {
            let idx = choose|idx: int| 0 <= idx < s.push(x).len() && s.push(x)[idx] == y;
            if idx < s.len() {
                assert(s[idx] == y);
            }
        }
    }
}

/// Membership after an `insert`: the old elements and the new one.
pub proof fn lemma_insert_contains<A>(s: Seq<A>, p: int, x: A)
    requires
        0 <= p <= s.len(),
    ensures
        forall|y: A| #[trigger] s.insert(p, x).contains(y) <==> (s.contains(y) || y == x),
{
    s.insert_ensures(p, x);
    assert forall|y: A| #[trigger] s.insert(p, x).contains(y) <==> (s.contains(y) || y == x) by {
        if s.contains(y) {
            let idx = choose|idx: int| 0 <= idx < s.len() && s[idx] == y;
            if idx < p {
                assert(s.insert(p, x)[idx] == y);
            } else {
                assert(s.insert(p, x)[idx + 1] == y);
            }
        }
        if y == x {
            assert(s.insert(p, x)[p] == y);
        }
        if s.insert(p, x).contains(y) {
            let idx = choose|idx: int| 0 <= idx < s.insert(p, x).len() && s.insert(p, x)[idx]
                == y;
            if idx < p {
                assert(s[idx] == y);
            } else if idx > p {
                assert(s[idx - 1] == y);
            }
        }
    }
}

/// Pushing a fresh element keeps a sequence duplicate-free.
pub proof fn lemma_push_no_dup<A>(s: Seq<A>, x: A)
    requires
        s.no_duplicates(),
        !s.contains(x),
    ensures
        s.push(x).no_duplicates(),
{
    let t = s.push(x);
    assert forall|i: int, j: int| 0 <= i < t.len() && 0 <= j < t.len() && i != j implies t[i]
        != t[j] by {
        if i < s.len() && j < s.len() {
            assert(t[i] == s[i]);
            assert(t[j] == s[j]);
        } else if i < s.len() {
            assert(s.contains(s[i]));
        } else {
            assert(s.contains(s[j]));
        }
    }
}

/// Inserting a fresh element keeps a sequence duplicate-free.
pub proof fn lemma_insert_no_dup<A>(s: Seq<A>, p: int, x: A)
    requires
        0 <= p <= s.len(),
        s.no_duplicates(),
        !s.contains(x),
    ensures
        s.insert(p, x).no_duplicates(),
{
    s.insert_ensures(p, x);
    let t = s.insert(p, x);
    assert forall|i: int, j: int| 0 <= i < t.len() && 0 <= j < t.len() && i != j implies t[i]
        != t[j] by {
        if i != p && j != p {
            let si: int = if i < p { i } else { i - 1 };
            let sj: int = if j < p { j } else { j - 1 };
            assert(t[i] == s[si]);
            assert(t[j] == s[sj]);
        } else if i == p {
            let sj: int = if j < p { j } else { j - 1 };
            assert(t[j] == s[sj]);
            assert(s.contains(s[sj]));
        } else {
            let si: int = if i < p { i } else { i - 1 };
            assert(t[i] == s[si]);
            assert(s.contains(s[si]));
        }
    }
}

} // verus!
