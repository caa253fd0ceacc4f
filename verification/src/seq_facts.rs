//! Small facts about sequences without duplicates that the recency tracker
//! and the cache proofs share.

use vstd::prelude::*;

verus! {

/// Removing the element at index `i` from a duplicate-free sequence keeps it
/// duplicate-free, drops the element at `i`, and keeps every other element.
pub proof fn lemma_remove_keeps_no_duplicates<A>(s: Seq<A>, i: int)
    requires
        s.no_duplicates(),
        0 <= i < s.len(),
    ensures
        s.remove(i).no_duplicates(),
        !s.remove(i).contains(s[i]),
        forall|x: A| #[trigger] s.remove(i).contains(x) <==> (s.contains(x) && x != s[i]),
{
    s.remove_ensures(i);
    assert forall|x: A| #[trigger] s.remove(i).contains(x) implies s.contains(x) && x != s[i] by {
        let j = choose|j: int| 0 <= j < s.remove(i).len() && s.remove(i)[j] == x;
        if j < i {
            assert(s[j] == x);
        } else {
            assert(s[j + 1] == x);
        }
    }
    assert forall|x: A| s.contains(x) && x != s[i] implies #[trigger] s.remove(i).contains(x) by {
        let j = choose|j: int| 0 <= j < s.len() && s[j] == x;
        if j < i {
            assert(s.remove(i)[j] == x);
        } else {
            assert(s.remove(i)[j - 1] == x);
        }
    }
}

/// Putting a fresh element in front of a duplicate-free sequence keeps it
/// duplicate-free, and the result holds exactly the old elements and the new
/// one.
pub proof fn lemma_cons_no_duplicates<A>(x: A, s: Seq<A>)
    requires
        s.no_duplicates(),
        !s.contains(x),
    ensures
        (seq![x] + s).no_duplicates(),
        forall|y: A| #[trigger] (seq![x] + s).contains(y) <==> (y == x || s.contains(y)),
{
    let t = seq![x] + s;
    assert forall|a: int, b: int|
        0 <= a < t.len() && 0 <= b < t.len() && a != b implies t[a] != t[b] by {
        if a == 0 {
            assert(t[b] == s[b - 1]);
            assert(s.contains(s[b - 1]));
        } else if b == 0 {
            assert(t[a] == s[a - 1]);
            assert(s.contains(s[a - 1]));
        } else {
            assert(t[a] == s[a - 1]);
            assert(t[b] == s[b - 1]);
        }
    }
    assert forall|y: A| #[trigger] t.contains(y) implies (y == x || s.contains(y)) by {
        let j = choose|j: int| 0 <= j < t.len() && t[j] == y;
        if j > 0 {
            assert(s[j - 1] == y);
        }
    }
    assert forall|y: A| (y == x || s.contains(y)) implies #[trigger] t.contains(y) by {
        if y == x {
            assert(t[0] == y);
        } else {
            let j = choose|j: int| 0 <= j < s.len() && s[j] == y;
            assert(t[j + 1] == y);
        }
    }
}

/// Dropping the last element is the same as removing at the last index.
pub proof fn lemma_drop_last_is_remove<A>(s: Seq<A>)
    requires
        s.len() > 0,
    ensures
        s.drop_last() == s.remove(s.len() - 1),
{
    assert(s.drop_last() =~= s.remove(s.len() - 1));
}

/// In a duplicate-free sequence the first occurrence of `s[i]` is `i` itself,
/// so removing the value removes exactly the element at `i`.
pub proof fn lemma_remove_value_at<A>(s: Seq<A>, i: int)
    requires
        s.no_duplicates(),
        0 <= i < s.len(),
    ensures
        s.remove_value(s[i]) == s.remove(i),
{
    s.index_of_first_ensures(s[i]);
    assert(s.contains(s[i]));
    match s.index_of_first(s[i]) {
        Some(j) => {
            assert(s[j] == s[i]);
            assert(j == i);
        },
        None => {
            assert(false);
        },
    }
}

} // verus!
