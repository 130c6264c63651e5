use vstd::prelude::*;

verus! {

/// Membership in a sequence after inserting one element at position `k`.
pub proof fn lemma_insert_contains<A>(s: Seq<A>, k: int, v: A, x: A)
    requires
        0 <= k <= s.len(),
    ensures
        s.insert(k, v).contains(x) <==> (s.contains(x) || x == v),
{
    s.insert_ensures(k, v);
    if s.contains(x) {
        let i = choose|i: int| 0 <= i < s.len() && s[i] == x;
        if i < k {
            assert(s.insert(k, v)[i] == x);
        } else {
            assert(s.insert(k, v)[i + 1] == x);
        }
    }
    if x == v {
        assert(s.insert(k, v)[k] == x);
    }
    if s.insert(k, v).contains(x) && x != v {
        let i = choose|i: int| 0 <= i < s.insert(k, v).len() && s.insert(k, v)[i] == x;
        if i < k {
            assert(s[i] == x);
        } else if i > k {
            assert(s[i - 1] == x);
        }
    }
}

/// Membership in a sequence after removing the element at position `i`.
pub proof fn lemma_remove_contains<A>(s: Seq<A>, i: int, x: A)
    requires
        0 <= i < s.len(),
    ensures
        s.remove(i).contains(x) <==> exists|j: int| 0 <= j < s.len() && j != i && s[j] == x,
{
    s.remove_ensures(i);
    if s.remove(i).contains(x) {
        let jj = choose|jj: int| 0 <= jj < s.remove(i).len() && s.remove(i)[jj] == x;
        if jj < i {
            assert(s[jj] == x && jj != i);
        } else {
            assert(s[jj + 1] == x && jj + 1 != i);
        }
    }
    if exists|j: int| 0 <= j < s.len() && j != i && s[j] == x {
        let j = choose|j: int| 0 <= j < s.len() && j != i && s[j] == x;
        if j < i {
            assert(s.remove(i)[j] == x);
        } else {
            assert(s.remove(i)[j - 1] == x);
        }
    }
}

} // verus!
