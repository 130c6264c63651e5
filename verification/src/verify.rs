use vstd::prelude::*;

verus! {

/// How many of the fetched peer serializations equal the local one.
pub open spec fn count_matching(local: Seq<char>, remotes: Seq<String>) -> int
    decreases remotes.len(),
{
    if remotes.len() == 0 {
        0
    } else {
        count_matching(local, remotes.drop_last()) + if remotes.last()@ == local {
            1int
        } else {
            0int
        }
    }
}

/// The convergence signal of one verifier iteration: compare each peer's
/// serialization byte for byte against the local one and count the exact
/// matches. A failed fetch is handed in as whatever placeholder the
/// transport produced and simply fails the comparison.
pub fn count_matches(local: &String, remotes: &Vec<String>) -> (n: usize)
    ensures
        n == count_matching(local@, remotes@),
{
    let mut n: usize = 0;
    let mut i: usize = 0;
    while i < remotes.len()
        invariant
            i <= remotes.len(),
            n <= i,
            n == count_matching(local@, remotes@.take(i as int)),
        decreases remotes.len() - i,
    {
        proof {
            let tk1 = remotes@.take(i as int + 1);
            assert(tk1.drop_last() =~= remotes@.take(i as int));
            assert(tk1.last() == remotes@[i as int]);
        }
        if remotes[i].eq(local) {
            n = n + 1;
        }
        i = i + 1;
    }
    proof {
        assert(remotes@.take(remotes@.len() as int) =~= remotes@);
    }
    n
}

} // verus!
