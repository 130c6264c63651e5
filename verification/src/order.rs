use vstd::prelude::*;

use crate::op::Dot;

verus! {

/// Deterministic tie-break between siblings created concurrently:
/// actor id ascending, then counter ascending.
pub open spec fn dot_lt(a: Dot, b: Dot) -> bool {
    a.actor < b.actor || (a.actor == b.actor && a.counter < b.counter)
}

/// Strict lexicographic order on root paths, with a proper prefix (an
/// ancestor) ordered first. Sorting the element set by this order on paths
/// realizes the pre-order traversal of the forest rooted at `None`, which is
/// the linearization every replica must agree on.
pub open spec fn path_lt(p: Seq<Dot>, q: Seq<Dot>) -> bool
    decreases p.len(),
{
    if p.len() == 0 {
        q.len() > 0
    } else if q.len() == 0 {
        false
    } else if p[0] == q[0] {
        path_lt(p.drop_first(), q.drop_first())
    } else {
        dot_lt(p[0], q[0])
    }
}

pub proof fn lemma_path_lt_irreflexive(p: Seq<Dot>)
    ensures
        !path_lt(p, p),
    decreases p.len(),
{
    if p.len() > 0 {
        lemma_path_lt_irreflexive(p.drop_first());
    }
}

pub proof fn lemma_path_lt_asymmetric(p: Seq<Dot>, q: Seq<Dot>)
    ensures
        !(path_lt(p, q) && path_lt(q, p)),
    decreases p.len(),
{
    if p.len() > 0 && q.len() > 0 && p[0] == q[0] {
        lemma_path_lt_asymmetric(p.drop_first(), q.drop_first());
    }
}

/// Any two distinct paths are ordered one way or the other.
pub proof fn lemma_path_lt_connected(p: Seq<Dot>, q: Seq<Dot>)
    ensures
        p == q || path_lt(p, q) || path_lt(q, p),
    decreases p.len(),
{
    if p.len() == 0 {
        if q.len() == 0 {
            assert(p =~= q);
        }
    } else if q.len() == 0 {
    } else if p[0] == q[0] {
        lemma_path_lt_connected(p.drop_first(), q.drop_first());
        if p.drop_first() == q.drop_first() {
            assert(p.drop_first().len() == q.drop_first().len());
            assert(p.len() == q.len());
            assert forall|i: int| 0 <= i < p.len() implies p[i] == q[i] by {
                if i > 0 {
                    assert(p[i] == p.drop_first()[i - 1]);
                    assert(q[i] == q.drop_first()[i - 1]);
                }
            }
            assert(p =~= q);
        }
    }
}

pub proof fn lemma_path_lt_transitive(p: Seq<Dot>, q: Seq<Dot>, r: Seq<Dot>)
    requires
        path_lt(p, q),
        path_lt(q, r),
    ensures
        path_lt(p, r),
    decreases p.len(),
{
    if p.len() > 0 {
        if p[0] == q[0] && q[0] == r[0] {
            lemma_path_lt_transitive(p.drop_first(), q.drop_first(), r.drop_first());
        }
    }
}

/// A path comes strictly before every extension of itself.
pub proof fn lemma_path_lt_push(p: Seq<Dot>, d: Dot)
    ensures
        path_lt(p, p.push(d)),
    decreases p.len(),
{
    if p.len() == 0 {
    } else {
        lemma_path_lt_push(p.drop_first(), d);
        assert(p.push(d).drop_first() =~= p.drop_first().push(d));
    }
}

/// Executable form of `dot_lt`.
pub fn dot_less(a: Dot, b: Dot) -> (r: bool)
    ensures
        r == dot_lt(a, b),
{
    a.actor < b.actor || (a.actor == b.actor && a.counter < b.counter)
}

fn path_less_from(a: &Vec<Dot>, b: &Vec<Dot>, i: usize) -> (r: bool)
    requires
        i <= a.len(),
        i <= b.len(),
    ensures
        r == path_lt(a@.skip(i as int), b@.skip(i as int)),
    decreases a.len() - i,
{
    if i == a.len() {
        b.len() > i
    } else if i == b.len() {
        false
    } else if a[i] == b[i] {
        let r = path_less_from(a, b, i + 1);
        proof {
            assert(a@.skip(i as int).drop_first() =~= a@.skip(i as int + 1));
            assert(b@.skip(i as int).drop_first() =~= b@.skip(i as int + 1));
        }
        r
    } else {
        proof {
            assert(a@.skip(i as int)[0] == a@[i as int]);
            assert(b@.skip(i as int)[0] == b@[i as int]);
        }
        dot_less(a[i], b[i])
    }
}

/// Executable form of `path_lt`.
pub fn path_less(a: &Vec<Dot>, b: &Vec<Dot>) -> (r: bool)
    ensures
        r == path_lt(a@, b@),
{
    let r = path_less_from(a, b, 0);
    proof {
        assert(a@.skip(0) =~= a@);
        assert(b@.skip(0) =~= b@);
    }
    r
}

} // verus!
