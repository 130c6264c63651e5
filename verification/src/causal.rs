use vstd::prelude::*;

use crate::op::{Dot, Op};
use crate::order::{
    lemma_path_lt_asymmetric, lemma_path_lt_connected, lemma_path_lt_irreflexive, path_lt,
};

verus! {

/// `p` is the chain of identifiers leading from a root element (one with no
/// predecessor) through successive predecessors found in `s` down to `e`
/// itself. Such a chain exists exactly when `e` is causally complete in `s`.
pub open spec fn is_path_of(s: Set<Op>, e: Op, p: Seq<Dot>) -> bool
    decreases p.len(),
{
    match e.predecessor {
        None => p == seq![e.id],
        Some(d) => p.len() >= 2 && p.last() == e.id && (exists|f: Op|
            #[trigger] s.contains(f) && f.id == d && is_path_of(s, f, p.drop_last())),
    }
}

/// The element's causal chain is fully present in `s`.
pub open spec fn complete(s: Set<Op>, e: Op) -> bool {
    exists|p: Seq<Dot>| is_path_of(s, e, p)
}

/// No two distinct operations in `s` share an identifier.
pub open spec fn ids_injective(s: Set<Op>) -> bool {
    forall|a: Op, b: Op| #![trigger s.contains(a), s.contains(b)]
        (s.contains(a) && s.contains(b) && a.id == b.id) ==> a == b
}

/// A path always ends in the identifier of the element it belongs to.
pub proof fn lemma_path_last(s: Set<Op>, e: Op, p: Seq<Dot>)
    requires
        is_path_of(s, e, p),
    ensures
        p.len() >= 1,
        p.last() == e.id,
{
    match e.predecessor {
        None => {
            assert(p.last() == seq![e.id][0]);
        },
        Some(d) => {},
    }
}

/// A causal chain found in `s` is also found in any superset of `s`.
pub proof fn lemma_path_monotone(s: Set<Op>, t: Set<Op>, e: Op, p: Seq<Dot>)
    requires
        is_path_of(s, e, p),
        s.subset_of(t),
    ensures
        is_path_of(t, e, p),
    decreases p.len(),
{
    match e.predecessor {
        None => {},
        Some(d) => {
            let f = choose|f: Op|
                #[trigger] s.contains(f) && f.id == d && is_path_of(s, f, p.drop_last());
            lemma_path_monotone(s, t, f, p.drop_last());
            assert(t.contains(f) && f.id == d && is_path_of(t, f, p.drop_last()));
        },
    }
}

/// When identifiers are unique, each element has at most one causal chain:
/// the path is a function of the element set alone.
pub proof fn lemma_path_unique(s: Set<Op>, e: Op, p1: Seq<Dot>, p2: Seq<Dot>)
    requires
        ids_injective(s),
        is_path_of(s, e, p1),
        is_path_of(s, e, p2),
    ensures
        p1 == p2,
    decreases p1.len(),
{
    match e.predecessor {
        None => {},
        Some(d) => {
            let f1 = choose|f: Op|
                #[trigger] s.contains(f) && f.id == d && is_path_of(s, f, p1.drop_last());
            let f2 = choose|f: Op|
                #[trigger] s.contains(f) && f.id == d && is_path_of(s, f, p2.drop_last());
            assert(f1 == f2);
            lemma_path_unique(s, f1, p1.drop_last(), p2.drop_last());
            assert(p1 =~= p1.drop_last().push(e.id));
            assert(p2 =~= p2.drop_last().push(e.id));
        },
    }
}

/// Inserting an operation with a fresh identifier keeps identifiers unique.
pub proof fn lemma_ids_injective_insert(s: Set<Op>, op: Op)
    requires
        ids_injective(s),
        forall|o: Op| s.contains(o) ==> o.id != op.id,
    ensures
        ids_injective(s.insert(op)),
{
    assert forall|a: Op, b: Op|
        (s.insert(op).contains(a) && s.insert(op).contains(b) && a.id == b.id)
        implies a == b by {
        if a == op && b == op {
        } else if a == op {
            assert(s.contains(b));
        } else if b == op {
            assert(s.contains(a));
        } else {
            assert(s.contains(a));
            assert(s.contains(b));
        }
    }
}

/// A linearization — each element placed with its root path — is strictly
/// sorted by the path order.
pub open spec fn placed_sorted(es: Seq<(Seq<Dot>, Op)>) -> bool {
    forall|i: int, j: int| #![trigger es[i], es[j]]
        0 <= i < j < es.len() ==> path_lt(es[i].0, es[j].0)
}

/// Within `s`, the path determines the whole placed element.
pub open spec fn paths_determine(s: Set<(Seq<Dot>, Op)>) -> bool {
    forall|a: (Seq<Dot>, Op), b: (Seq<Dot>, Op)| #![trigger s.contains(a), s.contains(b)]
        (s.contains(a) && s.contains(b) && a.0 == b.0) ==> a == b
}

/// Two linearizations that are strictly sorted by path and hold the same
/// placed elements are identical. This is the heart of convergence: the
/// element set alone fixes the order.
pub proof fn lemma_sorted_same_placed(x: Seq<(Seq<Dot>, Op)>, y: Seq<(Seq<Dot>, Op)>)
    requires
        placed_sorted(x),
        placed_sorted(y),
        x.to_set() == y.to_set(),
        paths_determine(x.to_set()),
    ensures
        x == y,
    decreases x.len(),
{
    if x.len() == 0 {
        if y.len() > 0 {
            assert(y.to_set().contains(y[0]));
            assert(x.contains(y[0]));
        }
        assert(x =~= y);
    } else if y.len() == 0 {
        assert(x.to_set().contains(x[0]));
        assert(y.contains(x[0]));
        assert(x =~= y);
    } else {
        assert(x.to_set().contains(x[0]));
        assert(y.to_set().contains(y[0]));
        if x[0].0 != y[0].0 {
            lemma_path_lt_connected(x[0].0, y[0].0);
            if path_lt(x[0].0, y[0].0) {
                assert(y.contains(x[0]));
                let j = choose|j: int| 0 <= j < y.len() && y[j] == x[0];
                assert(j > 0);
                assert(path_lt(y[0].0, y[j].0));
                lemma_path_lt_asymmetric(x[0].0, y[0].0);
            } else {
                assert(x.contains(y[0]));
                let j = choose|j: int| 0 <= j < x.len() && x[j] == y[0];
                assert(j > 0);
                assert(path_lt(x[0].0, x[j].0));
                lemma_path_lt_asymmetric(y[0].0, x[0].0);
            }
            assert(false);
        }
        assert(x[0] == y[0]);

        let xt = x.drop_first();
        let yt = y.drop_first();
        assert forall|a: (Seq<Dot>, Op)| xt.to_set().contains(a)
            implies x.to_set().remove(x[0]).contains(a) by {
            let i = choose|i: int| 0 <= i < xt.len() && xt[i] == a;
            assert(x[i + 1] == a);
            assert(x.contains(a));
            assert(path_lt(x[0].0, x[i + 1].0));
            lemma_path_lt_irreflexive(x[0].0);
            assert(a != x[0]);
        }
        assert forall|a: (Seq<Dot>, Op)| x.to_set().remove(x[0]).contains(a)
            implies xt.to_set().contains(a) by {
            let i = choose|i: int| 0 <= i < x.len() && x[i] == a;
            assert(i > 0);
            assert(xt[i - 1] == a);
            assert(xt.contains(a));
        }
        assert(xt.to_set() =~= x.to_set().remove(x[0]));
        assert forall|a: (Seq<Dot>, Op)| yt.to_set().contains(a)
            implies y.to_set().remove(y[0]).contains(a) by {
            let i = choose|i: int| 0 <= i < yt.len() && yt[i] == a;
            assert(y[i + 1] == a);
            assert(y.contains(a));
            assert(path_lt(y[0].0, y[i + 1].0));
            lemma_path_lt_irreflexive(y[0].0);
            assert(a != y[0]);
        }
        assert forall|a: (Seq<Dot>, Op)| y.to_set().remove(y[0]).contains(a)
            implies yt.to_set().contains(a) by {
            let i = choose|i: int| 0 <= i < y.len() && y[i] == a;
            assert(i > 0);
            assert(yt[i - 1] == a);
            assert(yt.contains(a));
        }
        assert(yt.to_set() =~= y.to_set().remove(y[0]));
        assert(xt.to_set() == yt.to_set());

        assert forall|i: int, j: int| 0 <= i < j < xt.len() implies path_lt(xt[i].0, xt[j].0) by {
            assert(xt[i] == x[i + 1]);
            assert(xt[j] == x[j + 1]);
            assert(path_lt(x[i + 1].0, x[j + 1].0));
        }
        assert forall|i: int, j: int| 0 <= i < j < yt.len() implies path_lt(yt[i].0, yt[j].0) by {
            assert(yt[i] == y[i + 1]);
            assert(yt[j] == y[j + 1]);
            assert(path_lt(y[i + 1].0, y[j + 1].0));
        }
        assert forall|a: (Seq<Dot>, Op), b: (Seq<Dot>, Op)|
            (xt.to_set().contains(a) && xt.to_set().contains(b) && a.0 == b.0)
            implies a == b by {
            assert(x.to_set().contains(a));
            assert(x.to_set().contains(b));
        }
        lemma_sorted_same_placed(xt, yt);
        assert forall|i: int| 0 <= i < x.len() implies x[i] == y[i] by {
            if i > 0 {
                assert(x[i] == xt[i - 1]);
                assert(y[i] == yt[i - 1]);
            }
        }
        assert(x =~= y);
    }
}

} // verus!
