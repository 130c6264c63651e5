use vstd::prelude::*;

use crate::causal::{
    complete, ids_injective, is_path_of, lemma_ids_injective_insert, lemma_path_last,
    lemma_path_monotone, lemma_path_unique, lemma_sorted_same_placed, paths_determine,
    placed_sorted,
};
use crate::hex::{hex_digit_str, hex_of};
use crate::op::{Dot, Op};
use crate::order::{
    lemma_path_lt_asymmetric, lemma_path_lt_connected, lemma_path_lt_push,
    lemma_path_lt_transitive, path_less, path_lt,
};
use crate::seqs::{lemma_insert_contains, lemma_remove_contains};
use vstd::string::StringExecFns;

verus! {

/// One applied element, stored together with its root path so that the
/// linearization is maintained by plain sorted insertion.
struct Entry {
    op: Op,
    path: Vec<Dot>,
}

/// The conflict-free replicated byte sequence: the applied elements held in
/// linearization order, plus a buffer of operations whose causal predecessor
/// has not arrived yet.
pub struct Genome {
    elems: Vec<Entry>,
    pending: Vec<Op>,
}

impl Genome {
    /// The applied elements in linearization order, each with its root path.
    pub closed spec fn placed(self) -> Seq<(Seq<Dot>, Op)> {
        Seq::new(self.elems@.len(), |i: int| (self.elems@[i].path@, self.elems@[i].op))
    }

    /// The applied operations, in linearization order.
    pub closed spec fn applied(self) -> Seq<Op> {
        Seq::new(self.elems@.len(), |i: int| self.elems@[i].op)
    }

    /// The buffered (causally incomplete) operations, in arrival order.
    pub closed spec fn buffered(self) -> Seq<Op> {
        self.pending@
    }

    /// The byte values of the sequence, in linearization order.
    pub open spec fn values(self) -> Seq<u8> {
        Seq::new(self.applied().len(), |i: int| self.applied()[i].value)
    }

    /// Every operation this replica has received: applied and buffered.
    pub open spec fn all_ops(self) -> Seq<Op> {
        self.applied() + self.buffered()
    }

    /// The set of operations received, regardless of arrival order and
    /// duplication. A well-formed replica's whole visible state is a
    /// function of this set alone.
    pub open spec fn op_set(self) -> Set<Op> {
        self.all_ops().to_set()
    }

    /// The set of applied operations.
    pub open spec fn applied_set(self) -> Set<Op> {
        self.applied().to_set()
    }

    /// Some applied element carries identifier `d`.
    pub open spec fn applied_has_id(self, d: Dot) -> bool {
        exists|i: int| 0 <= i < self.applied().len() && (#[trigger] self.applied()[i]).id == d
    }

    /// Some received operation (applied or buffered) carries identifier `d`.
    pub open spec fn has_op_id(self, d: Dot) -> bool {
        exists|i: int| 0 <= i < self.all_ops().len() && (#[trigger] self.all_ops()[i]).id == d
    }

    spec fn inv_core(self) -> bool {
        &&& ids_injective(self.op_set())
        &&& (forall|k1: int, k2: int| #![trigger self.buffered()[k1], self.buffered()[k2]]
                0 <= k1 < k2 < self.buffered().len()
                ==> self.buffered()[k1].id != self.buffered()[k2].id)
        &&& (forall|k: int| 0 <= k < self.buffered().len()
                ==> !self.applied_has_id((#[trigger] self.buffered()[k]).id))
        &&& (forall|i: int| 0 <= i < self.placed().len()
                ==> is_path_of(self.applied_set(), (#[trigger] self.placed()[i]).1, self.placed()[i].0))
        &&& placed_sorted(self.placed())
    }

    spec fn inv_pending_shape(self) -> bool {
        forall|k: int| 0 <= k < self.buffered().len()
            ==> (#[trigger] self.buffered()[k]).predecessor is Some
    }

    spec fn inv_quiet(self) -> bool {
        forall|k: int| 0 <= k < self.buffered().len()
            ==> !self.applied_has_id((#[trigger] self.buffered()[k]).predecessor->0)
    }

    /// Well-formed replica state: identifiers are unique, every applied
    /// element sits on its causal path, the linearization is strictly sorted
    /// by path, and no buffered operation is ready to apply.
    pub closed spec fn wf(self) -> bool {
        self.inv_core() && self.inv_pending_shape() && self.inv_quiet()
    }

    /// Create an empty sequence.
    pub fn new() -> (g: Genome)
        ensures
            g.wf(),
            g.applied() == Seq::<Op>::empty(),
            g.buffered() == Seq::<Op>::empty(),
            g.values() == Seq::<u8>::empty(),
            g.op_set() == Set::<Op>::empty(),
    {
        let g = Genome { elems: Vec::new(), pending: Vec::new() };
        proof {
            assert(g.applied() =~= Seq::<Op>::empty());
            assert(g.buffered() =~= Seq::<Op>::empty());
            assert(g.values() =~= Seq::<u8>::empty());
            assert(g.all_ops() =~= Seq::<Op>::empty());
            assert(g.op_set() =~= Set::<Op>::empty());
            assert(g.placed() =~= Seq::<(Seq<Dot>, Op)>::empty());
        }
        g
    }

    fn find_applied(&self, d: Dot) -> (r: Option<usize>)
        ensures
            match r {
                Some(i) => i < self.applied().len() && self.applied()[i as int].id == d,
                None => !self.applied_has_id(d),
            },
    {
        let mut i: usize = 0;
        while i < self.elems.len()
            invariant
                i <= self.elems.len(),
                forall|j: int| 0 <= j < i ==> (#[trigger] self.elems@[j]).op.id != d,
            decreases self.elems.len() - i,
        {
            if self.elems[i].op.id == d {
                return Some(i);
            }
            i = i + 1;
        }
        proof {
            assert forall|j: int| 0 <= j < self.applied().len()
                implies (#[trigger] self.applied()[j]).id != d by {
                assert(self.applied()[j] == self.elems@[j].op);
            }
        }
        None
    }

    /// Insert an element whose causal predecessor is already applied (or
    /// absent), at its place in the linearization order.
    fn insert_elem(&mut self, op: Op, path: Vec<Dot>) -> (k: usize)
        requires
            old(self).inv_core(),
            old(self).inv_pending_shape(),
            is_path_of(old(self).applied_set(), op, path@),
            forall|o: Op| old(self).op_set().contains(o) ==> o.id != op.id,
        ensures
            final(self).inv_core(),
            final(self).inv_pending_shape(),
            final(self).buffered() == old(self).buffered(),
            k <= old(self).placed().len(),
            final(self).placed() == old(self).placed().insert(k as int, (path@, op)),
            final(self).applied() == old(self).applied().insert(k as int, op),
            forall|i: int| 0 <= i < k ==> path_lt((#[trigger] old(self).placed()[i]).0, path@),
            forall|i: int| k <= i < old(self).placed().len()
                ==> path_lt(path@, (#[trigger] old(self).placed()[i]).0),
            forall|d: Dot| #[trigger] final(self).applied_has_id(d)
                <==> old(self).applied_has_id(d) || d == op.id,
            final(self).op_set() == old(self).op_set().insert(op),
            final(self).applied_set() == old(self).applied_set().insert(op),
    {
        let ghost gpath = path@;
        proof {
            lemma_path_last(self.applied_set(), op, gpath);
            assert forall|i: int| 0 <= i < self.placed().len()
                implies (#[trigger] self.placed()[i]).0 != gpath by {
                let pr = self.placed()[i];
                lemma_path_last(self.applied_set(), pr.1, pr.0);
                assert(self.all_ops()[i] == pr.1);
                assert(self.all_ops().contains(pr.1));
                assert(self.op_set().contains(pr.1));
                if pr.0 == gpath {
                    assert(pr.1.id == op.id);
                }
            }
        }
        let mut k: usize = 0;
        while k < self.elems.len() && path_less(&self.elems[k].path, &path)
            invariant
                k <= self.elems.len(),
                path@ == gpath,
                forall|i: int| 0 <= i < k ==> path_lt((#[trigger] self.placed()[i]).0, gpath),
            decreases self.elems.len() - k,
        {
            proof {
                assert(self.placed()[k as int].0 == self.elems@[k as int].path@);
            }
            k = k + 1;
        }
        proof {
            if k < self.elems.len() {
                assert(self.placed()[k as int].0 == self.elems@[k as int].path@);
                lemma_path_lt_connected(self.placed()[k as int].0, gpath);
                assert(path_lt(gpath, self.placed()[k as int].0));
            }
            assert forall|i: int| k <= i < self.placed().len()
                implies path_lt(gpath, (#[trigger] self.placed()[i]).0) by {
                if i > k {
                    assert(path_lt(self.placed()[k as int].0, self.placed()[i].0));
                    lemma_path_lt_transitive(gpath, self.placed()[k as int].0, self.placed()[i].0);
                }
            }
        }
        let ghost pre = *self;
        let e = Entry { op, path };
        let ghost ge = e;
        self.elems.insert(k, e);
        proof {
            broadcast use vstd::seq_lib::lemma_seq_concat_contains_all_elements;

            assert(self.elems@ == pre.elems@.insert(k as int, ge));
            pre.elems@.insert_ensures(k as int, ge);
            assert(ge.op == op && ge.path@ == gpath);

            assert(self.placed() =~= pre.placed().insert(k as int, (gpath, op))) by {
                pre.placed().insert_ensures(k as int, (gpath, op));
                assert forall|j: int| 0 <= j < self.placed().len()
                    implies self.placed()[j] == pre.placed().insert(k as int, (gpath, op))[j] by {
                    if j < k {
                        assert(self.elems@[j] == pre.elems@[j]);
                    } else if j == k {
                        assert(self.elems@[j] == ge);
                    } else {
                        assert(self.elems@[j] == pre.elems@[j - 1]);
                    }
                }
            }
            assert(self.applied() =~= pre.applied().insert(k as int, op)) by {
                pre.applied().insert_ensures(k as int, op);
                assert forall|j: int| 0 <= j < self.applied().len()
                    implies self.applied()[j] == pre.applied().insert(k as int, op)[j] by {
                    if j < k {
                        assert(self.elems@[j] == pre.elems@[j]);
                    } else if j == k {
                        assert(self.elems@[j] == ge);
                    } else {
                        assert(self.elems@[j] == pre.elems@[j - 1]);
                    }
                }
            }
            assert(self.buffered() == pre.buffered());

            // which identifiers are applied now
            assert forall|d: Dot| #[trigger] self.applied_has_id(d)
                implies (pre.applied_has_id(d) || d == op.id) by {
                let i = choose|i: int|
                    0 <= i < self.applied().len() && (#[trigger] self.applied()[i]).id == d;
                if i < k {
                    assert(pre.applied()[i].id == d);
                } else if i > k {
                    assert(pre.applied()[i - 1].id == d);
                }
            }
            assert forall|d: Dot| (pre.applied_has_id(d) || d == op.id)
                implies #[trigger] self.applied_has_id(d) by {
                if pre.applied_has_id(d) {
                    let i = choose|i: int|
                        0 <= i < pre.applied().len() && (#[trigger] pre.applied()[i]).id == d;
                    if i < k {
                        assert(self.applied()[i].id == d);
                    } else {
                        assert(self.applied()[i + 1].id == d);
                    }
                } else {
                    assert(self.applied()[k as int].id == d);
                }
            }

            // the applied set and the received set each grow by exactly `op`
            assert forall|o: Op| #[trigger] self.applied_set().contains(o)
                implies pre.applied_set().insert(op).contains(o) by {
                lemma_insert_contains(pre.applied(), k as int, op, o);
            }
            assert forall|o: Op| pre.applied_set().insert(op).contains(o)
                implies #[trigger] self.applied_set().contains(o) by {
                lemma_insert_contains(pre.applied(), k as int, op, o);
            }
            assert(self.applied_set() =~= pre.applied_set().insert(op));

            assert forall|o: Op| #[trigger] self.op_set().contains(o)
                implies pre.op_set().insert(op).contains(o) by {
                assert(self.all_ops().contains(o));
                assert(self.applied().contains(o) || self.buffered().contains(o));
                lemma_insert_contains(pre.applied(), k as int, op, o);
                if o != op {
                    assert(pre.applied().contains(o) || pre.buffered().contains(o));
                    assert(pre.all_ops().contains(o));
                }
            }
            assert forall|o: Op| pre.op_set().insert(op).contains(o)
                implies #[trigger] self.op_set().contains(o) by {
                lemma_insert_contains(pre.applied(), k as int, op, o);
                if o == op {
                    assert(self.applied().contains(o));
                } else {
                    assert(pre.all_ops().contains(o));
                    assert(pre.applied().contains(o) || pre.buffered().contains(o));
                }
                assert(self.all_ops().contains(o));
            }
            assert(self.op_set() =~= pre.op_set().insert(op));

            // identifiers stay unique
            lemma_ids_injective_insert(pre.op_set(), op);

            // buffered identifiers are still pairwise distinct and unapplied
            assert forall|kk: int| 0 <= kk < self.buffered().len()
                implies !self.applied_has_id((#[trigger] self.buffered()[kk]).id) by {
                let p = self.buffered()[kk];
                assert(pre.buffered()[kk] == p);
                assert(pre.all_ops()[pre.applied().len() + kk] == p);
                assert(pre.all_ops().contains(p));
                assert(pre.op_set().contains(p));
                assert(p.id != op.id);
                assert(!pre.applied_has_id(p.id));
            }

            // every placed element still sits on its causal path
            assert(pre.applied_set().subset_of(self.applied_set()));
            assert forall|i: int| 0 <= i < self.placed().len()
                implies is_path_of(
                    self.applied_set(),
                    (#[trigger] self.placed()[i]).1,
                    self.placed()[i].0,
                ) by {
                if i < k {
                    assert(self.placed()[i] == pre.placed()[i]);
                    lemma_path_monotone(
                        pre.applied_set(),
                        self.applied_set(),
                        pre.placed()[i].1,
                        pre.placed()[i].0,
                    );
                } else if i == k {
                    lemma_path_monotone(pre.applied_set(), self.applied_set(), op, gpath);
                } else {
                    assert(self.placed()[i] == pre.placed()[i - 1]);
                    lemma_path_monotone(
                        pre.applied_set(),
                        self.applied_set(),
                        pre.placed()[i - 1].1,
                        pre.placed()[i - 1].0,
                    );
                }
            }

            // the linearization stays strictly sorted
            assert forall|i: int, j: int| 0 <= i < j < self.placed().len()
                implies path_lt(
                    (#[trigger] self.placed()[i]).0,
                    (#[trigger] self.placed()[j]).0,
                ) by {
                if j < k {
                    assert(self.placed()[i] == pre.placed()[i]);
                    assert(self.placed()[j] == pre.placed()[j]);
                } else if j == k {
                    assert(self.placed()[i] == pre.placed()[i]);
                    assert(path_lt(pre.placed()[i].0, gpath));
                } else if i < k {
                    assert(self.placed()[i] == pre.placed()[i]);
                    assert(self.placed()[j] == pre.placed()[j - 1]);
                    if i < j - 1 {
                        assert(path_lt(pre.placed()[i].0, pre.placed()[j - 1].0));
                    }
                } else if i == k {
                    assert(self.placed()[j] == pre.placed()[j - 1]);
                    assert(path_lt(gpath, pre.placed()[j - 1].0));
                } else {
                    assert(self.placed()[i] == pre.placed()[i - 1]);
                    assert(self.placed()[j] == pre.placed()[j - 1]);
                    assert(path_lt(pre.placed()[i - 1].0, pre.placed()[j - 1].0));
                }
            }
        }
        k
    }

    /// Look for a buffered operation whose predecessor is now applied,
    /// returning its buffer index and the predecessor's index.
    fn find_ready(&self) -> (r: Option<(usize, usize)>)
        requires
            self.inv_pending_shape(),
        ensures
            match r {
                Some(pair) => {
                    &&& pair.0 < self.buffered().len()
                    &&& pair.1 < self.applied().len()
                    &&& self.buffered()[pair.0 as int].predecessor
                        == Some(self.applied()[pair.1 as int].id)
                },
                None => self.inv_quiet(),
            },
    {
        let mut k: usize = 0;
        while k < self.pending.len()
            invariant
                k <= self.pending.len(),
                self.inv_pending_shape(),
                forall|j: int| 0 <= j < k
                    ==> !self.applied_has_id((#[trigger] self.buffered()[j]).predecessor->0),
            decreases self.pending.len() - k,
        {
            let pred = self.pending[k].predecessor;
            match pred {
                Some(d) => {
                    match self.find_applied(d) {
                        Some(i) => {
                            return Some((k, i));
                        },
                        None => {},
                    }
                },
                None => {
                    proof {
                        assert(self.buffered()[k as int].predecessor is Some);
                        assert(false);
                    }
                },
            }
            k = k + 1;
        }
        None
    }

    /// Copy a stored path so it can be extended for a child element.
    fn copy_path(src: &Vec<Dot>) -> (r: Vec<Dot>)
        ensures
            r@ == src@,
    {
        let mut r: Vec<Dot> = Vec::new();
        let mut j: usize = 0;
        while j < src.len()
            invariant
                j <= src.len(),
                r@ =~= src@.take(j as int),
            decreases src.len() - j,
        {
            r.push(src[j]);
            proof {
                assert(r@ =~= src@.take(j as int + 1));
            }
            j = j + 1;
        }
        proof {
            assert(r@ =~= src@);
        }
        r
    }

    /// Repeatedly move buffered operations whose predecessor has become
    /// applied into the linearization, until none is ready. Re-checking after
    /// every insertion realizes the recursive drain of the buffer.
    fn settle(&mut self)
        requires
            old(self).inv_core(),
            old(self).inv_pending_shape(),
        ensures
            final(self).wf(),
            final(self).op_set() == old(self).op_set(),
            old(self).inv_quiet() ==> final(self).placed() == old(self).placed()
                && final(self).applied() == old(self).applied()
                && final(self).buffered() == old(self).buffered(),
    {
        let ghost orig = *self;
        loop
            invariant
                self.inv_core(),
                self.inv_pending_shape(),
                self.op_set() == orig.op_set(),
                orig.inv_core(),
                orig.inv_pending_shape(),
                orig.inv_quiet() ==> self.placed() == orig.placed()
                    && self.applied() == orig.applied() && self.buffered() == orig.buffered(),
            ensures
                self.wf(),
                self.op_set() == orig.op_set(),
                orig.inv_quiet() ==> self.placed() == orig.placed()
                    && self.applied() == orig.applied() && self.buffered() == orig.buffered(),
            decreases self.pending.len(),
        {
            match self.find_ready() {
                None => {
                    break;
                },
                Some((k, i)) => {
                    let ghost prev = *self;
                    proof {
                        broadcast use vstd::seq_lib::lemma_seq_concat_contains_all_elements;

                        // a ready buffered operation contradicts quiescence
                        if orig.inv_quiet() {
                            assert(prev.applied_has_id(
                                prev.buffered()[k as int].predecessor->0,
                            ));
                            assert(!orig.applied_has_id(
                                orig.buffered()[k as int].predecessor->0,
                            ));
                            assert(false);
                        }
                    }
                    let op = self.pending.remove(k);
                    proof {
                        broadcast use vstd::seq_lib::lemma_seq_concat_contains_all_elements;

                        assert(op == prev.buffered()[k as int]);
                        assert(self.pending@ == prev.buffered().remove(k as int));
                        prev.buffered().remove_ensures(k as int);
                        assert(self.placed() == prev.placed());
                        assert(self.applied() == prev.applied());

                        // `op` is in the received set of `prev`
                        assert(prev.all_ops()[prev.applied().len() + k] == op);
                        assert(prev.all_ops().contains(op));
                        assert(prev.op_set().contains(op));

                        // the intermediate received set is exactly `prev`'s less `op`
                        assert forall|o: Op| #[trigger] self.op_set().contains(o)
                            implies prev.op_set().contains(o) && o != op by {
                            assert(self.all_ops().contains(o));
                            assert(self.applied().contains(o) || self.buffered().contains(o));
                            if self.applied().contains(o) {
                                assert(prev.all_ops().contains(o));
                                if o == op {
                                    let ai = choose|ai: int|
                                        0 <= ai < prev.applied().len()
                                            && prev.applied()[ai] == o;
                                    assert(prev.applied_has_id(op.id));
                                    assert(!prev.applied_has_id(prev.buffered()[k as int].id));
                                }
                            } else {
                                lemma_remove_contains(prev.buffered(), k as int, o);
                                let j = choose|j: int|
                                    0 <= j < prev.buffered().len() && j != k
                                        && prev.buffered()[j] == o;
                                assert(prev.all_ops()[prev.applied().len() + j] == o);
                                assert(prev.all_ops().contains(o));
                                if o == op {
                                    assert(prev.buffered()[j].id == prev.buffered()[k as int].id);
                                }
                            }
                        }
                        assert forall|o: Op| prev.op_set().contains(o) && o != op
                            implies #[trigger] self.op_set().contains(o) by {
                            assert(prev.all_ops().contains(o));
                            assert(prev.applied().contains(o) || prev.buffered().contains(o));
                            if prev.applied().contains(o) {
                                assert(self.all_ops().contains(o));
                            } else {
                                let j = choose|j: int|
                                    0 <= j < prev.buffered().len() && prev.buffered()[j] == o;
                                assert(j != k);
                                lemma_remove_contains(prev.buffered(), k as int, o);
                                assert(self.buffered().contains(o));
                                assert(self.all_ops().contains(o));
                            }
                        }

                        // identifiers stay unique in the intermediate state
                        assert forall|a: Op, b: Op|
                            (self.op_set().contains(a) && self.op_set().contains(b)
                                && a.id == b.id) implies a == b by {
                            assert(prev.op_set().contains(a));
                            assert(prev.op_set().contains(b));
                        }

                        // buffered invariants survive the removal
                        assert forall|k1: int, k2: int|
                            0 <= k1 < k2 < self.buffered().len()
                            implies (#[trigger] self.buffered()[k1]).id
                                != (#[trigger] self.buffered()[k2]).id by {
                            if k1 < k {
                                if k2 < k {
                                    assert(prev.buffered()[k1].id != prev.buffered()[k2].id);
                                } else {
                                    assert(self.buffered()[k2] == prev.buffered()[k2 + 1]);
                                }
                            } else {
                                assert(self.buffered()[k1] == prev.buffered()[k1 + 1]);
                                assert(self.buffered()[k2] == prev.buffered()[k2 + 1]);
                            }
                        }
                        assert forall|kk: int| 0 <= kk < self.buffered().len()
                            implies !self.applied_has_id(
                                (#[trigger] self.buffered()[kk]).id,
                            ) by {
                            if kk < k {
                                assert(self.buffered()[kk] == prev.buffered()[kk]);
                            } else {
                                assert(self.buffered()[kk] == prev.buffered()[kk + 1]);
                            }
                        }
                        assert forall|kk: int| 0 <= kk < self.buffered().len()
                            implies (#[trigger] self.buffered()[kk]).predecessor is Some by {
                            if kk < k {
                                assert(self.buffered()[kk] == prev.buffered()[kk]);
                            } else {
                                assert(self.buffered()[kk] == prev.buffered()[kk + 1]);
                            }
                        }

                        // freshness of `op` towards the intermediate state
                        assert forall|o: Op| self.op_set().contains(o)
                            implies o.id != op.id by {
                            assert(prev.op_set().contains(o) && o != op);
                        }
                    }
                    let parent_path = Self::copy_path(&self.elems[i].path);
                    let mut path = parent_path;
                    path.push(op.id);
                    proof {
                        let ghost parent = prev.placed()[i as int];
                        assert(path@ =~= parent.0.push(op.id));
                        lemma_path_last(prev.applied_set(), parent.1, parent.0);
                        assert(is_path_of(self.applied_set(), op, path@)) by {
                            assert(op.predecessor == Some(parent.1.id));
                            assert(path@.last() == op.id);
                            assert(path@.len() >= 2);
                            assert(path@.drop_last() =~= parent.0);
                            assert(self.applied()[i as int] == parent.1);
                            assert(self.applied().contains(parent.1));
                            assert(self.applied_set().contains(parent.1));
                            assert(is_path_of(self.applied_set(), parent.1, parent.0));
                        }
                    }
                    let ghost mid = *self;
                    self.insert_elem(op, path);
                    proof {
                        assert(self.op_set() == mid.op_set().insert(op));
                        assert(self.op_set() =~= prev.op_set()) by {
                            assert forall|o: Op| #[trigger] self.op_set().contains(o)
                                implies prev.op_set().contains(o) by {
                                if o != op {
                                    assert(mid.op_set().contains(o));
                                }
                            }
                            assert forall|o: Op| #[trigger] prev.op_set().contains(o)
                                implies self.op_set().contains(o) by {
                                if o != op {
                                    assert(mid.op_set().contains(o));
                                }
                            }
                        }
                    }
                },
            }
        }
    }

    /// Apply one operation, locally generated or received from a peer.
    /// A duplicate is discarded silently; a causally incomplete operation is
    /// buffered, never dropped; a newly inserted element releases any
    /// buffered operations that were waiting on it. The visible state after
    /// the call depends only on the set of operations received, never on
    /// arrival order or duplication.
    pub fn apply(&mut self, op: Op)
        requires
            old(self).wf(),
        ensures
            final(self).wf(),
            old(self).has_op_id(op.id) ==> final(self).placed() == old(self).placed()
                && final(self).applied() == old(self).applied()
                && final(self).buffered() == old(self).buffered(),
            !old(self).has_op_id(op.id) ==> final(self).op_set() == old(self).op_set().insert(op),
            (!old(self).has_op_id(op.id) && (op.predecessor is None || old(self).applied_has_id(
                op.predecessor->0,
            ))) ==> final(self).applied_set().contains(op),
            (!old(self).has_op_id(op.id) && op.predecessor is Some
                && !old(self).applied_has_id(op.predecessor->0))
                ==> final(self).placed() == old(self).placed()
                && final(self).applied() == old(self).applied()
                && final(self).buffered() == old(self).buffered().push(op),
    {
        proof {
            broadcast use vstd::seq_lib::lemma_seq_concat_contains_all_elements;
            broadcast use vstd::seq_lib::lemma_seq_contains_after_push;

        }
        match self.find_applied(op.id) {
            Some(i) => {
                proof {
                    assert(self.all_ops()[i as int] == self.applied()[i as int]);
                    assert(old(self).has_op_id(op.id));
                }
                return ;
            },
            None => {},
        }
        if self.buffered_has_id(op.id) {
            proof {
                let k = choose|k: int|
                    0 <= k < self.buffered().len() && (#[trigger] self.buffered()[k]).id == op.id;
                assert(self.all_ops()[self.applied().len() + k] == self.buffered()[k]);
                assert(old(self).has_op_id(op.id));
            }
            return ;
        }
        proof {
            assert(!old(self).has_op_id(op.id));
            assert forall|o: Op| self.op_set().contains(o) implies o.id != op.id by {
                assert(self.all_ops().contains(o));
                let i = choose|i: int| 0 <= i < self.all_ops().len() && self.all_ops()[i] == o;
                assert(self.all_ops()[i].id == o.id);
            }
        }
        match op.predecessor {
            None => {
                let mut path: Vec<Dot> = Vec::new();
                path.push(op.id);
                proof {
                    assert(path@ =~= seq![op.id]);
                    assert(is_path_of(self.applied_set(), op, path@));
                }
                let ghost pre = *self;
                let ghost gpath = path@;
                self.insert_elem(op, path);
                self.settle();
                proof {
                    assert(self.op_set() == pre.op_set().insert(op));
                    assert forall|o: Op| #[trigger] pre.applied_set().contains(o)
                        implies self.op_set().contains(o) by {
                        assert(pre.applied().contains(o));
                        assert(pre.all_ops().contains(o));
                        assert(pre.op_set().contains(o));
                    }
                    lemma_path_monotone(pre.applied_set(), self.op_set(), op, gpath);
                    assert(complete(self.op_set(), op));
                    self.lemma_applied_iff_complete(op);
                }
            },
            Some(d) => {
                match self.find_applied(d) {
                    Some(i) => {
                        let mut path = Self::copy_path(&self.elems[i].path);
                        path.push(op.id);
                        proof {
                            let ghost parent = self.placed()[i as int];
                            lemma_path_last(self.applied_set(), parent.1, parent.0);
                            assert(is_path_of(self.applied_set(), op, path@)) by {
                                assert(path@.last() == op.id);
                                assert(path@.len() >= 2);
                                assert(path@.drop_last() =~= parent.0);
                                assert(self.applied().contains(parent.1));
                                assert(self.applied_set().contains(parent.1));
                                assert(is_path_of(self.applied_set(), parent.1, parent.0));
                            }
                        }
                        let ghost pre = *self;
                        let ghost gpath = path@;
                        self.insert_elem(op, path);
                        self.settle();
                        proof {
                            assert(self.op_set() == pre.op_set().insert(op));
                            assert forall|o: Op| #[trigger] pre.applied_set().contains(o)
                                implies self.op_set().contains(o) by {
                                broadcast use vstd::seq_lib::lemma_seq_concat_contains_all_elements;

                                assert(pre.applied().contains(o));
                                assert(pre.all_ops().contains(o));
                                assert(pre.op_set().contains(o));
                            }
                            lemma_path_monotone(pre.applied_set(), self.op_set(), op, gpath);
                            assert(complete(self.op_set(), op));
                            self.lemma_applied_iff_complete(op);
                        }
                    },
                    None => {
                        let ghost pre = *self;
                        self.pending.push(op);
                        proof {
                            assert(self.buffered() == pre.buffered().push(op));
                            assert(self.placed() == pre.placed());
                            assert(self.applied() == pre.applied());

                            assert forall|o: Op| #[trigger] self.op_set().contains(o)
                                implies pre.op_set().insert(op).contains(o) by {
                                assert(self.all_ops().contains(o));
                                assert(self.applied().contains(o)
                                    || self.buffered().contains(o));
                                if o != op {
                                    assert(pre.applied().contains(o)
                                        || pre.buffered().contains(o));
                                    assert(pre.all_ops().contains(o));
                                }
                            }
                            assert forall|o: Op| pre.op_set().insert(op).contains(o)
                                implies #[trigger] self.op_set().contains(o) by {
                                if o == op {
                                    assert(self.buffered().contains(o));
                                } else {
                                    assert(pre.all_ops().contains(o));
                                    assert(pre.applied().contains(o)
                                        || pre.buffered().contains(o));
                                }
                                assert(self.all_ops().contains(o));
                            }
                            assert(self.op_set() =~= pre.op_set().insert(op));
                            lemma_ids_injective_insert(pre.op_set(), op);

                            assert forall|k1: int, k2: int|
                                0 <= k1 < k2 < self.buffered().len()
                                implies (#[trigger] self.buffered()[k1]).id
                                    != (#[trigger] self.buffered()[k2]).id by {
                                if k2 < pre.buffered().len() {
                                    assert(pre.buffered()[k1].id != pre.buffered()[k2].id);
                                } else {
                                    assert(self.buffered()[k2] == op);
                                    assert(pre.all_ops()[pre.applied().len() + k1]
                                        == pre.buffered()[k1]);
                                    assert(pre.all_ops().contains(pre.buffered()[k1]));
                                    assert(pre.op_set().contains(pre.buffered()[k1]));
                                }
                            }
                            assert forall|kk: int| 0 <= kk < self.buffered().len()
                                implies !self.applied_has_id(
                                    (#[trigger] self.buffered()[kk]).id,
                                ) by {
                                if kk < pre.buffered().len() {
                                    assert(self.buffered()[kk] == pre.buffered()[kk]);
                                } else {
                                    assert(self.buffered()[kk] == op);
                                }
                            }
                            assert forall|kk: int| 0 <= kk < self.buffered().len()
                                implies (#[trigger] self.buffered()[kk]).predecessor
                                    is Some by {
                                if kk < pre.buffered().len() {
                                    assert(self.buffered()[kk] == pre.buffered()[kk]);
                                }
                            }
                            assert forall|kk: int| 0 <= kk < self.buffered().len()
                                implies !self.applied_has_id(
                                    (#[trigger] self.buffered()[kk]).predecessor->0,
                                ) by {
                                if kk < pre.buffered().len() {
                                    assert(self.buffered()[kk] == pre.buffered()[kk]);
                                }
                            }
                        }
                    },
                }
            },
        }
    }

    /// Every operation from `actor` that this replica has received carries a
    /// counter strictly below `c`.
    pub open spec fn counters_below(self, actor: usize, c: u64) -> bool {
        forall|i: int|
            0 <= i < self.all_ops().len() && (#[trigger] self.all_ops()[i]).id.actor == actor
                ==> self.all_ops()[i].id.counter < c
    }

    /// The replica can still allocate a fresh counter for `actor`.
    pub open spec fn can_append(self, actor: usize) -> bool {
        self.counters_below(actor, u64::MAX)
    }

    /// Allocate the next local counter for `actor`: one more than the
    /// largest counter received from it so far.
    fn next_counter(&self, actor: usize) -> (c: u64)
        requires
            self.can_append(actor),
        ensures
            self.counters_below(actor, c),
            c >= 1,
    {
        let mut m: u64 = 0;
        let mut i: usize = 0;
        while i < self.elems.len()
            invariant
                i <= self.elems.len(),
                m < u64::MAX,
                self.can_append(actor),
                forall|j: int|
                    0 <= j < i && (#[trigger] self.elems@[j]).op.id.actor == actor
                        ==> self.elems@[j].op.id.counter <= m,
            decreases self.elems.len() - i,
        {
            let d = self.elems[i].op.id;
            if d.actor == actor && d.counter > m {
                proof {
                    assert(self.all_ops()[i as int] == self.applied()[i as int]);
                }
                m = d.counter;
            }
            i = i + 1;
        }
        let mut k: usize = 0;
        while k < self.pending.len()
            invariant
                k <= self.pending.len(),
                m < u64::MAX,
                self.can_append(actor),
                forall|j: int|
                    0 <= j < self.elems@.len() && (#[trigger] self.elems@[j]).op.id.actor == actor
                        ==> self.elems@[j].op.id.counter <= m,
                forall|j: int|
                    0 <= j < k && (#[trigger] self.pending@[j]).id.actor == actor
                        ==> self.pending@[j].id.counter <= m,
            decreases self.pending.len() - k,
        {
            let d = self.pending[k].id;
            if d.actor == actor && d.counter > m {
                proof {
                    assert(self.all_ops()[self.applied().len() + k] == self.buffered()[k as int]);
                }
                m = d.counter;
            }
            k = k + 1;
        }
        proof {
            assert forall|i2: int|
                0 <= i2 < self.all_ops().len()
                    && (#[trigger] self.all_ops()[i2]).id.actor == actor
                implies self.all_ops()[i2].id.counter < m + 1 by {
                if i2 < self.applied().len() {
                    assert(self.all_ops()[i2] == self.elems@[i2].op);
                } else {
                    assert(self.all_ops()[i2] == self.pending@[i2 - self.applied().len()]);
                }
            }
        }
        m + 1
    }

    /// Generate a local append of `item` by `actor` and apply it: allocate
    /// the next counter, chain the new element after the current local tail,
    /// and return the operation for broadcast to the other actors. The
    /// generating replica always holds its own element before it is sent.
    pub fn append(&mut self, item: u8, actor: usize) -> (r: Op)
        requires
            old(self).wf(),
            old(self).can_append(actor),
        ensures
            final(self).wf(),
            r.id.actor == actor,
            r.value == item,
            !old(self).has_op_id(r.id),
            r.predecessor == (if old(self).applied().len() == 0 {
                None::<Dot>
            } else {
                Some(old(self).applied().last().id)
            }),
            final(self).op_set() == old(self).op_set().insert(r),
            final(self).applied_set().contains(r),
            (forall|j: int|
                0 <= j < old(self).buffered().len()
                    ==> (#[trigger] old(self).buffered()[j]).predecessor != Some(r.id))
                ==> final(self).applied() == old(self).applied().push(r)
                    && final(self).buffered() == old(self).buffered()
                    && final(self).values() == old(self).values().push(item),
    {
        let c = self.next_counter(actor);
        let id = Dot { actor, counter: c };
        proof {
            assert forall|o: Op| self.op_set().contains(o) implies o.id != id by {
                assert(self.all_ops().contains(o));
                let i = choose|i: int| 0 <= i < self.all_ops().len() && self.all_ops()[i] == o;
                assert(self.all_ops()[i].id == o.id);
            }
            assert(!self.has_op_id(id)) by {
                if self.has_op_id(id) {
                    let i = choose|i: int|
                        0 <= i < self.all_ops().len() && (#[trigger] self.all_ops()[i]).id == id;
                }
            }
        }
        let pred_opt: Option<Dot> = if self.elems.len() == 0 {
            None
        } else {
            Some(self.elems[self.elems.len() - 1].op.id)
        };
        let op = Op { id, value: item, predecessor: pred_opt };
        let mut path: Vec<Dot> = if self.elems.len() == 0 {
            Vec::new()
        } else {
            Self::copy_path(&self.elems[self.elems.len() - 1].path)
        };
        path.push(id);
        proof {
            if self.elems@.len() == 0 {
                assert(path@ =~= seq![id]);
                assert(is_path_of(self.applied_set(), op, path@));
            } else {
                let last = self.placed().len() - 1;
                let ghost parent = self.placed()[last];
                lemma_path_last(self.applied_set(), parent.1, parent.0);
                assert(is_path_of(self.applied_set(), op, path@)) by {
                    assert(op.predecessor == Some(parent.1.id));
                    assert(path@.last() == id);
                    assert(path@.len() >= 2);
                    assert(path@.drop_last() =~= parent.0);
                    assert(self.applied()[last] == parent.1);
                    assert(self.applied().contains(parent.1));
                    assert(self.applied_set().contains(parent.1));
                    assert(is_path_of(self.applied_set(), parent.1, parent.0));
                }
            }
        }
        let ghost pre = *self;
        let ghost gpath = path@;
        let k = self.insert_elem(op, path);
        proof {
            // the new element sorts after every existing one, so it lands at
            // the end of the linearization
            assert forall|i: int| 0 <= i < pre.placed().len()
                implies path_lt((#[trigger] pre.placed()[i]).0, gpath) by {
                let last = pre.placed().len() - 1;
                lemma_path_lt_push(pre.placed()[last].0, id);
                if i < last {
                    assert(path_lt(pre.placed()[i].0, pre.placed()[last].0));
                    lemma_path_lt_transitive(pre.placed()[i].0, pre.placed()[last].0, gpath);
                }
            }
            assert(k == pre.placed().len()) by {
                if (k as int) < pre.placed().len() {
                    assert(path_lt(gpath, pre.placed()[k as int].0));
                    assert(path_lt(pre.placed()[k as int].0, gpath));
                    lemma_path_lt_asymmetric(gpath, pre.placed()[k as int].0);
                }
            }
            assert(self.applied() =~= pre.applied().push(op)) by {
                pre.applied().insert_ensures(k as int, op);
            }
            assert(self.placed() =~= pre.placed().push((gpath, op))) by {
                pre.placed().insert_ensures(k as int, (gpath, op));
            }
        }
        let ghost mid = *self;
        self.settle();
        proof {
            assert(self.op_set() == pre.op_set().insert(op));
            assert forall|o: Op| #[trigger] pre.applied_set().contains(o)
                implies self.op_set().contains(o) by {
                broadcast use vstd::seq_lib::lemma_seq_concat_contains_all_elements;

                assert(pre.applied().contains(o));
                assert(pre.all_ops().contains(o));
                assert(pre.op_set().contains(o));
            }
            lemma_path_monotone(pre.applied_set(), self.op_set(), op, gpath);
            assert(complete(self.op_set(), op));
            self.lemma_applied_iff_complete(op);
            if forall|j: int|
                0 <= j < pre.buffered().len()
                    ==> (#[trigger] pre.buffered()[j]).predecessor != Some(id) {
                assert(mid.inv_quiet()) by {
                    assert forall|kk: int| 0 <= kk < mid.buffered().len()
                        implies !mid.applied_has_id(
                            (#[trigger] mid.buffered()[kk]).predecessor->0,
                        ) by {
                        assert(mid.buffered()[kk] == pre.buffered()[kk]);
                        assert(pre.buffered()[kk].predecessor is Some);
                        assert(pre.buffered()[kk].predecessor != Some(id));
                        assert(mid.buffered()[kk].predecessor->0 != id);
                        assert(!pre.applied_has_id(pre.buffered()[kk].predecessor->0));
                    }
                }
                assert(self.applied() == pre.applied().push(op));
                assert(self.buffered() == pre.buffered());
                assert(self.values() =~= pre.values().push(item));
            }
        }
        op
    }

    proof fn lemma_complete_applied_rec(self, e: Op, p: Seq<Dot>)
        requires
            self.wf(),
            self.op_set().contains(e),
            is_path_of(self.op_set(), e, p),
        ensures
            self.applied_set().contains(e),
        decreases p.len(),
    {
        broadcast use vstd::seq_lib::lemma_seq_concat_contains_all_elements;

        if !self.applied().contains(e) {
            assert(self.all_ops().contains(e));
            assert(self.buffered().contains(e));
            let k = choose|k: int| 0 <= k < self.buffered().len() && self.buffered()[k] == e;
            match e.predecessor {
                None => {
                    assert(self.buffered()[k].predecessor is Some);
                    assert(false);
                },
                Some(d) => {
                    let f = choose|f: Op|
                        #[trigger] self.op_set().contains(f) && f.id == d
                            && is_path_of(self.op_set(), f, p.drop_last());
                    self.lemma_complete_applied_rec(f, p.drop_last());
                    assert(self.applied().contains(f));
                    let i = choose|i: int|
                        0 <= i < self.applied().len() && self.applied()[i] == f;
                    assert((#[trigger] self.applied()[i]).id == d);
                    assert(self.applied_has_id(d));
                    assert(!self.applied_has_id(
                        (#[trigger] self.buffered()[k]).predecessor->0,
                    ));
                    assert(false);
                },
            }
        }
    }

    /// Causal buffering, stated as a law: an operation a well-formed replica
    /// has received is applied exactly when its whole causal chain has been
    /// received. A buffered operation is never dropped, and it enters the
    /// linearization as soon as the chain closes; one whose chain is open
    /// stays out of the linearization.
    pub proof fn lemma_applied_iff_complete(self, e: Op)
        requires
            self.wf(),
        ensures
            self.applied_set().contains(e) <==> (self.op_set().contains(e) && complete(
                self.op_set(),
                e,
            )),
    {
        broadcast use vstd::seq_lib::lemma_seq_concat_contains_all_elements;

        if self.applied_set().contains(e) {
            let i = choose|i: int| 0 <= i < self.applied().len() && self.applied()[i] == e;
            assert(self.placed()[i].1 == e);
            assert(is_path_of(self.applied_set(), (#[trigger] self.placed()[i]).1,
                self.placed()[i].0));
            assert forall|o: Op| #[trigger] self.applied_set().contains(o)
                implies self.op_set().contains(o) by {
                assert(self.applied().contains(o));
                assert(self.all_ops().contains(o));
            }
            lemma_path_monotone(self.applied_set(), self.op_set(), e, self.placed()[i].0);
            assert(self.all_ops().contains(e));
            assert(complete(self.op_set(), e));
        }
        if self.op_set().contains(e) && complete(self.op_set(), e) {
            let p = choose|p: Seq<Dot>| is_path_of(self.op_set(), e, p);
            self.lemma_complete_applied_rec(e, p);
        }
    }

    /// Convergence, stated as a law: two well-formed replicas that have
    /// received the same set of operations — in whatever order, with
    /// whatever duplication — hold identical linearizations, and therefore
    /// identical values. Together with the contract of `apply`, which says
    /// the received set grows by exactly the applied operation, this is
    /// order-independence of any sequence of applications.
    pub proof fn lemma_convergence(g1: Genome, g2: Genome)
        requires
            g1.wf(),
            g2.wf(),
            g1.op_set() == g2.op_set(),
        ensures
            g1.placed() == g2.placed(),
            g1.applied() == g2.applied(),
            g1.values() == g2.values(),
    {
        broadcast use vstd::seq_lib::lemma_seq_concat_contains_all_elements;

        // the applied sets agree
        assert forall|e: Op| #[trigger] g1.applied_set().contains(e)
            implies g2.applied_set().contains(e) by {
            g1.lemma_applied_iff_complete(e);
            g2.lemma_applied_iff_complete(e);
        }
        assert forall|e: Op| #[trigger] g2.applied_set().contains(e)
            implies g1.applied_set().contains(e) by {
            g1.lemma_applied_iff_complete(e);
            g2.lemma_applied_iff_complete(e);
        }
        assert(g1.applied_set() =~= g2.applied_set());

        // identifiers are unique within the applied set
        assert forall|a: Op, b: Op|
            (g1.applied_set().contains(a) && g1.applied_set().contains(b) && a.id == b.id)
            implies a == b by {
            assert(g1.applied().contains(a));
            assert(g1.applied().contains(b));
            assert(g1.all_ops().contains(a));
            assert(g1.all_ops().contains(b));
            assert(g1.op_set().contains(a));
            assert(g1.op_set().contains(b));
        }
        assert(ids_injective(g1.applied_set()));

        // each element is placed on the same path in both replicas
        assert forall|pr: (Seq<Dot>, Op)| #[trigger] g1.placed().to_set().contains(pr)
            implies g2.placed().to_set().contains(pr) by {
            let i = choose|i: int| 0 <= i < g1.placed().len() && g1.placed()[i] == pr;
            assert(g1.applied()[i] == pr.1);
            assert(g1.applied().contains(pr.1));
            assert(g2.applied_set().contains(pr.1));
            assert(g2.applied().contains(pr.1));
            let j = choose|j: int| 0 <= j < g2.applied().len() && g2.applied()[j] == pr.1;
            assert(g2.placed()[j].1 == pr.1);
            assert(is_path_of(g1.applied_set(), (#[trigger] g1.placed()[i]).1,
                g1.placed()[i].0));
            assert(is_path_of(g2.applied_set(), (#[trigger] g2.placed()[j]).1,
                g2.placed()[j].0));
            lemma_path_unique(g1.applied_set(), pr.1, g1.placed()[i].0, g2.placed()[j].0);
            assert(g2.placed()[j] == pr);
            assert(g2.placed().contains(pr));
        }
        assert forall|pr: (Seq<Dot>, Op)| #[trigger] g2.placed().to_set().contains(pr)
            implies g1.placed().to_set().contains(pr) by {
            let i = choose|i: int| 0 <= i < g2.placed().len() && g2.placed()[i] == pr;
            assert(g2.applied()[i] == pr.1);
            assert(g2.applied().contains(pr.1));
            assert(g1.applied_set().contains(pr.1));
            assert(g1.applied().contains(pr.1));
            let j = choose|j: int| 0 <= j < g1.applied().len() && g1.applied()[j] == pr.1;
            assert(g1.placed()[j].1 == pr.1);
            assert(is_path_of(g2.applied_set(), (#[trigger] g2.placed()[i]).1,
                g2.placed()[i].0));
            assert(is_path_of(g1.applied_set(), (#[trigger] g1.placed()[j]).1,
                g1.placed()[j].0));
            lemma_path_unique(g1.applied_set(), pr.1, g2.placed()[i].0, g1.placed()[j].0);
            assert(g1.placed()[j] == pr);
            assert(g1.placed().contains(pr));
        }
        assert(g1.placed().to_set() =~= g2.placed().to_set());

        // within the shared placed set, the path determines the element
        assert forall|a: (Seq<Dot>, Op), b: (Seq<Dot>, Op)|
            (g1.placed().to_set().contains(a) && g1.placed().to_set().contains(b) && a.0 == b.0)
            implies a == b by {
            let i = choose|i: int| 0 <= i < g1.placed().len() && g1.placed()[i] == a;
            let j = choose|j: int| 0 <= j < g1.placed().len() && g1.placed()[j] == b;
            assert(is_path_of(g1.applied_set(), (#[trigger] g1.placed()[i]).1,
                g1.placed()[i].0));
            assert(is_path_of(g1.applied_set(), (#[trigger] g1.placed()[j]).1,
                g1.placed()[j].0));
            lemma_path_last(g1.applied_set(), a.1, a.0);
            lemma_path_last(g1.applied_set(), b.1, b.0);
            assert(a.1.id == b.1.id);
            assert(g1.applied()[i] == a.1);
            assert(g1.applied().contains(a.1));
            assert(g1.applied()[j] == b.1);
            assert(g1.applied().contains(b.1));
            assert(g1.applied_set().contains(a.1));
            assert(g1.applied_set().contains(b.1));
        }
        assert(paths_determine(g1.placed().to_set()));

        lemma_sorted_same_placed(g1.placed(), g2.placed());
        assert(g1.applied().len() == g2.applied().len());
        assert forall|i: int| 0 <= i < g1.applied().len()
            implies g1.applied()[i] == g2.applied()[i] by {
            assert(g1.applied()[i] == g1.placed()[i].1);
            assert(g2.applied()[i] == g2.placed()[i].1);
        }
        assert(g1.applied() =~= g2.applied());
        assert(g1.values() =~= g2.values());
    }

    /// The operations form one causally valid batch towards this replica:
    /// pairwise distinct identifiers, none of them seen here before.
    pub open spec fn fresh_ops(self, ops: Seq<Op>) -> bool {
        &&& (forall|k1: int, k2: int| #![trigger ops[k1], ops[k2]]
                0 <= k1 < k2 < ops.len() ==> ops[k1].id != ops[k2].id)
        &&& (forall|k: int| 0 <= k < ops.len() ==> !self.has_op_id((#[trigger] ops[k]).id))
    }

    /// Apply a whole batch of operations, in the order given. The received
    /// set never shrinks and takes in nothing but the batch; for a causally
    /// valid batch it becomes exactly the union, whichever order the batch
    /// came in — so by `lemma_convergence` two fresh replicas fed the same
    /// operations in two different orders end up with identical
    /// serializations.
    pub fn apply_all(&mut self, ops: &Vec<Op>)
        requires
            old(self).wf(),
        ensures
            final(self).wf(),
            old(self).op_set().subset_of(final(self).op_set()),
            final(self).op_set().subset_of(old(self).op_set().union(ops@.to_set())),
            old(self).fresh_ops(ops@) ==> final(self).op_set() == old(self).op_set().union(
                ops@.to_set(),
            ),
    {
        let ghost orig = *self;
        let mut i: usize = 0;
        while i < ops.len()
            invariant
                i <= ops.len(),
                self.wf(),
                orig.wf(),
                orig.op_set().subset_of(self.op_set()),
                self.op_set().subset_of(orig.op_set().union(ops@.to_set())),
                orig.fresh_ops(ops@) ==> self.op_set() == orig.op_set().union(
                    ops@.take(i as int).to_set(),
                ),
            decreases ops.len() - i,
        {
            let ghost before = *self;
            let op = ops[i];
            self.apply(op);
            proof {
                broadcast use Seq::lemma_to_set_insert_commutes;

                assert(ops@.take(i as int + 1) =~= ops@.take(i as int) + seq![op]);
                assert(ops@.contains(op));
                assert(ops@.to_set().contains(op));
                if before.has_op_id(op.id) {
                    assert(self.op_set() == before.op_set());
                } else {
                    assert(self.op_set() == before.op_set().insert(op));
                }
                assert(orig.op_set().subset_of(self.op_set()));
                assert(self.op_set().subset_of(orig.op_set().union(ops@.to_set())));
                if orig.fresh_ops(ops@) {
                    assert(!before.has_op_id(op.id)) by {
                        if before.has_op_id(op.id) {
                            let j = choose|j: int|
                                0 <= j < before.all_ops().len()
                                    && (#[trigger] before.all_ops()[j]).id == op.id;
                            let o = before.all_ops()[j];
                            assert(before.op_set().contains(o));
                            if orig.op_set().contains(o) {
                                let jj = choose|jj: int|
                                    0 <= jj < orig.all_ops().len() && orig.all_ops()[jj] == o;
                                assert((#[trigger] orig.all_ops()[jj]).id == op.id);
                                assert(orig.has_op_id(ops@[i as int].id));
                            } else {
                                assert(ops@.take(i as int).to_set().contains(o));
                                let k = choose|k: int|
                                    0 <= k < ops@.take(i as int).len() && ops@.take(i as int)[k]
                                        == o;
                                assert(ops@[k] == o);
                                assert(ops@[k].id != ops@[i as int].id);
                            }
                        }
                    }
                    assert(self.op_set() =~= orig.op_set().union(ops@.take(i as int + 1).to_set()));
                }
            }
            i = i + 1;
        }
        proof {
            assert(ops@.take(ops@.len() as int) =~= ops@);
        }
    }

    /// Idempotence, stated as a law: once an operation is in the received
    /// set, its identifier is present, and the contract of `apply` then
    /// leaves the replica untouched when the same operation arrives again —
    /// re-delivery and duplication change nothing.
    pub proof fn lemma_received_has_id(self, op: Op)
        requires
            self.op_set().contains(op),
        ensures
            self.has_op_id(op.id),
    {
        let i = choose|i: int| 0 <= i < self.all_ops().len() && self.all_ops()[i] == op;
        assert((#[trigger] self.all_ops()[i]).id == op.id);
    }

    /// Serialize the linearization to its wire form: each byte as two
    /// lowercase hexadecimal digits, concatenated with no separators; the
    /// empty sequence yields the empty string. This exact format is the
    /// cross-replica equality contract.
    pub fn serialize(&self) -> (r: String)
        ensures
            r@ == hex_of(self.values()),
    {
        let mut out = String::new();
        proof {
            assert(self.values().take(0) =~= Seq::<u8>::empty());
        }
        let mut i: usize = 0;
        while i < self.elems.len()
            invariant
                i <= self.elems.len(),
                out@ == hex_of(self.values().take(i as int)),
            decreases self.elems.len() - i,
        {
            let b = self.elems[i].op.value;
            proof {
                assert(self.values()[i as int] == b);
            }
            out.append(hex_digit_str(b / 16));
            out.append(hex_digit_str(b % 16));
            proof {
                let tk1 = self.values().take(i as int + 1);
                assert(tk1.drop_last() =~= self.values().take(i as int));
                assert(tk1.last() == b);
                assert(out@ =~= hex_of(tk1));
            }
            i = i + 1;
        }
        proof {
            assert(self.values().take(self.values().len() as int) =~= self.values());
        }
        out
    }

    /// The byte values of the sequence, in linearization order.
    pub fn read_values(&self) -> (r: Vec<u8>)
        ensures
            r@ == self.values(),
    {
        let mut r: Vec<u8> = Vec::new();
        let mut i: usize = 0;
        while i < self.elems.len()
            invariant
                i <= self.elems.len(),
                r@ =~= self.values().take(i as int),
            decreases self.elems.len() - i,
        {
            r.push(self.elems[i].op.value);
            proof {
                assert(self.values()[i as int] == self.elems@[i as int].op.value);
                assert(r@ =~= self.values().take(i as int + 1));
            }
            i = i + 1;
        }
        proof {
            assert(r@ =~= self.values());
        }
        r
    }

    /// True when no element has been applied yet.
    pub fn is_empty(&self) -> (r: bool)
        ensures
            r == (self.values().len() == 0),
    {
        self.elems.len() == 0
    }

    /// True exactly when both replicas materialize the same byte sequence.
    pub fn is_equal(&self, rhs: &Genome) -> (r: bool)
        ensures
            r == (self.values() == rhs.values()),
    {
        if self.elems.len() != rhs.elems.len() {
            proof {
                assert(self.values().len() != rhs.values().len());
            }
            return false;
        }
        let mut i: usize = 0;
        while i < self.elems.len()
            invariant
                i <= self.elems.len(),
                self.elems.len() == rhs.elems.len(),
                forall|j: int| 0 <= j < i ==> self.values()[j] == rhs.values()[j],
            decreases self.elems.len() - i,
        {
            if self.elems[i].op.value != rhs.elems[i].op.value {
                proof {
                    assert(self.values()[i as int] != rhs.values()[i as int]);
                }
                return false;
            }
            proof {
                assert(self.values()[i as int] == rhs.values()[i as int]);
            }
            i = i + 1;
        }
        proof {
            assert(self.values() =~= rhs.values());
        }
        true
    }

    /// True when a counter can still be allocated for `actor`.
    pub fn append_available(&self, actor: usize) -> (r: bool)
        ensures
            r == self.can_append(actor),
    {
        let mut i: usize = 0;
        while i < self.elems.len()
            invariant
                i <= self.elems.len(),
                forall|j: int|
                    0 <= j < i && (#[trigger] self.elems@[j]).op.id.actor == actor
                        ==> self.elems@[j].op.id.counter < u64::MAX,
            decreases self.elems.len() - i,
        {
            let d = self.elems[i].op.id;
            if d.actor == actor && d.counter == u64::MAX {
                proof {
                    assert((#[trigger] self.all_ops()[i as int]) == self.elems@[i as int].op);
                    assert(!self.can_append(actor));
                }
                return false;
            }
            i = i + 1;
        }
        let mut k: usize = 0;
        while k < self.pending.len()
            invariant
                k <= self.pending.len(),
                forall|j: int|
                    0 <= j < self.elems@.len() && (#[trigger] self.elems@[j]).op.id.actor == actor
                        ==> self.elems@[j].op.id.counter < u64::MAX,
                forall|j: int|
                    0 <= j < k && (#[trigger] self.pending@[j]).id.actor == actor
                        ==> self.pending@[j].id.counter < u64::MAX,
            decreases self.pending.len() - k,
        {
            let d = self.pending[k].id;
            if d.actor == actor && d.counter == u64::MAX {
                proof {
                    assert((#[trigger] self.all_ops()[self.applied().len() + k])
                        == self.buffered()[k as int]);
                    assert(!self.can_append(actor));
                }
                return false;
            }
            k = k + 1;
        }
        proof {
            assert forall|i2: int|
                0 <= i2 < self.all_ops().len()
                    && (#[trigger] self.all_ops()[i2]).id.actor == actor
                implies self.all_ops()[i2].id.counter < u64::MAX by {
                if i2 < self.applied().len() {
                    assert(self.all_ops()[i2] == self.elems@[i2].op);
                } else {
                    assert(self.all_ops()[i2] == self.pending@[i2 - self.applied().len()]);
                }
            }
        }
        true
    }

    fn buffered_has_id(&self, d: Dot) -> (r: bool)
        ensures
            r == exists|k: int| 0 <= k < self.buffered().len()
                && (#[trigger] self.buffered()[k]).id == d,
    {
        let mut k: usize = 0;
        while k < self.pending.len()
            invariant
                k <= self.pending.len(),
                forall|j: int| 0 <= j < k ==> (#[trigger] self.pending@[j]).id != d,
            decreases self.pending.len() - k,
        {
            if self.pending[k].id == d {
                return true;
            }
            k = k + 1;
        }
        false
    }
}

impl Default for Genome {
    /// An empty sequence: the state every replica starts from.
    fn default() -> (g: Genome)
        ensures
            g.wf(),
            g.applied() == Seq::<Op>::empty(),
            g.buffered() == Seq::<Op>::empty(),
            g.values() == Seq::<u8>::empty(),
            g.op_set() == Set::<Op>::empty(),
    {
        Genome::new()
    }
}

} // verus!
