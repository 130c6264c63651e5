use vstd::prelude::*;

verus! {

/// Globally unique operation identifier: each actor owns a private,
/// monotonically increasing counter, and actor ids are unique within a run,
/// so the pair identifies exactly one generated element.
#[derive(Clone, Copy, PartialEq, Eq, Structural, Debug)]
pub struct Dot {
    pub actor: usize,
    pub counter: u64,
}

/// The unit of gossip: one element of the replicated sequence. It carries
/// the identifier of the element it was appended after, as observed by its
/// creator (`None` when the creator's sequence was empty). Operations are
/// immutable and safe to retransmit or duplicate.
#[derive(Clone, Copy)]
pub struct Op {
    pub id: Dot,
    pub value: u8,
    pub predecessor: Option<Dot>,
}

} // verus!
