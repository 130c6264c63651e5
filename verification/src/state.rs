use vstd::prelude::*;

use crate::genome::Genome;
use crate::hex::hex_of;
use crate::op::Op;
use vstd::rwlock::{RwLock, RwLockPredicate};

verus! {

/// The state one process owns: its replica of the shared sequence.
pub struct State {
    pub genome: Genome,
}

impl State {
    /// The replica the state holds is well formed.
    pub open spec fn wf(self) -> bool {
        self.genome.wf()
    }
}

impl Default for State {
    /// A state holding an empty, well-formed replica.
    fn default() -> (s: State)
        ensures
            s.wf(),
            s.genome.values() == Seq::<u8>::empty(),
    {
        State { genome: Genome::new() }
    }
}

/// The lock invariant of the shared replica: whatever is stored is a
/// well-formed state.
pub struct StateWf {}

impl RwLockPredicate<State> for StateWf {
    open spec fn inv(self, v: State) -> bool {
        v.wf()
    }
}

/// The process-wide owner of the replica, shared between the inbound
/// handler, the mutator task and the verifier task. Mutation takes the
/// exclusive side of a verified reader–writer lock and reads take the
/// shared side, so no reader can ever observe a partially applied element:
/// every value the lock hands out satisfies the well-formedness invariant
/// of a fully applied state.
pub struct SharedState {
    lock: RwLock<State, StateWf>,
}

impl SharedState {
    /// Create the shared state with an empty replica.
    pub fn new() -> SharedState {
        SharedState { lock: RwLock::new(State { genome: Genome::new() }, Ghost(StateWf {  })) }
    }

    /// Apply an inbound operation under exclusive access; the lock invariant
    /// is re-established before any reader can look again.
    pub fn apply_op(&self, op: Op) {
        let (mut st, handle) = self.lock.acquire_write();
        st.genome.apply(op);
        handle.release_write(st);
    }

    /// Generate a local append under exclusive access and hand back the
    /// operation for broadcast, or `None` when no counter is left for
    /// `actor`.
    pub fn generate(&self, item: u8, actor: usize) -> (r: Option<Op>)
        ensures
            r matches Some(op) ==> op.id.actor == actor && op.value == item,
    {
        let (mut st, handle) = self.lock.acquire_write();
        let r = if st.genome.append_available(actor) {
            Some(st.genome.append(item, actor))
        } else {
            None
        };
        handle.release_write(st);
        r
    }

    /// Read the serialization under shared access: the result is always the
    /// rendering of one well-formed replica state, never a torn view.
    pub fn read_serialized(&self) -> (r: String)
        ensures
            exists|g: Genome| g.wf() && r@ == hex_of(g.values()),
    {
        let handle = self.lock.acquire_read();
        let st = handle.borrow();
        let r = st.genome.serialize();
        proof {
            assert(st.genome.wf() && r@ == hex_of(st.genome.values()));
        }
        handle.release_read();
        r
    }
}

} // verus!
