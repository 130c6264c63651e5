use vstd::prelude::*;

use crate::config::Config;

verus! {

/// The ports of the peers among the first `n` actors: `base_port_number + i`
/// for each actor `i` except this one, ascending.
pub open spec fn peer_ports_upto(c: Config, n: int) -> Seq<usize>
    decreases n,
{
    if n <= 0 {
        Seq::empty()
    } else if n - 1 == c.actor_id {
        peer_ports_upto(c, n - 1)
    } else {
        peer_ports_upto(c, n - 1).push((c.base_port_number + n - 1) as usize)
    }
}

/// Every peer's port under the addressing convention: actor `i` of
/// `actor_count` listens at `base_port_number + i`; this actor's own port is
/// left out.
pub open spec fn peer_ports_spec(c: Config) -> Seq<usize> {
    peer_ports_upto(c, c.actor_count as int)
}

/// Compute the ports a loop iteration must talk to: the mutator dispatches
/// a generated operation to each of them, the verifier polls each of them.
pub fn peer_ports(c: &Config) -> (r: Vec<usize>)
    requires
        c.base_port_number + c.actor_count <= usize::MAX,
    ensures
        r@ == peer_ports_spec(*c),
{
    let mut r: Vec<usize> = Vec::new();
    let mut i: usize = 0;
    while i < c.actor_count
        invariant
            i <= c.actor_count,
            c.base_port_number + c.actor_count <= usize::MAX,
            r@ =~= peer_ports_upto(*c, i as int),
        decreases c.actor_count - i,
    {
        if i != c.actor_id {
            r.push(c.base_port_number + i);
        }
        proof {
            assert(r@ =~= peer_ports_upto(*c, i as int + 1));
        }
        i = i + 1;
    }
    proof {
        assert(r@ =~= peer_ports_spec(*c));
    }
    r
}

} // verus!
