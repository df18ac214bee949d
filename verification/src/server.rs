use vstd::prelude::*;
use crate::scan::FileIndex;

verus! {

/// What every request handler shares: the index of the served tree.
pub struct AppState {
    pub index: FileIndex,
}

/// How many ports after the requested one are tried when it is taken.
pub const PORT_ATTEMPTS: u16 = 100;

/// The last port tried when starting from `start` (saturating at `u16::MAX`).
pub open spec fn last_port(start: u16) -> int {
    if start as int + PORT_ATTEMPTS as int > u16::MAX as int {
        u16::MAX as int
    } else {
        start as int + PORT_ATTEMPTS as int
    }
}

/// From `start`, the ports up to `start + 100` are tried, or up to the last port,
/// `65535`, when that is lower.
pub proof fn law_ports_tried(start: u16)
    ensures
        start as int + 100 <= 65535 ==> last_port(start) == start as int + 100,
        start as int + 100 > 65535 ==> last_port(start) == 65535,
{
}

/// The ports to try binding, in order: from `start` up to `start + 100`
/// (saturating), skipping port 0.
pub fn candidate_ports(start: u16) -> (ports: Vec<u16>)
    ensures
        forall|i: int| 0 <= i < ports@.len() ==> start <= #[trigger] ports@[i] <= last_port(start)
            && ports@[i] != 0,
        forall|i: int, j: int| 0 <= i < j < ports@.len() ==> #[trigger] ports@[i] < #[trigger] ports@[j],
        forall|p: u16| start <= p <= last_port(start) && p != 0 ==> #[trigger] ports@.contains(p),
{
    let end = start.saturating_add(PORT_ATTEMPTS);
    assert(end == last_port(start));
    let mut ports: Vec<u16> = Vec::new();
    let mut port: u32 = start as u32;
    while port <= end as u32
        invariant
            start <= port <= end as u32 + 1,
            end == last_port(start),
            forall|i: int| 0 <= i < ports@.len() ==> start <= #[trigger] ports@[i] < port
                && ports@[i] != 0,
            forall|i: int, j: int| 0 <= i < j < ports@.len() ==> #[trigger] ports@[i] < #[trigger] ports@[j],
            forall|p: u16| start <= p < port && p != 0 ==> #[trigger] ports@.contains(p),
        decreases end as u32 + 1 - port,
    {
        let p = port as u16;
        if p != 0 {
            let ghost before = ports@;
            ports.push(p);
            proof {
                assert forall|q: u16| start <= q < port + 1 && q != 0 implies #[trigger] ports@.contains(q) by {
                    if q == p {
                        assert(ports@[ports@.len() - 1] == q);
                    } else {
                        assert(before.contains(q));
                        let k = choose|k: int| 0 <= k < before.len() && before[k] == q;
                        assert(ports@[k] == q);
                    }
                }
            }
        }
        port = port + 1;
    }
    ports
}

} // verus!
