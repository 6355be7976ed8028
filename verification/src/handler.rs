//! The per-connection handler's decisions.
//!
//! One handler runs per accepted connection. It repeatedly reads one
//! newline-delimited line; a line is fanned out to every registered
//! client, entries whose write failed are pruned, and a read failure ends
//! the handler, which then removes its own entry by peer identifier. The
//! reads and writes themselves happen outside; the functions here decide
//! what to send and what to remove.

use vstd::prelude::*;

use crate::codec::frame;
use crate::codec::framed;
use crate::registry::ClientEntry;
use crate::registry::ClientRegistry;
use crate::registry::ascending;
use crate::registry::idx_set;
use crate::registry::lemma_survivors_keep;
use crate::registry::survivors;

verus! {

/// What one read from the connection produced: a complete line, or the
/// end of the stream (a clean close and a read error are treated alike).
pub enum ReadEvent {
    Line(Vec<u8>),
    Closed,
}

/// What the handler does next: deliver bytes to every registered client,
/// or stop and clean its own entry up.
pub enum Action {
    Deliver(Vec<u8>),
    Stop,
}

/// One step of the handler's state machine. A line, empty or not, is
/// framed and delivered to everyone; the end of the stream is terminal.
/// There are no retries and no sender exclusion: the sender receives its
/// own line back.
pub fn next_action(ev: ReadEvent) -> (a: Action)
    ensures
        ev matches ReadEvent::Line(msg)
            ==> (a matches Action::Deliver(line) && line@ == framed(msg@)),
        ev matches ReadEvent::Closed ==> a matches Action::Stop,
{
    match ev {
        ReadEvent::Line(msg) => Action::Deliver(frame(&msg)),
        ReadEvent::Closed => Action::Stop,
    }
}

/// The positions whose write failed during one fan-out.
pub open spec fn fail_set(outcomes: Seq<bool>) -> Set<int> {
    Set::new(|j: int| 0 <= j < outcomes.len() && !outcomes[j])
}

/// Collects the positions whose write failed, in ascending order, as the
/// fan-out loop visits them.
#[verifier::loop_isolation(false)]
pub fn failed_indices(outcomes: &Vec<bool>) -> (r: Vec<usize>)
    ensures
        ascending(r@),
        forall|k: int| 0 <= k < r@.len()
            ==> r@[k] < outcomes@.len() && !outcomes@[r@[k] as int],
        idx_set(r@) == fail_set(outcomes@),
{
    let n = outcomes.len();
    let mut r: Vec<usize> = Vec::new();
    let mut i: usize = 0;
    while i < n
        invariant
            i <= n,
            ascending(r@),
            forall|k: int| 0 <= k < r@.len()
                ==> r@[k] < i && !outcomes@[r@[k] as int],
            forall|j: int| 0 <= j < i && !outcomes@[j] ==> idx_set(r@).contains(j),
        decreases n - i,
    {
        if !outcomes[i] {
            let ghost r0 = r@;
            r.push(i);
            proof {
                assert(forall|k: int| 0 <= k < r0.len() ==> r@[k] == r0[k]);
                assert(r@[r0.len() as int] == i);
                assert forall|j: int| 0 <= j < i + 1 && !outcomes@[j]
                    implies idx_set(r@).contains(j) by {
                    if j < i {
                        let k = choose|k: int| 0 <= k < r0.len() && r0[k] as int == j;
                        assert(r@[k] as int == j);
                    } else {
                        assert(r@[r0.len() as int] as int == j);
                    }
                }
            }
        }
        i += 1;
    }
    proof {
        assert forall|j: int| idx_set(r@).contains(j)
            implies fail_set(outcomes@).contains(j) by {
            let k = choose|k: int| 0 <= k < r@.len() && r@[k] as int == j;
        }
        assert(idx_set(r@) =~= fail_set(outcomes@));
    }
    r
}

/// After one fan-out, prunes every entry whose write failed; the entries
/// that were written successfully survive, in their original order. A
/// failed write to one client never disturbs delivery to the others, nor
/// the handler that sent: pruning is all that happens.
pub fn apply_write_outcomes(reg: &mut ClientRegistry, outcomes: &Vec<bool>)
    requires
        outcomes@.len() == old(reg)@.len(),
    ensures
        final(reg)@ == survivors(old(reg)@, fail_set(outcomes@)),
        final(reg)@.len() <= old(reg)@.len(),
{
    let failed = failed_indices(outcomes);
    reg.remove_indices(&failed);
}

/// A recipient whose write succeeded is untouched by the pruning: it
/// stays registered, so it keeps receiving every later broadcast.
pub proof fn lemma_successful_write_survives(s: Seq<ClientEntry>, outcomes: Seq<bool>, j: int)
    requires
        outcomes.len() == s.len(),
        0 <= j < s.len(),
        outcomes[j],
    ensures
        survivors(s, fail_set(outcomes)).contains(s[j]),
{
    lemma_survivors_keep(s, fail_set(outcomes), j);
}

} // verus!
