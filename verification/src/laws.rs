//! Registry-wide laws: what holds across whole runs of operations.
//!
//! The registry's own methods state what one call does; the proofs here
//! state what follows for any run of calls — the size bookkeeping, the
//! uniqueness of peer identifiers, and the completeness of the two
//! removal paths.

use vstd::prelude::*;

use crate::peer::PeerId;
use crate::registry::ClientEntry;
use crate::registry::contains_peer;
use crate::registry::is_first_match;
use crate::registry::lemma_first_match_exists;
use crate::registry::lemma_first_match_unique;
use crate::registry::lemma_survivors_from;
use crate::registry::spec_remove_by_peer;
use crate::registry::survivors;
use crate::registry::unique_peers;

verus! {

/// One mutation of the registry's contents, as the accept loop and the
/// handlers' exit paths perform them.
pub enum RegistryOp {
    Register(ClientEntry),
    RemoveByPeer(PeerId),
}

/// The contents after one operation.
pub open spec fn apply_op(s: Seq<ClientEntry>, op: RegistryOp) -> Seq<ClientEntry> {
    match op {
        RegistryOp::Register(e) => s.push(e),
        RegistryOp::RemoveByPeer(id) => spec_remove_by_peer(s, id),
    }
}

/// The contents after a run of operations, applied in order.
pub open spec fn apply_ops(s: Seq<ClientEntry>, ops: Seq<RegistryOp>) -> Seq<ClientEntry>
    decreases ops.len(),
{
    if ops.len() == 0 {
        s
    } else {
        apply_ops(apply_op(s, ops[0]), ops.drop_first())
    }
}

/// How many of the operations register a client.
pub open spec fn register_count(ops: Seq<RegistryOp>) -> int
    decreases ops.len(),
{
    if ops.len() == 0 {
        0int
    } else {
        (if ops[0] is Register {
            1int
        } else {
            0int
        }) + register_count(ops.drop_first())
    }
}

/// How many of the removals find their target along the run that starts
/// from `s`: a removal whose identifier is absent is a confirmed no-op,
/// not a confirmed removal.
pub open spec fn confirmed_removal_count(s: Seq<ClientEntry>, ops: Seq<RegistryOp>) -> int
    decreases ops.len(),
{
    if ops.len() == 0 {
        0int
    } else {
        (match ops[0] {
            RegistryOp::RemoveByPeer(id) => if contains_peer(s, id) {
                1int
            } else {
                0int
            },
            RegistryOp::Register(_) => 0int,
        }) + confirmed_removal_count(apply_op(s, ops[0]), ops.drop_first())
    }
}

/// Size bookkeeping: after any run of registrations and identifier
/// removals, the registry holds exactly its starting count, plus one per
/// registration, minus one per removal that found its target — and the
/// confirmed removals never outnumber what there was to remove.
pub proof fn lemma_registry_size(s: Seq<ClientEntry>, ops: Seq<RegistryOp>)
    ensures
        apply_ops(s, ops).len() == s.len() + register_count(ops) - confirmed_removal_count(
            s,
            ops,
        ),
        0 <= register_count(ops),
        0 <= confirmed_removal_count(s, ops) <= s.len() + register_count(ops),
    decreases ops.len(),
{
    if ops.len() > 0 {
        let s1 = apply_op(s, ops[0]);
        match ops[0] {
            RegistryOp::Register(_) => {},
            RegistryOp::RemoveByPeer(id) => {
                if contains_peer(s, id) {
                    lemma_first_match_exists(s, id);
                    let i = choose|i: int| is_first_match(s, id, i);
                    assert(s1 == s.remove(i));
                    assert(s1.len() == s.len() - 1);
                }
            },
        }
        lemma_registry_size(s1, ops.drop_first());
    }
}

/// Registering a peer that is not yet present keeps identifiers unique;
/// the transport hands out each live address once, so the accept path
/// only ever registers fresh identifiers.
pub proof fn lemma_register_keeps_unique(s: Seq<ClientEntry>, e: ClientEntry)
    requires
        unique_peers(s),
        !contains_peer(s, e.peer),
    ensures
        unique_peers(s.push(e)),
{
    let t = s.push(e);
    assert forall|i: int, j: int| 0 <= i < j < t.len() implies t[i].peer != t[j].peer by {
        if j == s.len() && t[i].peer == e.peer {
            assert(s[i].peer == e.peer);
        }
    }
}

/// Removal at any single position keeps identifiers unique.
pub proof fn lemma_remove_keeps_unique(s: Seq<ClientEntry>, i: int)
    requires
        unique_peers(s),
        0 <= i < s.len(),
    ensures
        unique_peers(s.remove(i)),
{
    let t = s.remove(i);
    s.remove_ensures(i);
    assert forall|a: int, b: int| 0 <= a < b < t.len() implies t[a].peer != t[b].peer by {
        let a2: int = if a < i {
            a
        } else {
            a + 1
        };
        let b2: int = if b < i {
            b
        } else {
            b + 1
        };
        assert(t[a] == s[a2] && t[b] == s[b2]);
    }
}

/// Removal by identifier keeps identifiers unique.
pub proof fn lemma_remove_by_peer_keeps_unique(s: Seq<ClientEntry>, id: PeerId)
    requires
        unique_peers(s),
    ensures
        unique_peers(spec_remove_by_peer(s, id)),
{
    if contains_peer(s, id) {
        lemma_first_match_exists(s, id);
        let i = choose|i: int| is_first_match(s, id, i);
        lemma_remove_keeps_unique(s, i);
    }
}

/// Batch pruning keeps identifiers unique.
pub proof fn lemma_survivors_keep_unique(s: Seq<ClientEntry>, r: Set<int>)
    requires
        unique_peers(s),
    ensures
        unique_peers(survivors(s, r)),
    decreases s.len(),
{
    if s.len() > 0 {
        let sub = s.drop_last();
        let rest = survivors(sub, r);
        lemma_survivors_keep_unique(sub, r);
        if !r.contains(s.len() - 1) {
            let t = rest.push(s.last());
            lemma_survivors_from(sub, r);
            assert forall|a: int, b: int| 0 <= a < b < t.len() implies t[a].peer != t[b].peer by {
                if b == rest.len() {
                    let j = choose|j: int|
                        0 <= j < sub.len() && !r.contains(j) && sub[j] == rest[a];
                    assert(s[j] == t[a]);
                    assert(s[j].peer != s[s.len() - 1].peer);
                }
            }
        }
    }
}

/// A client that registers and then disconnects without anyone else
/// acting leaves the registry exactly as it stood: its handler's
/// self-removal needs no broadcast to take effect.
pub proof fn lemma_connect_disconnect_roundtrip(s: Seq<ClientEntry>, e: ClientEntry)
    requires
        !contains_peer(s, e.peer),
    ensures
        spec_remove_by_peer(s.push(e), e.peer) == s,
{
    let t = s.push(e);
    assert(t[s.len() as int].peer == e.peer);
    assert forall|j: int| 0 <= j < s.len() implies t[j].peer != e.peer by {
        if s[j].peer == e.peer {
            assert(contains_peer(s, e.peer));
        }
    }
    assert(is_first_match(t, e.peer, s.len() as int));
    let i = choose|i: int| is_first_match(t, e.peer, i);
    lemma_first_match_unique(t, e.peer, i, s.len() as int);
    assert(t.remove(s.len() as int) =~= s);
}

/// The exit path is complete: once a handler has removed itself by its
/// identifier, no entry for that identifier remains (identifiers being
/// unique, the single removal suffices).
pub proof fn lemma_remove_by_peer_absent(s: Seq<ClientEntry>, id: PeerId)
    requires
        unique_peers(s),
    ensures
        !contains_peer(spec_remove_by_peer(s, id), id),
{
    if contains_peer(s, id) {
        lemma_first_match_exists(s, id);
        let i = choose|i: int| is_first_match(s, id, i);
        let t = s.remove(i);
        s.remove_ensures(i);
        if contains_peer(t, id) {
            let k = choose|k: int| 0 <= k < t.len() && t[k].peer == id;
            let k2: int = if k < i {
                k
            } else {
                k + 1
            };
            assert(t[k] == s[k2]);
            assert(s[k2].peer == s[i].peer);
        }
    }
}

/// The pruning path is complete: an entry whose write failed is gone
/// after that one pruning — no later broadcast can meet it again
/// (identifiers being unique, no second entry carries its identifier).
pub proof fn lemma_pruned_peer_absent(s: Seq<ClientEntry>, r: Set<int>, j: int)
    requires
        unique_peers(s),
        0 <= j < s.len(),
        r.contains(j),
    ensures
        !contains_peer(survivors(s, r), s[j].peer),
{
    let t = survivors(s, r);
    if contains_peer(t, s[j].peer) {
        let k = choose|k: int| 0 <= k < t.len() && t[k].peer == s[j].peer;
        lemma_survivors_from(s, r);
        let j2 = choose|j2: int| 0 <= j2 < s.len() && !r.contains(j2) && s[j2] == t[k];
        assert(s[j2].peer == s[j].peer);
    }
}

} // verus!
