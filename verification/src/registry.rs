//! The connection registry: the one piece of cross-task shared state.
//!
//! An ordered collection of live client entries, mutated in three ways:
//! appending on accept, removing a batch of indices after a failed fan-out,
//! and removing a single entry by peer identifier when a handler exits.

use vstd::prelude::*;

use crate::peer::PeerId;

verus! {

/// One live participant as the server sees it: the peer's identifier and
/// the caller's token for the connection's write half. The registry never
/// interprets the token; the surrounding runtime maps it to a stream.
#[derive(Clone, Copy, PartialEq, Eq, Structural, Debug)]
pub struct ClientEntry {
    pub peer: PeerId,
    pub handle: usize,
}

/// Whether some entry of `s` carries the peer identifier `id`.
pub open spec fn contains_peer(s: Seq<ClientEntry>, id: PeerId) -> bool {
    exists|i: int| 0 <= i < s.len() && s[i].peer == id
}

/// No two entries of `s` carry the same peer identifier.
pub open spec fn unique_peers(s: Seq<ClientEntry>) -> bool {
    forall|i: int, j: int| 0 <= i < j < s.len() ==> s[i].peer != s[j].peer
}

/// `i` is the position of the first entry of `s` whose identifier is `id`.
pub open spec fn is_first_match(s: Seq<ClientEntry>, id: PeerId, i: int) -> bool {
    &&& 0 <= i < s.len()
    &&& s[i].peer == id
    &&& forall|j: int| 0 <= j < i ==> s[j].peer != id
}

/// What removal by identifier leaves behind: the sequence without its
/// first entry for `id`, or the sequence unchanged when `id` is absent.
pub open spec fn spec_remove_by_peer(s: Seq<ClientEntry>, id: PeerId) -> Seq<ClientEntry> {
    if contains_peer(s, id) {
        s.remove(choose|i: int| is_first_match(s, id, i))
    } else {
        s
    }
}

/// A first match exists for any identifier the sequence contains.
pub proof fn lemma_first_match_exists(s: Seq<ClientEntry>, id: PeerId)
    requires
        contains_peer(s, id),
    ensures
        exists|i: int| is_first_match(s, id, i),
    decreases s.len(),
{
    if s[0].peer == id {
        assert(is_first_match(s, id, 0));
    } else {
        let sub = s.subrange(1, s.len() as int);
        let w = choose|i: int| 0 <= i < s.len() && s[i].peer == id;
        assert(sub[w - 1] == s[w]);
        lemma_first_match_exists(sub, id);
        let i = choose|i: int| is_first_match(sub, id, i);
        assert(forall|j: int| 0 <= j < i + 1 ==> s[j].peer != id) by {
            assert(forall|j: int| 1 <= j < i + 1 ==> s[j] == sub[j - 1]);
        }
        assert(is_first_match(s, id, i + 1));
    }
}

/// At most one position is the first match for a given identifier.
pub proof fn lemma_first_match_unique(s: Seq<ClientEntry>, id: PeerId, i: int, j: int)
    requires
        is_first_match(s, id, i),
        is_first_match(s, id, j),
    ensures
        i == j,
{
}

/// The positions named by a list of indices, as a set.
pub open spec fn idx_set(idxs: Seq<usize>) -> Set<int> {
    Set::new(|j: int| exists|k: int| 0 <= k < idxs.len() && idxs[k] as int == j)
}

/// The indices are strictly increasing, hence distinct.
pub open spec fn ascending(idxs: Seq<usize>) -> bool {
    forall|a: int, b: int| 0 <= a < b < idxs.len() ==> idxs[a] < idxs[b]
}

/// What a batch removal leaves behind: the entries of `s` whose position
/// is not in `removed`, in their original order.
pub open spec fn survivors(s: Seq<ClientEntry>, removed: Set<int>) -> Seq<ClientEntry>
    decreases s.len(),
{
    if s.len() == 0 {
        Seq::empty()
    } else {
        let rest = survivors(s.drop_last(), removed);
        if removed.contains(s.len() - 1) {
            rest
        } else {
            rest.push(s.last())
        }
    }
}

/// Only the removed positions inside `s`'s range matter to `survivors`.
pub proof fn lemma_survivors_congruence(s: Seq<ClientEntry>, r1: Set<int>, r2: Set<int>)
    requires
        forall|j: int| 0 <= j < s.len() ==> (r1.contains(j) <==> r2.contains(j)),
    ensures
        survivors(s, r1) == survivors(s, r2),
    decreases s.len(),
{
    if s.len() > 0 {
        lemma_survivors_congruence(s.drop_last(), r1, r2);
    }
}

/// Removing no position inside `s`'s range leaves `s` unchanged.
pub proof fn lemma_survivors_none(s: Seq<ClientEntry>, r: Set<int>)
    requires
        forall|j: int| 0 <= j < s.len() ==> !r.contains(j),
    ensures
        survivors(s, r) == s,
    decreases s.len(),
{
    if s.len() > 0 {
        lemma_survivors_none(s.drop_last(), r);
        assert(s.drop_last().push(s.last()) =~= s);
    }
}

/// Appending an element commutes with removal at an earlier position.
proof fn lemma_push_remove_commute(q: Seq<ClientEntry>, x: ClientEntry, i: int)
    requires
        0 <= i < q.len(),
    ensures
        q.push(x).remove(i) == q.remove(i).push(x),
{
    assert(q.push(x).remove(i) =~= q.remove(i).push(x));
}

/// Removing one more position, below every position already removed,
/// takes exactly that entry out of the surviving sequence.
pub proof fn lemma_survivors_remove(s: Seq<ClientEntry>, r: Set<int>, i: int)
    requires
        0 <= i < s.len(),
        !r.contains(i),
        forall|j: int| r.contains(j) ==> i < j < s.len(),
    ensures
        survivors(s, r).len() > i,
        survivors(s, r).remove(i) == survivors(s, r.insert(i)),
    decreases s.len(),
{
    let last = s.len() - 1;
    let sub = s.drop_last();
    if r.contains(last) {
        let r2 = r.remove(last);
        assert(forall|j: int| r2.contains(j) ==> i < j < sub.len());
        lemma_survivors_congruence(sub, r, r2);
        lemma_survivors_remove(sub, r2, i);
        lemma_survivors_congruence(sub, r.insert(i), r2.insert(i));
    } else if i == last {
        assert(forall|j: int| 0 <= j < s.len() ==> !r.contains(j));
        lemma_survivors_none(s, r);
        assert(forall|j: int| 0 <= j < sub.len() ==> !r.insert(i).contains(j));
        lemma_survivors_none(sub, r.insert(i));
        assert(s.remove(last) =~= sub);
    } else {
        assert(forall|j: int| r.contains(j) ==> i < j < sub.len());
        lemma_survivors_remove(sub, r, i);
        lemma_push_remove_commute(survivors(sub, r), s.last(), i);
    }
}

/// `x` stands somewhere in `s` at a position that `r` does not remove.
pub open spec fn from_unremoved(s: Seq<ClientEntry>, r: Set<int>, x: ClientEntry) -> bool {
    exists|j: int| 0 <= j < s.len() && !r.contains(j) && s[j] == x
}

/// Every surviving entry stood in the original sequence, at a position
/// that was not removed.
pub proof fn lemma_survivors_from(s: Seq<ClientEntry>, r: Set<int>)
    ensures
        forall|k: int| 0 <= k < survivors(s, r).len()
            ==> from_unremoved(s, r, #[trigger] survivors(s, r)[k]),
    decreases s.len(),
{
    if s.len() > 0 {
        let sub = s.drop_last();
        let rest = survivors(sub, r);
        lemma_survivors_from(sub, r);
        assert forall|k: int| 0 <= k < survivors(s, r).len()
            implies from_unremoved(s, r, #[trigger] survivors(s, r)[k]) by {
            if !r.contains(s.len() - 1) && k == rest.len() {
                assert(s[s.len() - 1] == survivors(s, r)[k]);
            } else {
                let j = choose|j: int| 0 <= j < sub.len() && !r.contains(j) && sub[j] == rest[k];
                assert(s[j] == survivors(s, r)[k]);
            }
        }
    }
}

/// An entry at a position that is not being removed survives the pruning.
pub proof fn lemma_survivors_keep(s: Seq<ClientEntry>, r: Set<int>, j: int)
    requires
        0 <= j < s.len(),
        !r.contains(j),
    ensures
        survivors(s, r).contains(s[j]),
    decreases s.len(),
{
    let rest = survivors(s.drop_last(), r);
    if j == s.len() - 1 {
        assert(survivors(s, r)[rest.len() as int] == s[j]);
    } else {
        lemma_survivors_keep(s.drop_last(), r, j);
        let k = choose|k: int| 0 <= k < rest.len() && rest[k] == s.drop_last()[j];
        assert(survivors(s, r)[k] == s[j]);
    }
}

/// Strictly increasing indices grow at least as fast as their positions.
pub proof fn lemma_ascending_gap(s: Seq<usize>, a: int, b: int)
    requires
        ascending(s),
        0 <= a <= b < s.len(),
    ensures
        s[a] + (b - a) <= s[b],
    decreases b - a,
{
    if a < b {
        lemma_ascending_gap(s, a, b - 1);
    }
}

/// The registry itself: an ordered collection of entries. Callers guard a
/// value of this type with one lock; every operation below is one critical
/// section's worth of work.
pub struct ClientRegistry {
    entries: Vec<ClientEntry>,
}

impl View for ClientRegistry {
    type V = Seq<ClientEntry>;

    closed spec fn view(&self) -> Seq<ClientEntry> {
        self.entries@
    }
}

impl ClientRegistry {
    /// An empty registry, as a server starts with.
    pub fn new() -> (r: ClientRegistry)
        ensures
            r@ == Seq::<ClientEntry>::empty(),
    {
        ClientRegistry { entries: Vec::new() }
    }

    /// How many clients are currently registered.
    pub fn len(&self) -> (n: usize)
        ensures
            n == self@.len(),
    {
        self.entries.len()
    }

    /// The entry at position `i`.
    pub fn entry_at(&self, i: usize) -> (e: ClientEntry)
        requires
            i < self@.len(),
        ensures
            e == self@[i as int],
    {
        self.entries[i]
    }

    /// Appends a new participant. Registration always succeeds: the
    /// registry imposes no capacity limit.
    pub fn register(&mut self, entry: ClientEntry)
        ensures
            final(self)@ == old(self)@.push(entry),
    {
        self.entries.push(entry);
    }

    /// Removes the entries at the given positions, handed over in
    /// ascending order as a broadcast reports them. The batch is processed
    /// in descending order, so that no removal shifts a position that is
    /// still to be removed.
    #[verifier::loop_isolation(false)]
    pub fn remove_indices(&mut self, indices: &Vec<usize>)
        requires
            ascending(indices@),
            forall|k: int| 0 <= k < indices@.len() ==> indices@[k] < old(self)@.len(),
        ensures
            final(self)@ == survivors(old(self)@, idx_set(indices@)),
            final(self)@.len() == old(self)@.len() - indices@.len(),
    {
        let ghost s0 = self@;
        let n = indices.len();
        proof {
            assert(forall|j: int| 0 <= j < s0.len()
                ==> !idx_set(indices@.skip(n as int)).contains(j));
            lemma_survivors_none(s0, idx_set(indices@.skip(n as int)));
        }
        let mut t: usize = 0;
        while t < n
            invariant
                t <= n,
                self@ == survivors(s0, idx_set(indices@.skip(n - t))),
                self@.len() == s0.len() - t,
            decreases n - t,
        {
            let idx = indices[n - 1 - t];
            proof {
                let sk0 = indices@.skip(n - t);
                let r = idx_set(sk0);
                assert forall|j: int| r.contains(j) implies (idx as int) < j < s0.len() by {
                    let k = choose|k: int| 0 <= k < sk0.len() && sk0[k] as int == j;
                    assert(sk0[k] == indices@[n - t + k]);
                    assert(indices@[n - 1 - t] < indices@[n - t + k]);
                }
                assert(!r.contains(idx as int));
                lemma_survivors_remove(s0, r, idx as int);
                lemma_ascending_gap(indices@, n - 1 - t, n - 1);
                assert(idx < s0.len() - t);
                let sk1 = indices@.skip(n - t - 1);
                assert forall|j: int| idx_set(sk1).contains(j)
                    implies r.insert(idx as int).contains(j) by {
                    let k = choose|k: int| 0 <= k < sk1.len() && sk1[k] as int == j;
                    if k == 0 {
                        assert(sk1[0] == idx);
                    } else {
                        assert(sk0[k - 1] == sk1[k]);
                        assert(sk0[k - 1] as int == j);
                    }
                }
                assert forall|j: int| r.insert(idx as int).contains(j)
                    implies idx_set(sk1).contains(j) by {
                    if j == idx as int {
                        assert(sk1[0] as int == j);
                    } else {
                        let k = choose|k: int| 0 <= k < sk0.len() && sk0[k] as int == j;
                        assert(sk1[k + 1] == sk0[k]);
                        assert(sk1[k + 1] as int == j);
                    }
                }
                assert(idx_set(sk1) =~= r.insert(idx as int));
            }
            self.entries.remove(idx);
            t += 1;
        }
        proof {
            assert(indices@.skip(0) =~= indices@);
        }
    }

    /// Removes the first entry whose identifier equals `id`, scanning in
    /// order; a no-op when no entry matches, so that the two removal paths
    /// (index-based pruning and exit-time self-removal) can race benignly.
    /// Returns the position that was vacated, if any, so the caller can
    /// keep its own per-connection resources aligned with the registry.
    #[verifier::loop_isolation(false)]
    pub fn remove_by_identifier(&mut self, id: PeerId) -> (removed: Option<usize>)
        ensures
            final(self)@ == spec_remove_by_peer(old(self)@, id),
            removed is Some <==> contains_peer(old(self)@, id),
            removed matches Some(i) ==> is_first_match(old(self)@, id, i as int)
                && final(self)@ == old(self)@.remove(i as int),
            removed is None ==> final(self)@ == old(self)@,
    {
        let ghost s0 = self@;
        let n = self.entries.len();
        let mut i: usize = 0;
        while i < n
            invariant
                n == s0.len(),
                self@ == s0,
                i <= n,
                forall|j: int| 0 <= j < i ==> s0[j].peer != id,
            decreases n - i,
        {
            if self.entries[i].peer == id {
                proof {
                    assert(s0[i as int].peer == id);
                    assert(contains_peer(s0, id));
                    assert(is_first_match(s0, id, i as int));
                    let w = choose|k: int| is_first_match(s0, id, k);
                    lemma_first_match_unique(s0, id, w, i as int);
                    assert(spec_remove_by_peer(s0, id) == s0.remove(i as int));
                }
                self.entries.remove(i);
                return Some(i);
            }
            i += 1;
        }
        proof {
            assert(!contains_peer(s0, id));
        }
        None
    }
}

} // verus!
