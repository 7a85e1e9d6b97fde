//! In-flight export state: which pipeline messages still wait for their
//! compressed HTTP chunks to complete.
//!
//! Each incoming message is sent as N compressed chunks (N >= 1) and tracked
//! with a counter of chunks still pending:
//!
//! - all N chunks succeed: the N-th success brings the counter to zero and
//!   releases the message for an ack;
//! - any chunk fails: the message is released at once for a nack;
//! - a completion for a message that is no longer tracked releases nothing,
//!   so a message is never acked or nacked twice.
use std::collections::HashMap;
use std::collections::hash_map::Entry;
use vstd::std_specs::hash::spec_keys_iter;
use vstd::std_specs::iter::IteratorSpec;
use vstd::prelude::*;

verus! {

broadcast use vstd::std_specs::hash::group_hash_axioms;

/// A message whose chunks are in flight.
pub struct PendingMessage<C, P> {
    /// Context needed to ack or nack the message.
    pub context: C,
    /// Payload to return with the ack or nack.
    pub payload: P,
    /// Number of chunks that must still succeed before the message is acked.
    pub pending_chunks: u32,
}

/// The message tracked under `id` with one chunk fewer pending.
pub open spec fn one_chunk_done<C, P>(msg: PendingMessage<C, P>) -> PendingMessage<C, P> {
    PendingMessage {
        context: msg.context,
        payload: msg.payload,
        pending_chunks: (msg.pending_chunks - 1) as u32,
    }
}

/// What one successful chunk of message `id` does to the tracked messages
/// `m`, and what it releases for an ack.
pub open spec fn success_step<C, P>(m: Map<u64, PendingMessage<C, P>>, id: u64) -> (Map<
    u64,
    PendingMessage<C, P>,
>, Option<(C, P)>) {
    if !m.contains_key(id) {
        (m, None)
    } else if m[id].pending_chunks <= 1 {
        (m.remove(id), Some((m[id].context, m[id].payload)))
    } else {
        (m.insert(id, one_chunk_done(m[id])), None)
    }
}

/// What one failed chunk of message `id` does to the tracked messages `m`,
/// and what it releases for a nack.
pub open spec fn failure_step<C, P>(m: Map<u64, PendingMessage<C, P>>, id: u64) -> (Map<
    u64,
    PendingMessage<C, P>,
>, Option<(C, P)>) {
    if m.contains_key(id) {
        (m.remove(id), Some((m[id].context, m[id].payload)))
    } else {
        (m, None)
    }
}

/// A message is released at most once: after a chunk failure, or after a
/// success that released it, no further success or failure of the same
/// message releases anything.
pub proof fn lemma_no_double_release<C, P>(m: Map<u64, PendingMessage<C, P>>, id: u64)
    ensures
        success_step(failure_step(m, id).0, id).1 is None,
        failure_step(failure_step(m, id).0, id).1 is None,
        success_step(m, id).1 is Some ==> success_step(success_step(m, id).0, id).1 is None,
        success_step(m, id).1 is Some ==> failure_step(success_step(m, id).0, id).1 is None,
{
}

/// Completing a chunk of one message leaves every other message untouched.
pub proof fn lemma_other_messages_unaffected<C, P>(
    m: Map<u64, PendingMessage<C, P>>,
    id: u64,
    other: u64,
)
    requires
        other != id,
    ensures
        success_step(m, id).0.contains_key(other) == m.contains_key(other),
        failure_step(m, id).0.contains_key(other) == m.contains_key(other),
        m.contains_key(other) ==> success_step(m, id).0[other] == m[other],
        m.contains_key(other) ==> failure_step(m, id).0[other] == m[other],
{
}

/// A call made on the in-flight state, as the laws over histories see it.
pub enum StateCall<C, P> {
    /// `register(msg_id, context, payload, chunk_count)`.
    Register { msg_id: u64, context: C, payload: P, chunk_count: u32 },
    /// `on_chunk_success(msg_id)`.
    ChunkSuccess { msg_id: u64 },
    /// `on_chunk_failure(msg_id)`.
    ChunkFailure { msg_id: u64 },
    /// `drain_all()`.
    DrainAll,
}

/// The tracked messages after `call` on the tracked messages `m`.
pub open spec fn after_call<C, P>(m: Map<u64, PendingMessage<C, P>>, call: StateCall<C, P>) -> Map<
    u64,
    PendingMessage<C, P>,
> {
    match call {
        StateCall::Register { msg_id, context, payload, chunk_count } => m.insert(
            msg_id,
            (PendingMessage { context, payload, pending_chunks: chunk_count }),
        ),
        StateCall::ChunkSuccess { msg_id } => success_step(m, msg_id).0,
        StateCall::ChunkFailure { msg_id } => failure_step(m, msg_id).0,
        StateCall::DrainAll => Map::empty(),
    }
}

/// What `call` on the tracked messages `m` releases of message `id` (for an
/// ack, a nack, or a nack at shutdown): its context and payload, or nothing.
pub open spec fn released_by<C, P>(m: Map<u64, PendingMessage<C, P>>, call: StateCall<C, P>, id: u64) -> Seq<
    (C, P),
> {
    match call {
        StateCall::Register { .. } => Seq::empty(),
        StateCall::ChunkSuccess { msg_id } => if msg_id == id && success_step(m, id).1 is Some {
            seq![success_step(m, id).1->0]
        } else {
            Seq::empty()
        },
        StateCall::ChunkFailure { msg_id } => if msg_id == id && failure_step(m, id).1 is Some {
            seq![failure_step(m, id).1->0]
        } else {
            Seq::empty()
        },
        StateCall::DrainAll => if m.contains_key(id) {
            seq![(m[id].context, m[id].payload)]
        } else {
            Seq::empty()
        },
    }
}

/// The tracked messages after the calls `calls`, in order, starting from `m`.
pub open spec fn after_calls<C, P>(m: Map<u64, PendingMessage<C, P>>, calls: Seq<StateCall<C, P>>) -> Map<
    u64,
    PendingMessage<C, P>,
>
    decreases calls.len(),
{
    if calls.len() == 0 {
        m
    } else {
        after_call(after_calls(m, calls.drop_last()), calls.last())
    }
}

/// Everything the calls `calls`, in order from `m`, release of message `id`.
pub open spec fn releases_of<C, P>(m: Map<u64, PendingMessage<C, P>>, calls: Seq<StateCall<C, P>>, id: u64) -> Seq<
    (C, P),
>
    decreases calls.len(),
{
    if calls.len() == 0 {
        Seq::empty()
    } else {
        releases_of(m, calls.drop_last(), id) + released_by(after_calls(m, calls.drop_last()), calls.last(), id)
    }
}

/// How many of `calls` are successful chunks of message `id`.
pub open spec fn successes_of<C, P>(calls: Seq<StateCall<C, P>>, id: u64) -> nat
    decreases calls.len(),
{
    if calls.len() == 0 {
        0
    } else {
        successes_of(calls.drop_last(), id) + if calls.last() == (StateCall::ChunkSuccess::<C, P> { msg_id: id }) {
            1nat
        } else {
            0nat
        }
    }
}

/// Whether `call` registers message `id` anew.
pub open spec fn registers<C, P>(call: StateCall<C, P>, id: u64) -> bool {
    call matches StateCall::Register { msg_id, .. } && msg_id == id
}

/// Whether `call` could release message `id` other than by a success of it:
/// a failure of it, a drain, or registering it anew.
pub open spec fn ends_early<C, P>(call: StateCall<C, P>, id: u64) -> bool {
    ||| registers(call, id)
    ||| call == (StateCall::ChunkFailure::<C, P> { msg_id: id })
    ||| call is DrainAll
}

/// A message registered with `n >= 1` chunks is acked on its `n`-th
/// successful chunk, and never before, whatever calls on other messages come
/// in between: while fewer than `n` of its chunks have succeeded it stays
/// tracked with its context and payload and as many chunks pending as are
/// left, and nothing of it is released; from the `n`-th success on it is no
/// longer tracked, and exactly its context and payload have been released,
/// once. (Its failure, a drain, or registering it anew are left out: they
/// release or replace it early.)
pub proof fn lemma_ack_on_last_success<C, P>(
    m: Map<u64, PendingMessage<C, P>>,
    id: u64,
    context: C,
    payload: P,
    n: u32,
    calls: Seq<StateCall<C, P>>,
)
    requires
        n >= 1,
        forall|i: int| 0 <= i < calls.len() ==> !ends_early(#[trigger] calls[i], id),
    ensures
        ({
            let registered = m.insert(
                id,
                (PendingMessage { context, payload, pending_chunks: n }),
            );
            let k = successes_of(calls, id);
            let now = after_calls(registered, calls);
            &&& k < n ==> now.contains_key(id) && now[id] == (PendingMessage {
                context,
                payload,
                pending_chunks: (n - k) as u32,
            })
            &&& k >= n ==> !now.contains_key(id)
            &&& releases_of(registered, calls, id) == if k >= n {
                seq![(context, payload)]
            } else {
                Seq::empty()
            }
        }),
    decreases calls.len(),
{
    if calls.len() > 0 {
        let rest = calls.drop_last();
        assert forall|i: int| 0 <= i < rest.len() implies !ends_early(#[trigger] rest[i], id) by {
            assert(rest[i] == calls[i]);
        }
        lemma_ack_on_last_success(m, id, context, payload, n, rest);
        assert(!ends_early(calls[calls.len() - 1], id));
        let registered = m.insert(id, (PendingMessage { context, payload, pending_chunks: n }));
        let k = successes_of(rest, id);
        if k >= n {
            assert(releases_of(registered, calls, id) =~= releases_of(registered, rest, id));
        } else {
            assert(releases_of(registered, calls, id) =~= released_by(
                after_calls(registered, rest),
                calls.last(),
                id,
            ));
        }
    }
}

/// A message is released at most once between two registrations of it: from
/// tracked messages `m`, calls that never register `id` release it once at
/// most, and not at all when `m` does not track it; once released it is no
/// longer tracked, so no later success, failure or drain releases it again.
/// It is released exactly when it stops being tracked.
pub proof fn lemma_released_at_most_once<C, P>(
    m: Map<u64, PendingMessage<C, P>>,
    id: u64,
    calls: Seq<StateCall<C, P>>,
)
    requires
        forall|i: int| 0 <= i < calls.len() ==> !registers(#[trigger] calls[i], id),
    ensures
        releases_of(m, calls, id).len() + (if after_calls(m, calls).contains_key(id) {
            1int
        } else {
            0int
        }) == if m.contains_key(id) {
            1int
        } else {
            0int
        },
        releases_of(m, calls, id).len() <= 1,
        releases_of(m, calls, id).len() == 1 ==> !after_calls(m, calls).contains_key(id),
    decreases calls.len(),
{
    if calls.len() > 0 {
        let rest = calls.drop_last();
        assert forall|i: int| 0 <= i < rest.len() implies !registers(#[trigger] rest[i], id) by {
            assert(rest[i] == calls[i]);
        }
        lemma_released_at_most_once(m, id, rest);
        assert(!registers(calls[calls.len() - 1], id));
    }
}

/// Every message is released exactly once by the end of a run that ends in
/// a shutdown: from tracked messages `m` holding `id`, calls that never
/// register `id` anew and end with `drain_all` release it exactly once.
pub proof fn lemma_released_exactly_once_by_shutdown<C, P>(
    m: Map<u64, PendingMessage<C, P>>,
    id: u64,
    calls: Seq<StateCall<C, P>>,
)
    requires
        m.contains_key(id),
        calls.len() > 0,
        calls.last() is DrainAll,
        forall|i: int| 0 <= i < calls.len() ==> !registers(#[trigger] calls[i], id),
    ensures
        releases_of(m, calls, id).len() == 1,
{
    lemma_released_at_most_once(m, id, calls);
}

/// Tracks in-flight export state: the pending messages by message id.
pub struct AzureMonitorExporterState<C, P> {
    pending: HashMap<u64, PendingMessage<C, P>>,
}

impl<C, P> AzureMonitorExporterState<C, P> {
    /// The tracked messages by message id.
    pub closed spec fn pending(&self) -> Map<u64, PendingMessage<C, P>> {
        self.pending@
    }

    /// Finitely many messages are tracked, so `len` changes by one when a
    /// message is registered under a new id or released.
    pub proof fn lemma_pending_finite(&self)
        ensures
            self.pending().dom().finite(),
    {
    }

    /// Creates state with a small initial capacity that grows on demand.
    pub fn new() -> (s: Self)
        ensures
            s.pending() == Map::<u64, PendingMessage<C, P>>::empty(),
    {
        AzureMonitorExporterState { pending: HashMap::with_capacity(64) }
    }

    /// Registers a new message and the number of chunks dispatched for it.
    pub fn register(&mut self, msg_id: u64, context: C, payload: P, chunk_count: u32)
        ensures
            final(self).pending() == old(self).pending().insert(
                msg_id,
                (PendingMessage { context, payload, pending_chunks: chunk_count }),
            ),
    {
        let _ = self.pending.insert(msg_id, PendingMessage { context, payload, pending_chunks: chunk_count });
    }

    /// One chunk of `msg_id` completed successfully: the pending counter drops
    /// by one (stopping at zero), and when it reaches zero the message is
    /// removed and returned for an ack. An untracked message gives `None`.
    pub fn on_chunk_success(&mut self, msg_id: u64) -> (r: Option<(C, P)>)
        ensures
            (final(self).pending(), r) == success_step(old(self).pending(), msg_id),
    {
        match self.pending.entry(msg_id) {
            Entry::Occupied(mut entry) => {
                let msg = entry.get_mut();
                msg.pending_chunks = msg.pending_chunks.saturating_sub(1);
                if msg.pending_chunks == 0 {
                    let (_, msg) = entry.remove_entry();
                    Some((msg.context, msg.payload))
                } else {
                    None
                }
            },
            Entry::Vacant(_) => None,
        }
    }

    /// One chunk of `msg_id` failed: the message is removed at once and
    /// returned for a nack. An untracked message gives `None`.
    pub fn on_chunk_failure(&mut self, msg_id: u64) -> (r: Option<(C, P)>)
        ensures
            (final(self).pending(), r) == failure_step(old(self).pending(), msg_id),
    {
        match self.pending.remove(&msg_id) {
            Some(msg) => Some((msg.context, msg.payload)),
            None => None,
        }
    }

    /// The number of tracked messages.
    pub fn len(&self) -> (n: usize)
        ensures
            n == self.pending().len(),
    {
        self.pending.len()
    }

    /// Whether no message is tracked.
    pub fn is_empty(&self) -> (b: bool)
        ensures
            b == (self.pending().len() == 0),
    {
        self.pending.is_empty()
    }

    /// Removes every tracked message and returns each once, with its id.
    pub fn drain_all(&mut self) -> (drained: Vec<(u64, C, P)>)
        ensures
            final(self).pending() == Map::<u64, PendingMessage<C, P>>::empty(),
            drained@.len() == old(self).pending().len(),
            forall|i: int|
                0 <= i < drained@.len() ==> old(self).pending().contains_key(#[trigger] drained@[i].0)
                    && old(self).pending()[drained@[i].0].context == drained@[i].1
                    && old(self).pending()[drained@[i].0].payload == drained@[i].2,
            forall|i: int, j: int|
                0 <= i < j < drained@.len() ==> #[trigger] drained@[i].0 != #[trigger] drained@[j].0,
            forall|k: u64|
                old(self).pending().contains_key(k) ==> exists|i: int|
                    0 <= i < drained@.len() && #[trigger] drained@[i].0 == k,
    {
        let ghost start = self.pending@;
        let mut ids: Vec<u64> = Vec::new();
        for id in it: self.pending.keys()
            invariant
                it.seq() == spec_keys_iter(&self.pending).remaining(),
                ids@.len() == it.index(),
                forall|i: int| 0 <= i < it.index() ==> ids@[i] == *it.seq()[i],
        {
            ids.push(*id);
        }
        proof {
            assert(ids@ =~= spec_keys_iter(&self.pending).remaining().unref());
        }
        let ghost keys = ids@;
        let mut drained: Vec<(u64, C, P)> = Vec::new();
        let mut i: usize = 0;
        while i < ids.len()
            invariant
                ids@ == keys,
                keys.no_duplicates(),
                keys.to_set() == start.dom(),
                keys.len() == start.dom().len(),
                0 <= i <= keys.len(),
                drained@.len() == i,
                forall|j: int|
                    0 <= j < i ==> #[trigger] drained@[j].0 == keys[j] && drained@[j].1 == start[keys[j]].context
                        && drained@[j].2 == start[keys[j]].payload,
                forall|k: u64|
                    #[trigger] self.pending@.contains_key(k) <==> start.contains_key(k) && !keys.subrange(
                        0,
                        i as int,
                    ).contains(k),
                forall|k: u64| #[trigger] self.pending@.contains_key(k) ==> self.pending@[k] == start[k],
            decreases keys.len() - i,
        {
            let id = ids[i];
            proof {
                assert(keys.to_set().contains(id));
                assert(!keys.subrange(0, i as int).contains(id)) by {
                    if keys.subrange(0, i as int).contains(id) {
                        let j = choose|j: int| 0 <= j < i && #[trigger] keys.subrange(0, i as int)[j] == id;
                        assert(keys[j] == keys[i as int]);
                    }
                }
                assert forall|k: u64| keys.subrange(0, i + 1).contains(k) <==> (keys.subrange(
                    0,
                    i as int,
                ).contains(k) || k == id) by {
                    if keys.subrange(0, i + 1).contains(k) {
                        let j = choose|j: int| 0 <= j < i + 1 && #[trigger] keys.subrange(0, i + 1)[j] == k;
                        if j < i {
                            assert(keys.subrange(0, i as int)[j] == k);
                        }
                    }
                    if keys.subrange(0, i as int).contains(k) {
                        let j = choose|j: int| 0 <= j < i && #[trigger] keys.subrange(0, i as int)[j] == k;
                        assert(keys.subrange(0, i + 1)[j] == k);
                    }
                    if k == id {
                        assert(keys.subrange(0, i + 1)[i as int] == k);
                    }
                }
            }
            match self.pending.remove(&id) {
                Some(msg) => {
                    drained.push((id, msg.context, msg.payload));
                },
                None => {},
            }
            i = i + 1;
        }
        proof {
            assert(keys.subrange(0, keys.len() as int) =~= keys);
            assert(self.pending@ =~= Map::<u64, PendingMessage<C, P>>::empty());
            assert forall|k: u64| old(self).pending().contains_key(k) implies exists|i: int|
                0 <= i < drained@.len() && #[trigger] drained@[i].0 == k by {
                assert(keys.to_set().contains(k));
                let i = choose|i: int| 0 <= i < keys.len() && #[trigger] keys[i] == k;
                assert(drained@[i].0 == k);
            }
        }
        drained
    }
}

} // verus!
