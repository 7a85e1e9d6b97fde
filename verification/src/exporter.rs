//! The decisions of the Azure Monitor exporter: what becomes of an incoming
//! logs message, and when the access token is refreshed next.
//!
//! The exporter's event loop (receiving messages, sending HTTP requests,
//! acking and nacking) performs the actions decided here.
use crate::gzip_batcher::{
    chunks_follow_split,
    split_runs,
    compress_and_split,
    has_oversized_record,
    lemma_chunks_at_most_records,
    record_views,
    CompressedChunk,
    Error,
};
use crate::state::{failure_step, success_step, AzureMonitorExporterState, PendingMessage};
use bytes::Bytes;
use vstd::prelude::*;

verus! {

/// Nanoseconds per second.
pub const NANOS_PER_SEC: u128 = 1_000_000_000;

/// Minimum interval between token refresh attempts, in seconds.
pub const MIN_TOKEN_REFRESH_INTERVAL_SECS: u128 = 10;

/// How long before the token expires it is refreshed, in seconds. The Azure
/// identity SDK caches tokens and issues a new one only about five minutes
/// before expiry.
pub const TOKEN_EXPIRY_BUFFER_SECS: u128 = 295;

/// The delay until the next refresh of a token that stays valid for
/// `remaining_nanos` more nanoseconds.
pub open spec fn spec_token_refresh_delay(remaining_nanos: int) -> int {
    let before_expiry = remaining_nanos - TOKEN_EXPIRY_BUFFER_SECS * NANOS_PER_SEC;
    let minimum = MIN_TOKEN_REFRESH_INTERVAL_SECS * NANOS_PER_SEC;
    if before_expiry > minimum {
        before_expiry
    } else {
        minimum
    }
}

/// The refresh is due 295 seconds before the token expires, but never
/// sooner than 10 seconds from now: a token valid for at least 305 more
/// seconds is refreshed exactly 295 seconds before it expires, and one valid
/// for less is refreshed in 10 seconds.
pub proof fn lemma_refresh_295_seconds_before_expiry(remaining_nanos: int)
    ensures
        remaining_nanos >= 305 * 1_000_000_000 ==> spec_token_refresh_delay(remaining_nanos)
            + 295 * 1_000_000_000 == remaining_nanos,
        remaining_nanos <= 305 * 1_000_000_000 ==> spec_token_refresh_delay(remaining_nanos) == 10
            * 1_000_000_000,
        spec_token_refresh_delay(remaining_nanos) >= 10 * 1_000_000_000,
{
}

/// The delay, in nanoseconds, until the token is refreshed: the buffer time
/// before its expiry, but never sooner than the minimum refresh interval.
pub fn token_refresh_delay(remaining_nanos: u128) -> (delay: u128)
    ensures
        delay == spec_token_refresh_delay(remaining_nanos as int),
        remaining_nanos >= 305 * 1_000_000_000 ==> delay + 295 * 1_000_000_000 == remaining_nanos,
        remaining_nanos <= 305 * 1_000_000_000 ==> delay == 10 * 1_000_000_000,
{
    let buffer = TOKEN_EXPIRY_BUFFER_SECS * NANOS_PER_SEC;
    let minimum = MIN_TOKEN_REFRESH_INTERVAL_SECS * NANOS_PER_SEC;
    let before_expiry = remaining_nanos.saturating_sub(buffer);
    if before_expiry > minimum {
        before_expiry
    } else {
        minimum
    }
}

/// Delay before retrying a failed token refresh, in seconds.
pub const TOKEN_REFRESH_RETRY_SECS: u128 = 10;

/// The outcome of a token refresh attempt.
#[derive(Clone, Copy, PartialEq, Eq, Debug, Structural)]
pub enum TokenRefreshOutcome {
    /// A token was obtained and its authorization header installed; it stays
    /// valid for `remaining_nanos` more nanoseconds.
    Refreshed { remaining_nanos: u128 },
    /// Getting the token, or building its authorization header, failed.
    Failed,
}

/// The delay, in nanoseconds, until the next token refresh attempt: per the
/// new token after a success, the retry delay after a failure.
pub fn next_token_refresh_delay(outcome: TokenRefreshOutcome) -> (delay: u128)
    ensures
        match outcome {
            TokenRefreshOutcome::Refreshed { remaining_nanos } => delay
                == spec_token_refresh_delay(remaining_nanos as int),
            TokenRefreshOutcome::Failed => delay == TOKEN_REFRESH_RETRY_SECS * NANOS_PER_SEC,
        },
        outcome matches TokenRefreshOutcome::Refreshed { remaining_nanos } ==> (remaining_nanos >= 305
            * 1_000_000_000 ==> delay + 295 * 1_000_000_000 == remaining_nanos),
        outcome matches TokenRefreshOutcome::Refreshed { remaining_nanos } ==> (remaining_nanos <= 305
            * 1_000_000_000 ==> delay == 10 * 1_000_000_000),
        outcome is Failed ==> delay == 10 * 1_000_000_000,
{
    match outcome {
        TokenRefreshOutcome::Refreshed { remaining_nanos } => token_refresh_delay(remaining_nanos),
        TokenRefreshOutcome::Failed => TOKEN_REFRESH_RETRY_SECS * NANOS_PER_SEC,
    }
}

/// The encoding of a pipeline payload.
#[derive(Clone, Copy, PartialEq, Eq, Debug, Structural)]
pub enum PayloadFormat {
    /// OTAP Arrow record batches.
    OtapArrowRecords,
    /// OTLP protobuf bytes.
    OtlpBytes,
}

/// The telemetry signal a payload carries.
#[derive(Clone, Copy, PartialEq, Eq, Debug, Structural)]
pub enum SignalType {
    Logs,
    Metrics,
    Traces,
}

/// What the exporter received from its channel, by what it decides on.
#[derive(Clone, Copy, PartialEq, Eq, Debug, Structural)]
pub enum InboundMessage {
    /// A data message.
    PData { format: PayloadFormat, signal: SignalType },
    /// A message that is not data (and not handled elsewhere).
    Other,
    /// Receiving from the channel failed.
    ReceiveError,
}

/// What the exporter does with a received message.
#[derive(Clone, Copy, PartialEq, Eq, Debug, Structural)]
pub enum MessageAction {
    /// Export the logs of the data message numbered `msg_id`, read as a view
    /// of `format`.
    ExportLogs { msg_id: u64, format: PayloadFormat },
    /// A metrics or traces payload: not exported, only warned about.
    UnsupportedSignal { format: PayloadFormat },
    /// Nothing to do.
    Ignore,
    /// The channel failed: an internal error ends the exporter.
    ReceiveFailed,
}

/// Numbers a data message with the next message id and routes it by its
/// signal: logs are exported, metrics and traces are not. Other messages are
/// ignored, and a receive error fails.
pub fn route_message(msg_id: &mut u64, message: InboundMessage) -> (action: MessageAction)
    requires
        message is PData ==> *old(msg_id) < u64::MAX,
    ensures
        message is PData ==> *final(msg_id) == *old(msg_id) + 1,
        !(message is PData) ==> *final(msg_id) == *old(msg_id),
        action == match message {
            InboundMessage::PData { format, signal: SignalType::Logs } => MessageAction::ExportLogs {
                msg_id: (*old(msg_id) + 1) as u64,
                format,
            },
            InboundMessage::PData { format, .. } => MessageAction::UnsupportedSignal { format },
            InboundMessage::Other => MessageAction::Ignore,
            InboundMessage::ReceiveError => MessageAction::ReceiveFailed,
        },
{
    match message {
        InboundMessage::PData { format, signal } => {
            *msg_id += 1;
            match signal {
                SignalType::Logs => MessageAction::ExportLogs { msg_id: *msg_id, format },
                SignalType::Metrics | SignalType::Traces => MessageAction::UnsupportedSignal {
                    format,
                },
            }
        },
        InboundMessage::Other => MessageAction::Ignore,
        InboundMessage::ReceiveError => MessageAction::ReceiveFailed,
    }
}

/// Why a logs message is nacked before any chunk is sent.
#[derive(Clone, Copy, PartialEq, Eq, Debug, Structural)]
pub enum NackReason {
    /// The message produced no log entry.
    NoValidLogEntries,
    /// One log entry is larger than a chunk can hold.
    LogEntryTooLarge,
}

/// What becomes of an incoming logs message.
pub enum LogsDisposition<C, P> {
    /// Nack the message at once; nothing is sent.
    Nack { reason: NackReason, context: C, payload: P },
    /// Compression failed on an I/O error; the message is dropped with an
    /// internal error.
    Failed(Error),
    /// Send the chunks; chunk `k` gets batch id `first_batch_id + k`. The
    /// message is tracked until its chunks complete.
    Send { first_batch_id: u64, chunks: Vec<CompressedChunk> },
}

/// The exporter's counters of exported and failed work.
#[derive(Clone, Copy, PartialEq, Eq, Debug, Structural)]
pub struct ExportStats {
    /// Log rows in chunks that were exported.
    pub successful_row_count: u64,
    /// Chunks that were exported.
    pub successful_batch_count: u64,
    /// Messages acked after all their chunks were exported.
    pub successful_msg_count: u64,
    /// Log rows in chunks whose export failed.
    pub failed_row_count: u64,
    /// Chunks whose export failed.
    pub failed_batch_count: u64,
    /// Messages nacked after one of their chunks failed.
    pub failed_msg_count: u64,
    /// Messages nacked because one log entry was too large for a chunk.
    pub log_entry_too_large_count: u64,
}

/// All counters at zero.
pub open spec fn zero_stats() -> ExportStats {
    ExportStats {
        successful_row_count: 0,
        successful_batch_count: 0,
        successful_msg_count: 0,
        failed_row_count: 0,
        failed_batch_count: 0,
        failed_msg_count: 0,
        log_entry_too_large_count: 0,
    }
}

impl ExportStats {
    /// All counters at zero.
    pub fn new() -> (s: Self)
        ensures
            s == zero_stats(),
    {
        ExportStats {
            successful_row_count: 0,
            successful_batch_count: 0,
            successful_msg_count: 0,
            failed_row_count: 0,
            failed_batch_count: 0,
            failed_msg_count: 0,
            log_entry_too_large_count: 0,
        }
    }
}

/// The payload kept for a message's ack or nack: the message's own payload
/// where its context lets it be returned, else an empty logs payload.
pub open spec fn stored_payload<P>(may_return_payload: bool, payload: P, empty_payload: P) -> P {
    if may_return_payload {
        payload
    } else {
        empty_payload
    }
}

/// The exporter's in-flight state, batch numbering and counters.
pub struct ExportTracker<C, P> {
    /// The messages whose chunks are in flight.
    pub state: AzureMonitorExporterState<C, P>,
    /// The batch id given to the last chunk sent so far (0 before any).
    pub next_batch_id: u64,
    /// Counters of exported and failed work.
    pub stats: ExportStats,
}

impl<C, P> ExportTracker<C, P> {
    /// No message tracked, no chunk sent yet, all counters at zero.
    pub fn new() -> (t: Self)
        ensures
            t.state.pending() == Map::<u64, PendingMessage<C, P>>::empty(),
            t.next_batch_id == 0,
            t.stats == zero_stats(),
    {
        ExportTracker {
            state: AzureMonitorExporterState::new(),
            next_batch_id: 0,
            stats: ExportStats::new(),
        }
    }

    /// Decides what becomes of logs message `msg_id`, transformed into the
    /// JSON `records`. Its ack or nack carries `payload` where
    /// `may_return_payload` (the context's permission to return the payload)
    /// holds, else `empty_payload`.
    ///
    /// No records: nack. An oversized record: nack, counted as a too-large
    /// log entry. Otherwise the records are compressed into chunks, the
    /// message is registered with one pending chunk per chunk, and the chunks
    /// get the next batch ids in order.
    pub fn prepare_logs(
        &mut self,
        context: C,
        payload: P,
        may_return_payload: bool,
        empty_payload: P,
        records: &[Bytes],
        msg_id: u64,
    ) -> (r: LogsDisposition<C, P>)
        requires
            old(self).next_batch_id + records@.len() <= u64::MAX,
            records@.len() > 0 ==> old(self).stats.log_entry_too_large_count < u64::MAX,
        ensures
            (r matches LogsDisposition::Nack { reason: NackReason::NoValidLogEntries, .. }) <==> records@.len() == 0,
            r matches LogsDisposition::Nack { context: c, payload: p, .. } ==> c == context && p
                == stored_payload(may_return_payload, payload, empty_payload),
            r matches LogsDisposition::Nack { reason: NackReason::LogEntryTooLarge, .. } ==> split_runs(
                record_views(records@),
                0,
            ) is None,
            records@.len() > 0 && split_runs(record_views(records@), 0) is Some ==> r is Send,
            records@.len() > 0 && split_runs(record_views(records@), 0) is None ==> (r matches LogsDisposition::Nack {
                reason: NackReason::LogEntryTooLarge,
                ..
            }),
            records@.len() > 0 && has_oversized_record(records@) ==> (r matches LogsDisposition::Nack {
                reason: NackReason::LogEntryTooLarge,
                ..
            }),
            !(r is Failed),
            !(r is Send) ==> final(self).state.pending() == old(self).state.pending()
                && final(self).next_batch_id == old(self).next_batch_id,
            final(self).stats == (if r matches LogsDisposition::Nack { reason: NackReason::LogEntryTooLarge, .. } {
                ExportStats { log_entry_too_large_count: (old(self).stats.log_entry_too_large_count + 1) as u64, ..old(self).stats }
            } else {
                old(self).stats
            }),
            r matches LogsDisposition::Send { first_batch_id, chunks } ==> {
                &&& first_batch_id == old(self).next_batch_id + 1
                &&& final(self).next_batch_id == old(self).next_batch_id + chunks@.len()
                &&& chunks@.len() >= 1
                &&& chunks_follow_split(chunks@, record_views(records@))
                &&& final(self).state.pending() == old(self).state.pending().insert(
                    msg_id,
                    (PendingMessage {
                        context,
                        payload: stored_payload(may_return_payload, payload, empty_payload),
                        pending_chunks: chunks@.len() as u32,
                    }),
                )
            },
    {
        let kept = if may_return_payload {
            payload
        } else {
            empty_payload
        };
        if records.len() == 0 {
            return LogsDisposition::Nack {
                reason: NackReason::NoValidLogEntries,
                context,
                payload: kept,
            };
        }
        let chunks = match compress_and_split(records) {
            Ok(chunks) => chunks,
            Err(Error::LogEntryTooLarge) => {
                self.stats.log_entry_too_large_count = self.stats.log_entry_too_large_count + 1;
                return LogsDisposition::Nack {
                    reason: NackReason::LogEntryTooLarge,
                    context,
                    payload: kept,
                };
            },
            Err(e) => {
                return LogsDisposition::Failed(e);
            },
        };
        proof {
            lemma_chunks_at_most_records(chunks@, record_views(records@));
        }
        let chunk_count = chunks.len() as u32;
        self.state.register(msg_id, context, kept, chunk_count);
        let first_batch_id = self.next_batch_id + 1;
        self.next_batch_id = self.next_batch_id + chunks.len() as u64;
        LogsDisposition::Send { first_batch_id, chunks }
    }

    /// A chunk of message `msg_id` carrying `row_count` log rows was
    /// exported: the rows and the chunk are counted, and when it was the
    /// message's last pending chunk the message is released for an ack and
    /// counted.
    pub fn on_export_success(&mut self, msg_id: u64, row_count: u64) -> (ack: Option<(C, P)>)
        requires
            old(self).stats.successful_row_count + row_count <= u64::MAX,
            old(self).stats.successful_batch_count < u64::MAX,
            success_step(old(self).state.pending(), msg_id).1 is Some
                ==> old(self).stats.successful_msg_count < u64::MAX,
        ensures
            (final(self).state.pending(), ack) == success_step(old(self).state.pending(), msg_id),
            final(self).next_batch_id == old(self).next_batch_id,
            final(self).stats == success_stats(old(self).stats, row_count, ack is Some),
    {
        self.stats.successful_row_count = self.stats.successful_row_count + row_count;
        self.stats.successful_batch_count = self.stats.successful_batch_count + 1;
        let ack = self.state.on_chunk_success(msg_id);
        if ack.is_some() {
            self.stats.successful_msg_count = self.stats.successful_msg_count + 1;
        }
        ack
    }

    /// A chunk of message `msg_id` carrying `row_count` log rows failed: the
    /// rows and the chunk are counted, and a message still tracked is
    /// released for a nack and counted; a message already released gives
    /// nothing, so it is never nacked twice.
    pub fn on_export_failure(&mut self, msg_id: u64, row_count: u64) -> (nack: Option<(C, P)>)
        requires
            old(self).stats.failed_row_count + row_count <= u64::MAX,
            old(self).stats.failed_batch_count < u64::MAX,
            failure_step(old(self).state.pending(), msg_id).1 is Some
                ==> old(self).stats.failed_msg_count < u64::MAX,
        ensures
            (final(self).state.pending(), nack) == failure_step(old(self).state.pending(), msg_id),
            final(self).next_batch_id == old(self).next_batch_id,
            final(self).stats == failure_stats(old(self).stats, row_count, nack is Some),
    {
        self.stats.failed_row_count = self.stats.failed_row_count + row_count;
        self.stats.failed_batch_count = self.stats.failed_batch_count + 1;
        let nack = self.state.on_chunk_failure(msg_id);
        if nack.is_some() {
            self.stats.failed_msg_count = self.stats.failed_msg_count + 1;
        }
        nack
    }

    /// A chunk export of message `msg_id` carrying `row_count` log rows
    /// completed, successfully or not: handled as `on_export_success` or
    /// `on_export_failure`. What is released is acked after a success and
    /// nacked after a failure.
    pub fn on_export_completed(&mut self, msg_id: u64, row_count: u64, succeeded: bool) -> (r: Option<
        (C, P),
    >)
        requires
            succeeded ==> old(self).stats.successful_row_count + row_count <= u64::MAX
                && old(self).stats.successful_batch_count < u64::MAX && (success_step(
                old(self).state.pending(),
                msg_id,
            ).1 is Some ==> old(self).stats.successful_msg_count < u64::MAX),
            !succeeded ==> old(self).stats.failed_row_count + row_count <= u64::MAX
                && old(self).stats.failed_batch_count < u64::MAX && (failure_step(
                old(self).state.pending(),
                msg_id,
            ).1 is Some ==> old(self).stats.failed_msg_count < u64::MAX),
        ensures
            (final(self).state.pending(), final(self).stats, r) == completion_step(
                old(self).state.pending(),
                old(self).stats,
                (ExportOutcome { msg_id, row_count, succeeded }),
            ),
            final(self).next_batch_id == old(self).next_batch_id,
    {
        if succeeded {
            self.on_export_success(msg_id, row_count)
        } else {
            self.on_export_failure(msg_id, row_count)
        }
    }

    /// Shuts down: the chunk exports that completed meanwhile, `completed`,
    /// are handled in order as by `on_export_completed`, then every message
    /// still tracked is drained for a shutdown nack. Returns what each
    /// completion released (to ack after a success, to nack after a failure)
    /// and the drained messages; afterwards no message is tracked.
    pub fn shutdown(&mut self, completed: Vec<ExportOutcome>) -> (r: (Vec<Option<(C, P)>>, Vec<(u64, C, P)>))
        requires
            completion_fits(old(self).stats, total_rows(completed@), completed@.len() as int),
        ensures
            ({
                let after = after_completions(old(self).state.pending(), old(self).stats, completed@);
                &&& r.0@ == after.2
                &&& final(self).stats == after.1
                &&& final(self).state.pending() == Map::<u64, PendingMessage<C, P>>::empty()
                &&& r.1@.len() == after.0.len()
                &&& forall|i: int|
                    0 <= i < r.1@.len() ==> after.0.contains_key(#[trigger] r.1@[i].0)
                        && after.0[r.1@[i].0].context == r.1@[i].1 && after.0[r.1@[i].0].payload
                        == r.1@[i].2
                &&& forall|i: int, j: int|
                    0 <= i < j < r.1@.len() ==> #[trigger] r.1@[i].0 != #[trigger] r.1@[j].0
                &&& forall|k: u64|
                    after.0.contains_key(k) ==> exists|i: int|
                        0 <= i < r.1@.len() && #[trigger] r.1@[i].0 == k
            }),
            final(self).next_batch_id == old(self).next_batch_id,
    {
        let ghost start_pending = self.state.pending();
        let ghost start_stats = self.stats;
        let ghost all = completed@;
        let mut released: Vec<Option<(C, P)>> = Vec::new();
        for outcome in it: completed.into_iter()
            invariant
                it.seq() == all,
                completion_fits(start_stats, total_rows(all), all.len() as int),
                (self.state.pending(), self.stats, released@) == after_completions(
                    start_pending,
                    start_stats,
                    all.take(it.index() as int),
                ),
                self.next_batch_id == old(self).next_batch_id,
        {
            let ghost index = it.index();
            proof {
                lemma_completions_stay_in_bounds(start_stats, start_pending, all, index as int);
                assert(all.take(index + 1).drop_last() =~= all.take(index as int));
                assert(all.take(index + 1).last() == all[index as int]);
            }
            let r = self.on_export_completed(outcome.msg_id, outcome.row_count, outcome.succeeded);
            released.push(r);
        }
        proof {
            assert(all.take(all.len() as int) =~= all);
        }
        let drained = self.state.drain_all();
        (released, drained)
    }
}

/// The chunks of a message to send, each with its batch id: chunk `k` gets
/// batch id `first_batch_id + k`.
pub fn number_chunks(first_batch_id: u64, chunks: Vec<CompressedChunk>) -> (numbered: Vec<
    (u64, CompressedChunk),
>)
    requires
        first_batch_id + chunks@.len() <= u64::MAX + 1,
    ensures
        numbered@.len() == chunks@.len(),
        forall|k: int|
            0 <= k < chunks@.len() ==> #[trigger] numbered@[k].0 == first_batch_id + k && numbered@[k].1
                == chunks@[k],
{
    let ghost all = chunks@;
    let n = chunks.len();
    let mut numbered: Vec<(u64, CompressedChunk)> = Vec::new();
    let mut k: usize = 0;
    for chunk in it: chunks.into_iter()
        invariant
            it.seq() == all,
            all.len() == n,
            first_batch_id + all.len() <= u64::MAX + 1,
            numbered@.len() == it.index(),
            k == it.index(),
            k <= n,
            forall|j: int|
                0 <= j < it.index() ==> #[trigger] numbered@[j].0 == first_batch_id + j && numbered@[j].1
                    == all[j],
    {
        numbered.push((first_batch_id + k as u64, chunk));
        k = k + 1;
    }
    numbered
}

/// Whether the counters `stats` have room for the completed exports
/// `outcomes`, whether they succeed or fail (`completion_fits`).
pub fn completion_room(stats: &ExportStats, outcomes: &Vec<ExportOutcome>) -> (r: bool)
    ensures
        r == completion_fits(*stats, total_rows(outcomes@), outcomes@.len() as int),
{
    let n = outcomes.len();
    let row_room = if stats.successful_row_count < stats.failed_row_count {
        u64::MAX - stats.failed_row_count
    } else {
        u64::MAX - stats.successful_row_count
    };
    let mut rows: u64 = 0;
    let mut i: usize = 0;
    while i < n
        invariant
            n == outcomes@.len(),
            i <= n,
            rows == total_rows(outcomes@.take(i as int)),
            rows <= row_room,
            row_room == u64::MAX - if stats.successful_row_count < stats.failed_row_count {
                stats.failed_row_count
            } else {
                stats.successful_row_count
            },
        decreases n - i,
    {
        let row_count = outcomes[i].row_count;
        proof {
            assert(outcomes@.take(i + 1).drop_last() =~= outcomes@.take(i as int));
            assert(outcomes@.take(i + 1).last() == outcomes@[i as int]);
        }
        if row_count > row_room - rows {
            proof {
                if i + 1 < n {
                    lemma_total_rows_prefix(outcomes@, i + 1);
                } else {
                    assert(outcomes@.take(i + 1) =~= outcomes@);
                }
                lemma_total_rows_nonnegative(outcomes@.take(i + 1));
            }
            return false;
        }
        rows = rows + row_count;
        i = i + 1;
    }
    proof {
        assert(outcomes@.take(n as int) =~= outcomes@);
    }
    let count = n as u128;
    count <= (u64::MAX - stats.successful_batch_count) as u128 && count <= (u64::MAX
        - stats.successful_msg_count) as u128 && count <= (u64::MAX - stats.failed_batch_count) as u128
        && count <= (u64::MAX - stats.failed_msg_count) as u128
}

/// The result of one completed chunk export: the message it belongs to, the
/// log rows it carried, and whether it succeeded.
#[derive(Clone, Copy, PartialEq, Eq, Debug, Structural)]
pub struct ExportOutcome {
    pub msg_id: u64,
    pub row_count: u64,
    pub succeeded: bool,
}

/// The counters after an exported chunk of `row_count` rows; `acked` tells
/// whether it released its message.
pub open spec fn success_stats(stats: ExportStats, row_count: u64, acked: bool) -> ExportStats {
    ExportStats {
        successful_row_count: (stats.successful_row_count + row_count) as u64,
        successful_batch_count: (stats.successful_batch_count + 1) as u64,
        successful_msg_count: (stats.successful_msg_count + if acked {
            1int
        } else {
            0int
        }) as u64,
        ..stats
    }
}

/// The counters after a failed chunk of `row_count` rows; `nacked` tells
/// whether it released its message.
pub open spec fn failure_stats(stats: ExportStats, row_count: u64, nacked: bool) -> ExportStats {
    ExportStats {
        failed_row_count: (stats.failed_row_count + row_count) as u64,
        failed_batch_count: (stats.failed_batch_count + 1) as u64,
        failed_msg_count: (stats.failed_msg_count + if nacked {
            1int
        } else {
            0int
        }) as u64,
        ..stats
    }
}

/// What one completed export does to the tracked messages `m` and the
/// counters, and what it releases.
pub open spec fn completion_step<C, P>(
    m: Map<u64, PendingMessage<C, P>>,
    stats: ExportStats,
    outcome: ExportOutcome,
) -> (Map<u64, PendingMessage<C, P>>, ExportStats, Option<(C, P)>) {
    if outcome.succeeded {
        let (next, r) = success_step(m, outcome.msg_id);
        (next, success_stats(stats, outcome.row_count, r is Some), r)
    } else {
        let (next, r) = failure_step(m, outcome.msg_id);
        (next, failure_stats(stats, outcome.row_count, r is Some), r)
    }
}

/// The tracked messages, the counters, and what each completion released,
/// after the completed exports `outcomes` in order.
pub open spec fn after_completions<C, P>(
    m: Map<u64, PendingMessage<C, P>>,
    stats: ExportStats,
    outcomes: Seq<ExportOutcome>,
) -> (Map<u64, PendingMessage<C, P>>, ExportStats, Seq<Option<(C, P)>>)
    decreases outcomes.len(),
{
    if outcomes.len() == 0 {
        (m, stats, Seq::empty())
    } else {
        let before = after_completions(m, stats, outcomes.drop_last());
        let step = completion_step(before.0, before.1, outcomes.last());
        (step.0, step.1, before.2.push(step.2))
    }
}

/// The log rows of all `outcomes`.
pub open spec fn total_rows(outcomes: Seq<ExportOutcome>) -> int
    decreases outcomes.len(),
{
    if outcomes.len() == 0 {
        0
    } else {
        total_rows(outcomes.drop_last()) + outcomes.last().row_count
    }
}

/// The counters have room for `count` more chunks carrying `rows` rows in
/// all, whether they succeed or fail.
pub open spec fn completion_fits(stats: ExportStats, rows: int, count: int) -> bool {
    &&& stats.successful_row_count + rows <= u64::MAX
    &&& stats.failed_row_count + rows <= u64::MAX
    &&& stats.successful_batch_count + count <= u64::MAX
    &&& stats.successful_msg_count + count <= u64::MAX
    &&& stats.failed_batch_count + count <= u64::MAX
    &&& stats.failed_msg_count + count <= u64::MAX
}

/// Handling the first `k` completions uses up at most their rows and count
/// of the counters' room, so room is left for the rest.
proof fn lemma_completions_stay_in_bounds<C, P>(
    stats: ExportStats,
    m: Map<u64, PendingMessage<C, P>>,
    outcomes: Seq<ExportOutcome>,
    k: int,
)
    requires
        0 <= k < outcomes.len(),
        completion_fits(stats, total_rows(outcomes), outcomes.len() as int),
    ensures
        completion_fits(
            after_completions(m, stats, outcomes.take(k)).1,
            outcomes[k].row_count as int,
            1,
        ),
    decreases outcomes.len(),
{
    lemma_total_rows_prefix(outcomes, k);
    assert(outcomes.take(k).len() == k);
    lemma_completion_counters(stats, m, outcomes.take(k));
}

/// Each counter grows by at most the rows, or the number, of the
/// completions handled.
proof fn lemma_completion_counters<C, P>(
    stats: ExportStats,
    m: Map<u64, PendingMessage<C, P>>,
    outcomes: Seq<ExportOutcome>,
)
    requires
        completion_fits(stats, total_rows(outcomes), outcomes.len() as int),
    ensures
        ({
            let s = after_completions(m, stats, outcomes).1;
            &&& s.successful_row_count <= stats.successful_row_count + total_rows(outcomes)
            &&& s.failed_row_count <= stats.failed_row_count + total_rows(outcomes)
            &&& s.successful_batch_count <= stats.successful_batch_count + outcomes.len()
            &&& s.successful_msg_count <= stats.successful_msg_count + outcomes.len()
            &&& s.failed_batch_count <= stats.failed_batch_count + outcomes.len()
            &&& s.failed_msg_count <= stats.failed_msg_count + outcomes.len()
            &&& s.log_entry_too_large_count == stats.log_entry_too_large_count
        }),
    decreases outcomes.len(),
{
    if outcomes.len() > 0 {
        lemma_total_rows_prefix(outcomes, outcomes.len() - 1);
        assert(outcomes.take(outcomes.len() - 1) =~= outcomes.drop_last());
        lemma_completion_counters(stats, m, outcomes.drop_last());
    }
}

/// The rows of a prefix are at most the rows of the whole, less the rows
/// of the next completion.
proof fn lemma_total_rows_prefix(outcomes: Seq<ExportOutcome>, k: int)
    requires
        0 <= k < outcomes.len(),
    ensures
        total_rows(outcomes.take(k)) + outcomes[k].row_count <= total_rows(outcomes),
        total_rows(outcomes.take(k)) >= 0,
    decreases outcomes.len(),
{
    if k < outcomes.len() - 1 {
        assert(outcomes.drop_last().take(k) =~= outcomes.take(k));
        assert(outcomes.drop_last()[k] == outcomes[k]);
        lemma_total_rows_prefix(outcomes.drop_last(), k);
    } else {
        assert(outcomes.take(k) =~= outcomes.drop_last());
    }
    lemma_total_rows_nonnegative(outcomes.take(k));
}

/// Row totals are never negative.
proof fn lemma_total_rows_nonnegative(outcomes: Seq<ExportOutcome>)
    ensures
        total_rows(outcomes) >= 0,
    decreases outcomes.len(),
{
    if outcomes.len() > 0 {
        lemma_total_rows_nonnegative(outcomes.drop_last());
    }
}

} // verus!
