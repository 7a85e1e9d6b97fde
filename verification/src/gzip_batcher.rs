//! Packing pre-serialized JSON records into gzip-compressed JSON arrays of at
//! most 1 MB each.
//!
//! The records of one call are written, in order, into one or more chunks;
//! each chunk decompresses to `[r1,r2,...,rk]` for a run of consecutive
//! records, and the runs of all chunks cover the records exactly once. While
//! a chunk is filled, its size is estimated from the compressed size measured
//! at its last flush, a safety margin for the final block and trailer, and
//! the uncompressed bytes written since (`lemma_chunk_within_budget`); a new
//! chunk is started when a flush shows that the next record would not fit.
//! The finished stream of every chunk is then measured, and a chunk over
//! 1 MB is encoded again with fewer records, so no chunk is larger than 1 MB.
use bytes::Bytes;
use flate2::write::GzEncoder;
use flate2::Compression;
use std::io::Write;
use vstd::prelude::*;

verus! {

/// The compressed size budget of one chunk.
pub const ONE_MB: usize = 1024 * 1024;

/// Bytes kept free in each chunk for the gzip trailer and final block.
pub const GZIP_SAFETY_MARGIN: usize = 30;

/// The largest record accepted: one that could fit alone in a chunk.
pub const MAX_RECORD_LEN: usize = ONE_MB - GZIP_SAFETY_MARGIN;

/// `[`, which opens a JSON array.
pub const OPEN_BRACKET: u8 = 0x5b;

/// `,`, which separates the records of a JSON array.
pub const COMMA: u8 = 0x2c;

/// `]`, which closes a JSON array.
pub const CLOSE_BRACKET: u8 = 0x5d;

/// A byte buffer of the `bytes` crate.
#[verifier::external_type_specification]
#[verifier::external_body]
pub struct ExBytes(Bytes);

/// A gzip stream encoder of `flate2` writing into a growable buffer, at the
/// default compression level. Only the wrappers below touch it.
#[verifier::external_body]
pub struct ChunkEncoder {
    encoder: GzEncoder<Vec<u8>>,
}

/// An I/O error of the standard library.
#[verifier::external_type_specification]
#[verifier::external_body]
pub struct ExIoError(std::io::Error);

/// The bytes a `Bytes` buffer holds.
pub uninterp spec fn bytes_view(b: Bytes) -> Seq<u8>;

/// The calls made on a gzip encoder since it was created, in order: a write
/// of some bytes (`Some`) or a flush (`None`).
pub uninterp spec fn gz_calls(e: ChunkEncoder) -> Seq<Option<Seq<u8>>>;

/// How many compressed bytes a new encoder at the default level has emitted
/// into its buffer after the calls `calls`. The encoder is deterministic, so
/// this depends on the calls alone.
pub uninterp spec fn gz_output_len(calls: Seq<Option<Seq<u8>>>) -> nat;

/// The bytes that decoding the gzip stream `data` yields.
pub uninterp spec fn gunzip(data: Seq<u8>) -> Seq<u8>;

/// The complete gzip stream that a new encoder at the default level yields
/// when finished after the calls `calls`. The encoder is deterministic and
/// writes a fixed header, so this depends on the calls alone.
pub uninterp spec fn gz_stream(calls: Seq<Option<Seq<u8>>>) -> Seq<u8>;

/// The uncompressed bytes written by `calls`: the writes concatenated.
pub open spec fn calls_input(calls: Seq<Option<Seq<u8>>>) -> Seq<u8>
    decreases calls.len(),
{
    if calls.len() == 0 {
        Seq::empty()
    } else {
        match calls.last() {
            Some(bytes) => calls_input(calls.drop_last()) + bytes,
            None => calls_input(calls.drop_last()),
        }
    }
}

/// `Bytes::as_ref`: the bytes of `b`, borrowed as a slice.
#[verifier::external_body]
fn bytes_slice(b: &Bytes) -> (s: &[u8])
    ensures
        s@ == bytes_view(*b),
{
    b.as_ref()
}

/// `Bytes::from(Vec<u8>)`: a buffer holding exactly the bytes of `v`.
#[verifier::external_body]
fn bytes_from_vec(v: Vec<u8>) -> (b: Bytes)
    ensures
        bytes_view(b) == v@,
{
    Bytes::from(v)
}

/// `GzEncoder::new` over an empty buffer of 1 MB capacity, at the default
/// compression level: an encoder on which no call has been made.
#[verifier::external_body]
fn new_encoder() -> (e: ChunkEncoder)
    ensures
        gz_calls(e) == Seq::<Option<Seq<u8>>>::empty(),
{
    ChunkEncoder { encoder: GzEncoder::new(Vec::with_capacity(ONE_MB), Compression::default()) }
}

/// `Write::write_all` on a gzip encoder over a `Vec<u8>`: it succeeds (the
/// buffer never refuses bytes and the deflate backend fails only on misuse),
/// and records the write of `buf`.
#[verifier::external_body]
fn gz_write_all(e: &mut ChunkEncoder, buf: &[u8]) -> (r: Result<(), std::io::Error>)
    ensures
        r is Ok,
        gz_calls(*final(e)) == gz_calls(*old(e)).push(Some(buf@)),
{
    e.encoder.write_all(buf)
}

/// `Write::flush` on a gzip encoder over a `Vec<u8>`: it succeeds, pushing
/// the compressed form of all input so far into the buffer, and records the
/// flush.
#[verifier::external_body]
fn gz_flush(e: &mut ChunkEncoder) -> (r: Result<(), std::io::Error>)
    ensures
        r is Ok,
        gz_calls(*final(e)) == gz_calls(*old(e)).push(None),
{
    e.encoder.flush()
}

/// `GzEncoder::get_ref` followed by `Vec::len`: how many compressed bytes the
/// encoder has emitted so far.
#[verifier::external_body]
fn gz_compressed_len(e: &ChunkEncoder) -> (n: usize)
    ensures
        n == gz_output_len(gz_calls(*e)),
{
    e.encoder.get_ref().len()
}

/// `GzEncoder::finish` over a `Vec<u8>`: it succeeds and returns the buffer,
/// the finished gzip stream of the calls made, which decodes to the bytes
/// written into the encoder.
#[verifier::external_body]
fn gz_finish(e: ChunkEncoder) -> (r: Result<Vec<u8>, std::io::Error>)
    ensures
        r is Ok,
        r matches Ok(v) ==> v@ == gz_stream(gz_calls(e)),
        r matches Ok(v) ==> gunzip(v@) == calls_input(gz_calls(e)),
{
    e.encoder.finish()
}

/// Errors of `compress_and_split`.
#[derive(Debug)]
pub enum Error {
    /// A single record is larger than one chunk can hold.
    LogEntryTooLarge,
    /// Writing a record into the encoder failed.
    BatchPushFailed(std::io::Error),
    /// Completing a chunk failed.
    BatchFinalizeFailed(std::io::Error),
}

/// One gzip-compressed JSON array ready to send.
pub struct CompressedChunk {
    /// The compressed bytes of a complete JSON array `[{...},{...}]`.
    pub compressed_data: Bytes,
    /// Number of records in this chunk.
    pub row_count: usize,
}

/// The byte contents of the records.
pub open spec fn record_views(records: Seq<Bytes>) -> Seq<Seq<u8>> {
    records.map_values(|b: Bytes| bytes_view(b))
}

/// The records separated by commas.
pub open spec fn join_records(records: Seq<Seq<u8>>) -> Seq<u8>
    decreases records.len(),
{
    if records.len() == 0 {
        Seq::empty()
    } else if records.len() == 1 {
        records[0]
    } else {
        join_records(records.drop_last()) + seq![COMMA] + records.last()
    }
}

/// The records as a JSON array: `[`, the records separated by commas, `]`.
pub open spec fn json_array(records: Seq<Seq<u8>>) -> Seq<u8> {
    seq![OPEN_BRACKET] + join_records(records) + seq![CLOSE_BRACKET]
}

/// The number of records held by the first `c` chunks.
pub open spec fn rows_before(chunks: Seq<CompressedChunk>, c: int) -> int
    decreases c,
{
    if c <= 0 {
        0
    } else {
        rows_before(chunks, c - 1) + chunks[c - 1].row_count
    }
}

/// Whether some record is longer than a chunk can hold.
pub open spec fn has_oversized_record(records: Seq<Bytes>) -> bool {
    exists|i: int| 0 <= i < records.len() && bytes_view(#[trigger] records[i]).len() > MAX_RECORD_LEN
}

/// Each chunk decompresses to the JSON array of its run of records, the runs
/// are non-empty and follow one another, and together they hold all records.
pub open spec fn chunks_cover_records(chunks: Seq<CompressedChunk>, records: Seq<Seq<u8>>) -> bool {
    &&& rows_before(chunks, chunks.len() as int) == records.len()
    &&& forall|c: int| 0 <= c < chunks.len() ==> #[trigger] chunks[c].row_count >= 1
    &&& forall|c: int|
        0 <= c < chunks.len() ==> gunzip(bytes_view(#[trigger] chunks[c].compressed_data))
            == json_array(
            records.subrange(rows_before(chunks, c), rows_before(chunks, c) + chunks[c].row_count),
        )
}

/// Splitting never yields more chunks than there are records.
pub proof fn lemma_chunks_at_most_records(chunks: Seq<CompressedChunk>, records: Seq<Seq<u8>>)
    requires
        chunks_cover_records(chunks, records),
    ensures
        chunks.len() <= records.len(),
        records.len() > 0 ==> chunks.len() > 0,
{
    lemma_rows_before_grows(chunks, 0, chunks.len() as int);
}

/// Appending a record to a run adds a comma (unless the run was empty) and
/// the record.
proof fn lemma_join_push(s: Seq<Seq<u8>>, a: int, b: int)
    requires
        0 <= a <= b < s.len(),
    ensures
        join_records(s.subrange(a, b + 1)) == join_records(s.subrange(a, b)) + (if b > a {
            seq![COMMA]
        } else {
            Seq::<u8>::empty()
        }) + s[b],
{
    let t = s.subrange(a, b + 1);
    assert(t.drop_last() =~= s.subrange(a, b));
    assert(t.last() == s[b]);
    if b == a {
        assert(join_records(s.subrange(a, b)) =~= Seq::<u8>::empty());
        assert(join_records(t) =~= Seq::<u8>::empty() + Seq::<u8>::empty() + s[b]);
    }
}

/// `rows_before` only looks at the chunks before `c`.
proof fn lemma_rows_before_prefix(chunks: Seq<CompressedChunk>, more: Seq<CompressedChunk>, c: int)
    requires
        0 <= c <= chunks.len(),
        chunks.len() <= more.len(),
        forall|j: int| 0 <= j < chunks.len() ==> more[j] == chunks[j],
    ensures
        rows_before(more, c) == rows_before(chunks, c),
    decreases c,
{
    if c > 0 {
        lemma_rows_before_prefix(chunks, more, c - 1);
    }
}

/// A chunk being filled: the calls made on its encoder, the records it
/// holds, the uncompressed bytes written since its last flush (or since its
/// opening bracket, if never flushed), and the compressed size measured at
/// its last flush, if there was one.
pub struct ChunkFill {
    pub calls: Seq<Option<Seq<u8>>>,
    pub rows: nat,
    pub since_flush: int,
    pub last_flush: Option<nat>,
}

/// The calls that open a chunk: writing `[`.
pub open spec fn chunk_start_calls() -> Seq<Option<Seq<u8>>> {
    seq![Some(seq![OPEN_BRACKET])]
}

/// A chunk holding nothing but its opening bracket.
pub open spec fn empty_chunk() -> ChunkFill {
    ChunkFill { calls: chunk_start_calls(), rows: 0, since_flush: 0, last_flush: None }
}

/// The room left in a chunk whose encoder has emitted `measured` compressed
/// bytes: what remains of 1 MB after them and the safety margin.
pub open spec fn room_after_flush(measured: nat) -> int {
    if measured + GZIP_SAFETY_MARGIN >= ONE_MB {
        0
    } else {
        ONE_MB - (measured + GZIP_SAFETY_MARGIN)
    }
}

/// The room for uncompressed bytes after the last flush of chunk `f`: the
/// room measured at that flush, or `MAX_RECORD_LEN` before any flush.
pub open spec fn chunk_room(f: ChunkFill) -> int {
    match f.last_flush {
        Some(measured) => room_after_flush(measured),
        None => MAX_RECORD_LEN as int,
    }
}

/// The calls that add `record` to a chunk holding `rows` records: a comma
/// unless it is the first, then the record.
pub open spec fn write_record(calls: Seq<Option<Seq<u8>>>, rows: nat, record: Seq<u8>) -> Seq<
    Option<Seq<u8>>,
> {
    if rows == 0 {
        calls.push(Some(record))
    } else {
        calls.push(Some(seq![COMMA])).push(Some(record))
    }
}

/// Chunk `f` with `record` added, or `None` when the record does not fit.
///
/// A record fits when it (with its comma) fits the room left since the last
/// flush. When it does not, the encoder is flushed and the room is measured
/// anew from the compressed output; the record fits if it fits that room.
pub open spec fn add_to_chunk(f: ChunkFill, record: Seq<u8>) -> Option<ChunkFill> {
    let sep: int = if f.rows == 0 {
        0
    } else {
        1
    };
    if f.since_flush + sep + record.len() <= chunk_room(f) {
        Some(
            ChunkFill {
                calls: write_record(f.calls, f.rows, record),
                rows: f.rows + 1,
                since_flush: f.since_flush + sep + record.len(),
                last_flush: f.last_flush,
            },
        )
    } else {
        let flushed = f.calls.push(None);
        let measured = gz_output_len(flushed);
        if sep + record.len() <= room_after_flush(measured) {
            Some(
                ChunkFill {
                    calls: write_record(flushed, f.rows, record),
                    rows: f.rows + 1,
                    since_flush: sep + record.len(),
                    last_flush: Some(measured),
                },
            )
        } else {
            None
        }
    }
}

/// A chunk filled with `group`, in order, or `None` when some record of the
/// group does not fit.
pub open spec fn fill_chunk(group: Seq<Seq<u8>>) -> Option<ChunkFill>
    decreases group.len(),
{
    if group.len() == 0 {
        Some(empty_chunk())
    } else {
        match fill_chunk(group.drop_last()) {
            Some(f) => add_to_chunk(f, group.last()),
            None => None,
        }
    }
}

/// The records of chunk `c`.
pub open spec fn chunk_group(chunks: Seq<CompressedChunk>, records: Seq<Seq<u8>>, c: int) -> Seq<
    Seq<u8>,
> {
    records.subrange(rows_before(chunks, c), rows_before(chunks, c) + chunks[c].row_count)
}

/// The records of a prefix of a group that fits also fit.
proof fn lemma_fill_chunk_prefix(group: Seq<Seq<u8>>, k: int)
    requires
        fill_chunk(group) is Some,
        0 <= k <= group.len(),
    ensures
        fill_chunk(group.subrange(0, k)) is Some,
    decreases group.len(),
{
    if k == group.len() {
        assert(group.subrange(0, k) =~= group);
    } else {
        assert(group.drop_last().subrange(0, k) =~= group.subrange(0, k));
        lemma_fill_chunk_prefix(group.drop_last(), k);
    }
}

/// Later chunks start later: chunks of at least one record each hold at
/// least one record per chunk between `c` and `d`.
proof fn lemma_rows_before_grows(chunks: Seq<CompressedChunk>, c: int, d: int)
    requires
        0 <= c <= d <= chunks.len(),
        forall|k: int| 0 <= k < chunks.len() ==> #[trigger] chunks[k].row_count >= 1,
    ensures
        rows_before(chunks, c) + (d - c) <= rows_before(chunks, d),
    decreases d - c,
{
    if c < d {
        lemma_rows_before_grows(chunks, c, d - 1);
    }
}

/// The calls that complete the run `group` in a chunk: the calls that fill
/// it, a flush, and `]`.
pub open spec fn run_calls(group: Seq<Seq<u8>>) -> Seq<Option<Seq<u8>>> {
    fill_chunk(group)->0.calls.push(None).push(Some(seq![CLOSE_BRACKET]))
}

/// The finished gzip stream of the chunk holding the run `group`.
pub open spec fn run_stream(group: Seq<Seq<u8>>) -> Seq<u8> {
    gz_stream(run_calls(group))
}

/// Whether the run `group` fits one chunk: it fits the estimated budget as
/// it is filled, and its finished gzip stream is at most 1 MB.
pub open spec fn run_fits(group: Seq<Seq<u8>>) -> bool {
    fill_chunk(group) is Some && run_stream(group).len() <= ONE_MB
}

/// The length of the longest run of at most `e` records from
/// `records[start]` on that fits one chunk; 0 when none does.
pub open spec fn longest_fit(records: Seq<Seq<u8>>, start: int, e: int) -> int
    decreases e,
{
    if e <= 0 {
        0
    } else if run_fits(records.subrange(start, start + e)) {
        e
    } else {
        longest_fit(records, start, e - 1)
    }
}

/// The longest fitting run is no longer than allowed, and does fit.
pub proof fn lemma_longest_fit_range(records: Seq<Seq<u8>>, start: int, e: int)
    ensures
        0 <= longest_fit(records, start, e),
        e >= 0 ==> longest_fit(records, start, e) <= e,
        longest_fit(records, start, e) > 0 ==> run_fits(
            records.subrange(start, start + longest_fit(records, start, e)),
        ),
    decreases e,
{
    if e > 0 {
        lemma_longest_fit_range(records, start, e - 1);
    }
}

/// How the records from `records[start]` on are split into chunks: each
/// chunk takes the longest run that fits, and the next chunk starts after
/// it. The run lengths in order, or `None` when a chunk would have to start
/// with a record that fits no chunk.
pub open spec fn split_runs(records: Seq<Seq<u8>>, start: int) -> Option<Seq<int>>
    decreases records.len() - start,
{
    if start >= records.len() {
        Some(Seq::empty())
    } else {
        let k = longest_fit(records, start, records.len() - start);
        if k <= 0 {
            None
        } else {
            proof {
                lemma_longest_fit_range(records, start, records.len() - start);
            }
            match split_runs(records, start + k) {
                Some(rest) => Some(seq![k] + rest),
                None => None,
            }
        }
    }
}

/// The chunks are the split of `records`: one chunk per run of
/// `split_runs`, each holding its run as its finished gzip stream, which is
/// at most 1 MB and decompresses to the run's JSON array.
pub open spec fn chunks_follow_split(chunks: Seq<CompressedChunk>, records: Seq<Seq<u8>>) -> bool {
    &&& split_runs(records, 0) is Some
    &&& chunks.len() == split_runs(records, 0)->0.len()
    &&& forall|c: int|
        0 <= c < chunks.len() ==> #[trigger] chunks[c].row_count == split_runs(records, 0)->0[c]
    &&& chunks_cover_records(chunks, records)
    &&& forall|c: int|
        0 <= c < chunks.len() ==> bytes_view(#[trigger] chunks[c].compressed_data) == run_stream(
            chunk_group(chunks, records, c),
        )
    &&& forall|c: int|
        0 <= c < chunks.len() ==> bytes_view(#[trigger] chunks[c].compressed_data).len() <= ONE_MB
    &&& forall|c: int| 0 <= c < chunks.len() - 1 ==> #[trigger] closed_when_full(chunks, records, c)
}

/// A chunk refuses a record only when the compressed size measured after a
/// flush of the chunk so far, plus the safety margin, plus the record and
/// its comma, passes 1 MB; when that sum is at most 1 MB the record joins.
/// The uncompressed size alone never closes a chunk.
pub proof fn lemma_record_refused_only_when_measured_full(group: Seq<Seq<u8>>, record: Seq<u8>)
    requires
        fill_chunk(group) is Some,
    ensures
        ({
            let measured = gz_output_len(fill_chunk(group)->0.calls.push(None));
            let sep: int = if group.len() == 0 {
                0
            } else {
                1
            };
            &&& fill_chunk(group.push(record)) is None ==> measured + GZIP_SAFETY_MARGIN + sep
                + record.len() > ONE_MB
            &&& measured + GZIP_SAFETY_MARGIN + sep + record.len() <= ONE_MB ==> fill_chunk(
                group.push(record),
            ) is Some
        }),
{
    lemma_fill_chunk_facts(group);
    assert(group.push(record).drop_last() =~= group);
    assert(group.push(record).last() == record);
}

/// When every record, measured after a flush of the records before it, fits
/// in 1 MB with the safety margin and its comma, all the records fill one
/// chunk.
proof fn lemma_prefixes_fill(records: Seq<Seq<u8>>, j: int)
    requires
        0 <= j <= records.len(),
        forall|k: int|
            0 <= k < records.len() && #[trigger] fill_chunk(records.take(k)) is Some ==> gz_output_len(
                fill_chunk(records.take(k))->0.calls.push(None),
            ) + GZIP_SAFETY_MARGIN + (if k == 0 {
                0int
            } else {
                1int
            }) + records[k].len() <= ONE_MB,
    ensures
        fill_chunk(records.take(j)) is Some,
    decreases j,
{
    if j == 0 {
        assert(records.take(0) =~= Seq::<Seq<u8>>::empty());
    } else {
        lemma_prefixes_fill(records, j - 1);
        let before = records.take(j - 1);
        assert(before.len() == j - 1);
        assert(fill_chunk(before) is Some);
        lemma_record_refused_only_when_measured_full(before, records[j - 1]);
        assert(before.push(records[j - 1]) =~= records.take(j));
    }
}

/// Records all go into one chunk unless the batch compresses past 1 MB: when
/// each record, measured after a flush of the records before it, fits in
/// 1 MB with the safety margin and its comma, and the finished stream of all
/// the records is at most 1 MB, the split is one chunk of all the records.
pub proof fn lemma_one_chunk_unless_past_1mb(records: Seq<Seq<u8>>)
    requires
        records.len() > 0,
        forall|k: int|
            0 <= k < records.len() && #[trigger] fill_chunk(records.take(k)) is Some ==> gz_output_len(
                fill_chunk(records.take(k))->0.calls.push(None),
            ) + GZIP_SAFETY_MARGIN + (if k == 0 {
                0int
            } else {
                1int
            }) + records[k].len() <= ONE_MB,
        fill_chunk(records) is Some ==> run_stream(records).len() <= ONE_MB,
    ensures
        split_runs(records, 0) == Some(seq![records.len() as int]),
{
    lemma_prefixes_fill(records, records.len() as int);
    assert(records.take(records.len() as int) =~= records);
    assert(records.subrange(0, 0 + records.len() as int) =~= records);
    assert(run_fits(records));
    assert(longest_fit(records, 0, records.len() as int) == records.len());
    assert(split_runs(records, records.len() as int) == Some(Seq::<int>::empty()));
    assert(seq![records.len() as int] + Seq::<int>::empty() =~= seq![records.len() as int]);
}

/// The longest fitting run is the longest: no longer run up to the bound
/// fits.
proof fn lemma_longest_fit_is_longest(records: Seq<Seq<u8>>, start: int, e: int)
    ensures
        forall|l: int|
            longest_fit(records, start, e) < l <= e ==> !run_fits(
                #[trigger] records.subrange(start, start + l),
            ),
    decreases e,
{
    if e > 0 {
        lemma_longest_fit_is_longest(records, start, e - 1);
    }
}

/// Chunk `c` was closed only because the record after it did not fit: the
/// compressed size measured after a flush of the chunk, plus the safety
/// margin, the comma and that record, passes 1 MB, or the finished chunk
/// with that record would pass 1 MB.
pub open spec fn closed_when_full(chunks: Seq<CompressedChunk>, records: Seq<Seq<u8>>, c: int) -> bool {
    let group = chunk_group(chunks, records, c);
    let next = records[rows_before(chunks, c) + chunks[c].row_count];
    ||| gz_output_len(fill_chunk(group)->0.calls.push(None)) + GZIP_SAFETY_MARGIN + 1 + next.len()
        > ONE_MB
    ||| run_stream(group.push(next)).len() > ONE_MB
}

/// Every record of a run that fits the estimated budget fits alone.
proof fn lemma_fill_chunk_records_bounded(group: Seq<Seq<u8>>)
    requires
        fill_chunk(group) is Some,
    ensures
        forall|j: int| 0 <= j < group.len() ==> (#[trigger] group[j]).len() <= MAX_RECORD_LEN,
    decreases group.len(),
{
    if group.len() > 0 {
        lemma_fill_chunk_records_bounded(group.drop_last());
        lemma_fill_chunk_facts(group.drop_last());
        assert forall|j: int| 0 <= j < group.len() implies (#[trigger] group[j]).len() <= MAX_RECORD_LEN by {
            if j < group.len() - 1 {
                assert(group.drop_last()[j] == group[j]);
            }
        }
    }
}

/// A record longer than `MAX_RECORD_LEN` fits no chunk, so no split of the
/// records before and including it exists.
pub proof fn lemma_oversized_record_blocks_split(records: Seq<Seq<u8>>, start: int, i: int)
    requires
        0 <= start <= i < records.len(),
        records[i].len() > MAX_RECORD_LEN,
    ensures
        split_runs(records, start) is None,
    decreases records.len() - start,
{
    let k = longest_fit(records, start, records.len() - start);
    lemma_longest_fit_range(records, start, records.len() - start);
    if k > 0 {
        let run = records.subrange(start, start + k);
        lemma_fill_chunk_records_bounded(run);
        if i < start + k {
            assert(run[i - start] == records[i]);
        }
        lemma_oversized_record_blocks_split(records, start + k, i);
    }
}

/// Runs that do not fit are skipped over when looking for the longest one.
proof fn lemma_longest_fit_skip(records: Seq<Seq<u8>>, start: int, lo: int, hi: int)
    requires
        0 <= lo <= hi,
        forall|e: int| lo < e <= hi ==> !run_fits(#[trigger] records.subrange(start, start + e)),
    ensures
        longest_fit(records, start, hi) == longest_fit(records, start, lo),
    decreases hi - lo,
{
    if lo < hi {
        assert(!run_fits(records.subrange(start, start + hi)));
        lemma_longest_fit_skip(records, start, lo, hi - 1);
    }
}

/// When the run of `k + 1` records does not fit the estimate, no longer run
/// does.
proof fn lemma_longer_runs_do_not_fit(records: Seq<Seq<u8>>, start: int, k: int, hi: int)
    requires
        0 <= start,
        0 <= k,
        start + hi <= records.len(),
        fill_chunk(records.subrange(start, start + k + 1)) is None,
    ensures
        forall|e: int| k < e <= hi ==> !run_fits(#[trigger] records.subrange(start, start + e)),
{
    assert forall|e: int| k < e <= hi implies !run_fits(#[trigger] records.subrange(start, start + e)) by {
        let run = records.subrange(start, start + e);
        if fill_chunk(run) is Some {
            lemma_fill_chunk_prefix(run, k + 1);
            assert(run.subrange(0, k + 1) =~= records.subrange(start, start + k + 1));
        }
    }
}

/// The compressed size the encoder had emitted at the last flush among
/// `calls`, if any call was a flush.
pub open spec fn size_at_last_flush(calls: Seq<Option<Seq<u8>>>) -> Option<nat>
    decreases calls.len(),
{
    if calls.len() == 0 {
        None
    } else {
        match calls.last() {
            None => Some(gz_output_len(calls)),
            Some(_) => size_at_last_flush(calls.drop_last()),
        }
    }
}

/// The uncompressed bytes written after the last flush among `calls` (all
/// bytes written, if there was no flush).
pub open spec fn written_since_last_flush(calls: Seq<Option<Seq<u8>>>) -> Seq<u8>
    decreases calls.len(),
{
    if calls.len() == 0 {
        Seq::empty()
    } else {
        match calls.last() {
            None => Seq::empty(),
            Some(bytes) => written_since_last_flush(calls.drop_last()) + bytes,
        }
    }
}

/// One more call: a flush measures the output and resets the bytes written
/// since; a write adds its bytes.
proof fn lemma_flush_tracking_push(calls: Seq<Option<Seq<u8>>>, call: Option<Seq<u8>>)
    ensures
        size_at_last_flush(calls.push(call)) == match call {
            None => Some(gz_output_len(calls.push(call))),
            Some(_) => size_at_last_flush(calls),
        },
        written_since_last_flush(calls.push(call)) == match call {
            None => Seq::<u8>::empty(),
            Some(bytes) => written_since_last_flush(calls) + bytes,
        },
{
    assert(calls.push(call).drop_last() =~= calls);
}

/// A filled chunk stays within its compressed budget, as estimated: when its
/// encoder was flushed, the compressed size measured at the last flush, plus
/// the safety margin, plus the uncompressed bytes written since, is at most
/// 1 MB; when it never was, everything written (the opening bracket, the
/// records and their commas) takes at most `MAX_RECORD_LEN + 1` bytes. Its
/// encoder received `[` and the records joined by commas.
pub proof fn lemma_chunk_within_budget(group: Seq<Seq<u8>>)
    requires
        fill_chunk(group) is Some,
    ensures
        ({
            let calls = fill_chunk(group)->0.calls;
            &&& calls_input(calls) == seq![OPEN_BRACKET] + join_records(group)
            &&& match size_at_last_flush(calls) {
                Some(measured) => measured + GZIP_SAFETY_MARGIN + written_since_last_flush(calls).len()
                    <= ONE_MB,
                None => written_since_last_flush(calls).len() <= MAX_RECORD_LEN + 1,
            }
        }),
{
    lemma_fill_chunk_facts(group);
}

/// The facts of `lemma_chunk_within_budget`, with the bookkeeping that
/// carries them from one record to the next.
proof fn lemma_fill_chunk_facts(group: Seq<Seq<u8>>)
    requires
        fill_chunk(group) is Some,
    ensures
        ({
            let f = fill_chunk(group)->0;
            &&& f.rows == group.len()
            &&& calls_input(f.calls) == seq![OPEN_BRACKET] + join_records(group)
            &&& f.rows == 0 ==> f.since_flush == 0 && f.last_flush is None
            &&& 0 <= f.since_flush <= chunk_room(f)
            &&& f.last_flush is None ==> f.since_flush == join_records(group).len()
            &&& f.last_flush is Some ==> f.since_flush >= 1
            &&& f.last_flush matches Some(measured) ==> measured + GZIP_SAFETY_MARGIN + f.since_flush
                <= ONE_MB
            &&& f.last_flush == size_at_last_flush(f.calls)
            &&& written_since_last_flush(f.calls).len() == f.since_flush + if f.last_flush is None {
                1int
            } else {
                0int
            }
        }),
    decreases group.len(),
{
    if group.len() == 0 {
        lemma_calls_input_push(Seq::<Option<Seq<u8>>>::empty(), Some(seq![OPEN_BRACKET]));
        lemma_flush_tracking_push(Seq::<Option<Seq<u8>>>::empty(), Some(seq![OPEN_BRACKET]));
        assert(chunk_start_calls() =~= Seq::<Option<Seq<u8>>>::empty().push(Some(seq![OPEN_BRACKET])));
        assert(calls_input(chunk_start_calls()) =~= seq![OPEN_BRACKET] + join_records(group));
    } else {
        let prefix = group.drop_last();
        let record = group.last();
        lemma_fill_chunk_facts(prefix);
        let f = fill_chunk(prefix)->0;
        let n = prefix.len() as int;
        lemma_join_push(group, 0, n);
        assert(group.subrange(0, n + 1) =~= group);
        assert(group.subrange(0, n) =~= prefix);
        assert(group[n] == record);
        let flushed = f.calls.push(None);
        let base = if f.since_flush + (if f.rows == 0 { 0int } else { 1int }) + record.len()
            <= chunk_room(f) {
            f.calls
        } else {
            flushed
        };
        lemma_calls_input_push(f.calls, None);
        lemma_flush_tracking_push(f.calls, None);
        if f.rows == 0 {
            lemma_calls_input_push(base, Some(record));
            lemma_flush_tracking_push(base, Some(record));
        } else {
            lemma_calls_input_push(base, Some(seq![COMMA]));
            lemma_calls_input_push(base.push(Some(seq![COMMA])), Some(record));
            lemma_flush_tracking_push(base, Some(seq![COMMA]));
            lemma_flush_tracking_push(base.push(Some(seq![COMMA])), Some(record));
        }
        assert(calls_input(fill_chunk(group)->0.calls) =~= seq![OPEN_BRACKET] + join_records(group));
    }
}

/// The single byte `b` as a one-byte array.
fn one_byte(b: u8) -> (a: [u8; 1])
    ensures
        a@ == seq![b],
{
    let a = [b];
    assert(a@ =~= seq![b]);
    a
}

/// Recording a write appends its bytes to the input; a flush adds none.
proof fn lemma_calls_input_push(calls: Seq<Option<Seq<u8>>>, call: Option<Seq<u8>>)
    ensures
        calls_input(calls.push(call)) == match call {
            Some(bytes) => calls_input(calls) + bytes,
            None => calls_input(calls),
        },
{
    assert(calls.push(call).drop_last() =~= calls);
}

/// Encodes a run of records from `records[start]` on, before `limit`:
/// records join the run in order while they fit the estimated budget
/// (`add_to_chunk`); the run is then flushed, closed with `]` and finished.
/// Returns where the run ends and its gzip stream.
fn encode_run(records: &[Bytes], start: usize, limit: usize) -> (r: Result<(usize, Vec<u8>), Error>)
    requires
        start < limit <= records@.len(),
        bytes_view(records@[start as int]).len() <= MAX_RECORD_LEN,
    ensures
        r is Ok,
        r matches Ok((end, data)) ==> {
            let run = record_views(records@).subrange(start as int, end as int);
            &&& start < end <= limit
            &&& fill_chunk(run) is Some
            &&& end < limit ==> fill_chunk(record_views(records@).subrange(start as int, end + 1)) is None
            &&& data@ == run_stream(run)
            &&& gunzip(data@) == json_array(run)
        },
{
    let ghost views = record_views(records@);
    let mut encoder = new_encoder();
    match gz_write_all(&mut encoder, one_byte(OPEN_BRACKET).as_slice()) {
        Ok(()) => {},
        Err(e) => {
            return Err(Error::BatchPushFailed(e));
        },
    }
    proof {
        assert(views.subrange(start as int, start as int) =~= Seq::<Seq<u8>>::empty());
        assert(gz_calls(encoder) =~~= chunk_start_calls());
    }
    let mut idx = start;
    let mut row_count: usize = 0;
    // Uncompressed bytes written since the last flush or the opening bracket.
    let mut uncompressed_size: usize = 0;
    // Estimated compressed capacity left in this chunk.
    let mut remaining_size: usize = MAX_RECORD_LEN;
    // Whether the next record did not fit.
    let mut full = false;
    while idx < limit && !full
        invariant
            start <= idx <= limit <= records@.len(),
            views == record_views(records@),
            bytes_view(records@[start as int]).len() <= MAX_RECORD_LEN,
            row_count == idx - start,
            fill_chunk(views.subrange(start as int, idx as int)) is Some,
            uncompressed_size == fill_chunk(views.subrange(start as int, idx as int))->0.since_flush,
            remaining_size == chunk_room(fill_chunk(views.subrange(start as int, idx as int))->0),
            !full ==> gz_calls(encoder) == fill_chunk(views.subrange(start as int, idx as int))->0.calls,
            full ==> gz_calls(encoder) == fill_chunk(views.subrange(start as int, idx as int))->0.calls.push(
                None,
            ),
            full ==> idx < limit && idx > start && fill_chunk(views.subrange(start as int, idx + 1)) is None,
        decreases limit - idx + if full {
            0int
        } else {
            1int
        },
    {
        let ghost fill = fill_chunk(views.subrange(start as int, idx as int))->0;
        proof {
            lemma_fill_chunk_facts(views.subrange(start as int, idx as int));
            assert(views.subrange(start as int, idx + 1).drop_last() =~= views.subrange(
                start as int,
                idx as int,
            ));
            assert(fill_chunk(views.subrange(start as int, idx + 1)) == add_to_chunk(fill, views[idx as int]));
        }
        let record = bytes_slice(&records[idx]);
        assert(record@ == views[idx as int]);
        let separator_len: usize = if row_count == 0 {
            0
        } else {
            1
        };
        let mut fits = record.len() <= MAX_RECORD_LEN && uncompressed_size + separator_len + record.len()
            <= remaining_size;
        if !fits {
            // Flush to measure the compressed size and see whether this
            // record still fits.
            match gz_flush(&mut encoder) {
                Ok(()) => {},
                Err(e) => {
                    return Err(Error::BatchPushFailed(e));
                },
            }
            let actual_compressed = gz_compressed_len(&encoder);
            let room = if actual_compressed >= ONE_MB - GZIP_SAFETY_MARGIN {
                0
            } else {
                ONE_MB - (actual_compressed + GZIP_SAFETY_MARGIN)
            };
            if record.len() > MAX_RECORD_LEN || separator_len + record.len() > room {
                full = true;
            } else {
                fits = true;
                remaining_size = room;
                uncompressed_size = 0;
            }
        }
        if fits {
            let ghost before = gz_calls(encoder);
            if separator_len == 1 {
                match gz_write_all(&mut encoder, one_byte(COMMA).as_slice()) {
                    Ok(()) => {},
                    Err(e) => {
                        return Err(Error::BatchPushFailed(e));
                    },
                }
            }
            match gz_write_all(&mut encoder, record) {
                Ok(()) => {},
                Err(e) => {
                    return Err(Error::BatchPushFailed(e));
                },
            }
            uncompressed_size = uncompressed_size + separator_len + record.len();
            proof {
                assert(gz_calls(encoder) == write_record(before, fill.rows, record@));
            }
            row_count = row_count + 1;
            idx = idx + 1;
        }
    }
    let ghost run = views.subrange(start as int, idx as int);
    if !full {
        match gz_flush(&mut encoder) {
            Ok(()) => {},
            Err(e) => {
                return Err(Error::BatchFinalizeFailed(e));
            },
        }
    }
    let ghost before_close = gz_calls(encoder);
    match gz_write_all(&mut encoder, one_byte(CLOSE_BRACKET).as_slice()) {
        Ok(()) => {},
        Err(e) => {
            return Err(Error::BatchFinalizeFailed(e));
        },
    }
    let data = match gz_finish(encoder) {
        Ok(v) => v,
        Err(e) => {
            return Err(Error::BatchFinalizeFailed(e));
        },
    };
    proof {
        lemma_fill_chunk_facts(run);
        assert(before_close == fill_chunk(run)->0.calls.push(None));
        lemma_calls_input_push(fill_chunk(run)->0.calls, None);
        lemma_calls_input_push(before_close, Some(seq![CLOSE_BRACKET]));
        assert(gunzip(data@) =~= json_array(run));
    }
    Ok((idx, data))
}

/// Compresses `records` into one or more gzip-compressed JSON arrays, each
/// at most 1 MB compressed.
///
/// The records are split in order into runs (`split_runs`): each chunk holds
/// the longest run from its first record on that fits the chunk, as
/// estimated while it is filled (`fill_chunk`, `lemma_chunk_within_budget`)
/// and as measured on its finished stream. A run whose finished stream is
/// over 1 MB is encoded again one record shorter. An empty input gives no
/// chunks. When a chunk would have to start with a record that fits no
/// chunk (a record longer than `MAX_RECORD_LEN`, or one whose chunk alone
/// compresses to more than 1 MB), the whole call fails with
/// `Error::LogEntryTooLarge` and produces no output.
pub fn compress_and_split(records: &[Bytes]) -> (r: Result<Vec<CompressedChunk>, Error>)
    ensures
        records@.len() == 0 ==> (r matches Ok(chunks) && chunks@.len() == 0),
        r is Ok <==> split_runs(record_views(records@), 0) is Some,
        r is Err ==> (r matches Err(Error::LogEntryTooLarge)),
        has_oversized_record(records@) ==> (r matches Err(Error::LogEntryTooLarge)),
        r matches Ok(chunks) ==> chunks_follow_split(chunks@, record_views(records@)),
        r matches Ok(chunks) ==> forall|c: int|
            0 <= c < chunks@.len() ==> bytes_view(#[trigger] chunks@[c].compressed_data).len() <= ONE_MB,
{
    let ghost views = record_views(records@);
    let n = records.len();
    proof {
        if has_oversized_record(records@) {
            let i = choose|i: int|
                0 <= i < records@.len() && bytes_view(#[trigger] records@[i]).len() > MAX_RECORD_LEN;
            lemma_oversized_record_blocks_split(views, 0, i);
        }
    }
    let mut chunks: Vec<CompressedChunk> = Vec::new();
    let mut start: usize = 0;
    let ghost mut done: Seq<int> = Seq::empty();
    while start < n
        invariant
            n == records@.len(),
            views == record_views(records@),
            start <= n,
            split_runs(views, 0) == match split_runs(views, start as int) {
                Some(rest) => Some(done + rest),
                None => None::<Seq<int>>,
            },
            done.len() == chunks@.len(),
            forall|c: int| 0 <= c < chunks@.len() ==> #[trigger] chunks@[c].row_count == done[c],
            rows_before(chunks@, chunks@.len() as int) == start,
            forall|c: int| 0 <= c < chunks@.len() ==> #[trigger] chunks@[c].row_count >= 1,
            forall|c: int|
                0 <= c < chunks@.len() ==> gunzip(bytes_view(#[trigger] chunks@[c].compressed_data))
                    == json_array(chunk_group(chunks@, views, c)),
            forall|c: int|
                0 <= c < chunks@.len() ==> bytes_view(#[trigger] chunks@[c].compressed_data) == run_stream(
                    chunk_group(chunks@, views, c),
                ),
            forall|c: int|
                0 <= c < chunks@.len() ==> bytes_view(#[trigger] chunks@[c].compressed_data).len()
                    <= ONE_MB,
            forall|c: int|
                0 <= c < chunks@.len() && rows_before(chunks@, c) + chunks@[c].row_count < n
                    ==> #[trigger] closed_when_full(chunks@, views, c),
        decreases n - start,
    {
        let first = bytes_slice(&records[start]);
        if first.len() > MAX_RECORD_LEN {
            proof {
                lemma_oversized_record_blocks_split(views, start as int, start as int);
            }
            return Err(Error::LogEntryTooLarge);
        }
        let (mut end, mut data) = match encode_run(records, start, n) {
            Ok(run) => run,
            Err(e) => {
                return Err(e);
            },
        };
        proof {
            if end < n {
                lemma_longer_runs_do_not_fit(views, start as int, end - start, n - start);
            }
            lemma_longest_fit_skip(views, start as int, end - start, n - start);
        }
        while data.len() > ONE_MB
            invariant
                n == records@.len(),
                views == record_views(records@),
                start < end <= n,
                bytes_view(records@[start as int]).len() <= MAX_RECORD_LEN,
                fill_chunk(views.subrange(start as int, end as int)) is Some,
                data@ == run_stream(views.subrange(start as int, end as int)),
                gunzip(data@) == json_array(views.subrange(start as int, end as int)),
                longest_fit(views, start as int, n - start) == longest_fit(views, start as int, end - start),
                split_runs(views, 0) == match split_runs(views, start as int) {
                    Some(rest) => Some(done + rest),
                    None => None::<Seq<int>>,
                },
            decreases end - start,
        {
            assert(!run_fits(views.subrange(start as int, end as int)));
            if end - start == 1 {
                proof {
                    assert(views.subrange(start as int, start + 1) == views.subrange(start as int, end as int));
                    assert(longest_fit(views, start as int, 1) == longest_fit(views, start as int, 0));
                    assert(longest_fit(views, start as int, n - start) == 0);
                    assert(split_runs(views, start as int) is None);
                }
                return Err(Error::LogEntryTooLarge);
            }
            proof {
                assert(start + (end - start) == end);
                lemma_longest_fit_skip(views, start as int, end - start - 1, end - start);
                let longer = views.subrange(start as int, end as int);
                lemma_fill_chunk_prefix(longer, end - start - 1);
                assert(longer.subrange(0, end - start - 1) =~= views.subrange(start as int, end - 1));
            }
            end = end - 1;
            let (shorter_end, shorter) = match encode_run(records, start, end) {
                Ok(run) => run,
                Err(e) => {
                    return Err(e);
                },
            };
            proof {
                if shorter_end < end {
                    let whole = views.subrange(start as int, end as int);
                    lemma_fill_chunk_prefix(whole, shorter_end - start + 1);
                    assert(whole.subrange(0, shorter_end - start + 1) =~= views.subrange(
                        start as int,
                        shorter_end + 1,
                    ));
                }
            }
            data = shorter;
        }
        let ghost k = end - start;
        proof {
            assert(start + k == end);
            assert(run_fits(views.subrange(start as int, end as int)));
            if end < n {
                lemma_longest_fit_is_longest(views, start as int, n - start);
                assert(start + (k + 1) == end + 1);
                assert(!run_fits(views.subrange(start as int, end + 1)));
                let group = views.subrange(start as int, end as int);
                lemma_record_refused_only_when_measured_full(group, views[end as int]);
                assert(group.push(views[end as int]) =~= views.subrange(start as int, end + 1));
            }
            assert(longest_fit(views, start as int, n - start) == k);
            assert(split_runs(views, start as int) == match split_runs(views, end as int) {
                Some(rest) => Some(seq![k] + rest),
                None => None::<Seq<int>>,
            });
            if split_runs(views, end as int) is Some {
                let rest = split_runs(views, end as int)->0;
                assert(done + (seq![k] + rest) =~= done.push(k) + rest);
            }
        }
        let ghost before = chunks@;
        chunks.push(CompressedChunk { compressed_data: bytes_from_vec(data), row_count: end - start });
        proof {
            done = done.push(k);
            assert forall|c: int| 0 <= c < before.len() implies rows_before(chunks@, c) == rows_before(
                before,
                c,
            ) by {
                lemma_rows_before_prefix(before, chunks@, c);
            }
            lemma_rows_before_prefix(before, chunks@, before.len() as int);
            let last = before.len() as int;
            assert(chunk_group(chunks@, views, last) =~= views.subrange(start as int, end as int));
            assert forall|c: int| 0 <= c < before.len() implies chunk_group(chunks@, views, c)
                == chunk_group(before, views, c) by {
                assert(chunks@[c] == before[c]);
            }
            assert forall|c: int|
                0 <= c < chunks@.len() && rows_before(chunks@, c) + chunks@[c].row_count < n
                    implies #[trigger] closed_when_full(chunks@, views, c) by {
                if c < last {
                    assert(chunks@[c] == before[c]);
                    assert(chunk_group(chunks@, views, c) == chunk_group(before, views, c));
                    assert(closed_when_full(before, views, c));
                } else {
                    assert(chunks@[c].row_count == k);
                }
            }
        }
        start = end;
    }
    proof {
        assert(done + Seq::<int>::empty() =~= done);
        assert(views.subrange(0, n as int) =~= views);
        assert forall|c: int| 0 <= c < chunks@.len() - 1 implies #[trigger] closed_when_full(
            chunks@,
            views,
            c,
        ) by {
            lemma_rows_before_grows(chunks@, c + 1, chunks@.len() as int);
            assert(rows_before(chunks@, c + 1) == rows_before(chunks@, c) + chunks@[c].row_count);
        }
    }
    Ok(chunks)
}

} // verus!
