use bytes::Bytes;
use flate2::read::GzDecoder;
use otap_logs_export::gzip_batcher::{
    compress_and_split, CompressedChunk, Error, GZIP_SAFETY_MARGIN, MAX_RECORD_LEN, ONE_MB,
};
use rand::RngExt;
use std::io::Read;

// ==================== Test Helpers ====================

fn generate_data(size: usize) -> Bytes {
    let mut rng = rand::rng();
    let id = rng.random_range(10000..99999);
    let timestamp = rng.random_range(1600000000..1700000000);

    let base = format!(r#"{{"id":{},"ts":{},"msg":""#, id, timestamp);
    let closing = r#""}"#;

    let padding_needed = size.saturating_sub(base.len() + closing.len());
    let padding: String = (0..padding_needed)
        .map(|_| rng.random_range(b'a'..=b'z') as char)
        .collect();

    Bytes::from(format!("{}{}{}", base, padding, closing))
}

fn generate_1kb_data() -> Bytes {
    generate_data(1024)
}

fn decompress(data: &Bytes) -> Vec<u8> {
    let mut decoder = GzDecoder::new(&data[..]);
    let mut decompressed: Vec<u8> = Vec::new();
    let _ = decoder
        .read_to_end(&mut decompressed)
        .expect("Should decompress");
    decompressed
}

fn decompress_and_validate(data: &Bytes) -> String {
    let mut decoder = GzDecoder::new(&data[..]);
    let mut decompressed = String::new();
    let _ = decoder
        .read_to_string(&mut decompressed)
        .expect("Should decompress");

    let trimmed = decompressed.trim();
    assert!(trimmed.starts_with('['), "Should start with [");
    assert!(trimmed.ends_with(']'), "Should end with ]");

    // Remove all whitespace to check for structural issues like [, or ,]
    let no_whitespace: String = decompressed
        .chars()
        .filter(|c| !c.is_whitespace())
        .collect();

    assert!(
        !no_whitespace.contains("[,") && !no_whitespace.contains(",]"),
        "Invalid comma placement found in JSON: {}",
        decompressed
    );

    decompressed
}

fn total_rows(chunks: &[CompressedChunk]) -> f64 {
    chunks.iter().map(|c| c.row_count as f64).sum()
}

// ==================== Basic Functionality Tests ====================

#[test]
fn test_empty_input_returns_empty() {
    let result = compress_and_split(&[]).unwrap();
    assert!(result.is_empty());
}

#[test]
fn test_single_record_produces_one_chunk() {
    let records = vec![generate_1kb_data()];
    let chunks = compress_and_split(&records).unwrap();
    assert_eq!(chunks.len(), 1);
    assert_eq!(chunks[0].row_count as f64, 1.0);
}

#[test]
fn test_multiple_records_fit_in_one_chunk() {
    let records: Vec<Bytes> = (0..10).map(|_| generate_1kb_data()).collect();
    let chunks = compress_and_split(&records).unwrap();
    assert_eq!(chunks.len(), 1);
    assert_eq!(chunks[0].row_count as f64, 10.0);
}

// ==================== Output Format Tests ====================

#[test]
fn test_output_is_valid_gzip_json_array() {
    let records: Vec<Bytes> = (0..10).map(|_| generate_1kb_data()).collect();
    let chunks = compress_and_split(&records).unwrap();
    assert_eq!(chunks.len(), 1);

    let decompressed = decompress_and_validate(&chunks[0].compressed_data);
    let parsed: Vec<serde_json::Value> = serde_json::from_str(&decompressed).unwrap();
    assert_eq!(parsed.len(), 10);
}

#[test]
fn test_no_leading_comma_after_bracket() {
    let records = vec![Bytes::from_static(b"1"), Bytes::from_static(b"2")];
    let chunks = compress_and_split(&records).unwrap();
    let json = decompress_and_validate(&chunks[0].compressed_data);
    assert_eq!(json, "[1,2]");
}

#[test]
fn test_no_trailing_comma_before_bracket() {
    let records = vec![Bytes::from_static(b"1")];
    let chunks = compress_and_split(&records).unwrap();
    let json = decompress_and_validate(&chunks[0].compressed_data);
    assert_eq!(json, "[1]");
}

#[test]
fn test_row_count_accuracy() {
    let records: Vec<Bytes> = (0..42).map(|_| generate_1kb_data()).collect();
    let chunks = compress_and_split(&records).unwrap();
    assert_eq!(total_rows(&chunks), 42.0);
}

// ==================== Error Case Tests ====================

#[test]
fn test_too_large_entry_returns_error() {
    let large = Bytes::from(vec![b'x'; ONE_MB]);
    let result = compress_and_split(&[large]);
    assert!(
        matches!(result, Err(Error::LogEntryTooLarge)),
        "Expected LogEntryTooLarge"
    );
}

#[test]
fn test_just_under_limit_does_not_error() {
    // Exactly at the limit (not >) should not trigger LogEntryTooLarge.
    let at_limit = Bytes::from(vec![b'x'; ONE_MB - GZIP_SAFETY_MARGIN]);
    let result = compress_and_split(&[at_limit]);
    assert!(result.is_ok(), "Should not return error at limit");
}

#[test]
fn test_too_large_in_middle_errors_immediately() {
    // Even if valid records come first, a too-large record causes an error.
    let mut records: Vec<Bytes> = (0..5).map(|_| generate_1kb_data()).collect();
    records.push(Bytes::from(vec![b'x'; ONE_MB]));
    let result = compress_and_split(&records);
    assert!(matches!(result, Err(Error::LogEntryTooLarge)));
}

// ==================== Size Limit / Splitting Tests ====================

#[test]
fn test_chunks_do_not_exceed_1mb_compressed() {
    // Use random (incompressible) bytes in small chunks to fill up to the limit.
    let mut rng = rand::rng();
    let records: Vec<Bytes> = (0..5000)
        .map(|_| {
            let chunk: Vec<u8> = (0..200).map(|_| rng.random()).collect();
            Bytes::from(chunk)
        })
        .collect();

    let chunks = compress_and_split(&records).unwrap();
    for (i, chunk) in chunks.iter().enumerate() {
        assert!(
            chunk.compressed_data.len() <= ONE_MB,
            "Chunk {} compressed size {} exceeds 1MB",
            i,
            chunk.compressed_data.len()
        );
    }
}

#[test]
fn test_split_produces_valid_json_in_each_chunk() {
    // Random bytes force a high compressed size, which triggers splitting:
    // 8000 records of 200 bytes (plus a comma each) are about 1.6 MB.
    let mut rng = rand::rng();
    let records: Vec<Bytes> = (0..8000)
        .map(|_| {
            let chunk: Vec<u8> = (0..200).map(|_| rng.random()).collect();
            Bytes::from(chunk)
        })
        .collect();

    let chunks = compress_and_split(&records).unwrap();
    assert!(
        chunks.len() > 1,
        "Expected at least one split for 8000 incompressible records"
    );

    for chunk in &chunks {
        // Decompress to raw bytes (records are random binary, not valid UTF-8).
        let decompressed = decompress(&chunk.compressed_data);
        // Each chunk must be a JSON array: starts with '[', ends with ']'.
        assert_eq!(decompressed.first(), Some(&b'['), "Should start with [");
        assert_eq!(decompressed.last(), Some(&b']'), "Should end with ]");
        assert!(
            chunk.row_count as f64 > 0.0,
            "Each chunk should have a nonzero row count"
        );
    }
}

#[test]
fn test_row_counts_across_splits_sum_to_total() {
    // 5000 records of 300 bytes (plus a comma each) are about 1.5 MB, above
    // ONE_MB, so this exercises the splitting path while checking counts.
    let mut rng = rand::rng();
    let n = 5000usize;
    let records: Vec<Bytes> = (0..n)
        .map(|_| {
            let chunk: Vec<u8> = (0..300).map(|_| rng.random()).collect();
            Bytes::from(chunk)
        })
        .collect();

    let chunks = compress_and_split(&records).unwrap();
    assert_eq!(total_rows(&chunks), n as f64);
}

#[test]
fn test_all_records_present_after_split() {
    // Use distinguishable records (simple integers) to verify none are dropped.
    let records: Vec<Bytes> = (0..20).map(|i| Bytes::from(format!("{i}"))).collect();
    let chunks = compress_and_split(&records).unwrap();

    let mut all_values: Vec<u64> = Vec::new();
    for chunk in &chunks {
        let mut decoder = GzDecoder::new(&chunk.compressed_data[..]);
        let mut decompressed = String::new();
        let _ = decoder.read_to_string(&mut decompressed).unwrap();
        let parsed: Vec<u64> = serde_json::from_str(&decompressed).unwrap();
        all_values.extend(parsed);
    }

    let expected: Vec<u64> = (0..20).collect();
    assert_eq!(all_values, expected);
}

// ==================== Further cases ====================

#[test]
fn test_max_record_len_is_budget_minus_margin() {
    assert_eq!(MAX_RECORD_LEN, ONE_MB - GZIP_SAFETY_MARGIN);
    assert_eq!(ONE_MB, 1_048_576);
}

#[test]
fn test_one_over_limit_errors() {
    let over = Bytes::from(vec![b'x'; MAX_RECORD_LEN + 1]);
    let result = compress_and_split(&[Bytes::from_static(b"1"), over]);
    assert!(matches!(result, Err(Error::LogEntryTooLarge)));
}

#[test]
fn test_split_chunks_hold_consecutive_runs_in_order() {
    // Numbered incompressible records: after splitting, the decoded chunks,
    // read in order, give back every record once and in order.
    let mut rng = rand::rng();
    let records: Vec<Bytes> = (0..6000u32)
        .map(|i| {
            let mut record = format!("{:06}", i).into_bytes();
            record.extend((0..250).map(|_| rng.random::<u8>()));
            Bytes::from(record)
        })
        .collect();
    let chunks = compress_and_split(&records).unwrap();
    assert!(chunks.len() > 1);

    let mut next = 0usize;
    for chunk in &chunks {
        let decoded = decompress(&chunk.compressed_data);
        let mut expected = vec![b'['];
        for k in 0..chunk.row_count {
            if k > 0 {
                expected.push(b',');
            }
            expected.extend_from_slice(&records[next + k]);
        }
        expected.push(b']');
        assert_eq!(decoded, expected);
        next += chunk.row_count;
    }
    assert_eq!(next, records.len());
}

#[test]
fn test_exact_content_of_single_chunk() {
    let records = vec![
        Bytes::from_static(b"{\"a\":1}"),
        Bytes::from_static(b"{\"b\":2}"),
        Bytes::from_static(b"{\"c\":3}"),
    ];
    let chunks = compress_and_split(&records).unwrap();
    assert_eq!(chunks.len(), 1);
    assert_eq!(chunks[0].row_count, 3);
    assert_eq!(
        decompress(&chunks[0].compressed_data),
        b"[{\"a\":1},{\"b\":2},{\"c\":3}]".to_vec()
    );
}

#[test]
fn test_split_is_the_same_on_every_call() {
    let mut rng = rand::rng();
    let records: Vec<Bytes> = (0..8000)
        .map(|_| {
            let chunk: Vec<u8> = (0..200).map(|_| rng.random()).collect();
            Bytes::from(chunk)
        })
        .collect();
    let first = compress_and_split(&records).unwrap();
    let second = compress_and_split(&records).unwrap();
    assert!(first.len() >= 2);
    assert_eq!(first.len(), second.len());
    for (a, b) in first.iter().zip(second.iter()) {
        assert_eq!(a.row_count, b.row_count);
        assert_eq!(decompress(&a.compressed_data), decompress(&b.compressed_data));
    }
    // Every chunk but the last is full: it was closed because the next
    // record did not fit its budget.
    for chunk in &first[..first.len() - 1] {
        assert!(chunk.compressed_data.len() > ONE_MB / 2);
    }
    for chunk in &first {
        assert!(chunk.compressed_data.len() <= ONE_MB);
    }
}

#[test]
fn test_incompressible_record_at_limit_is_too_large() {
    // A record of MAX_RECORD_LEN random bytes passes the length check but
    // compresses to more than 1 MB: it fits no chunk.
    let mut rng = rand::rng();
    let noise: Vec<u8> = (0..MAX_RECORD_LEN).map(|_| rng.random()).collect();
    let result = compress_and_split(&[Bytes::from_static(b"{}"), Bytes::from(noise)]);
    assert!(matches!(result, Err(Error::LogEntryTooLarge)));
}

#[test]
fn test_chunk_over_limit_is_split_again() {
    // Incompressible records that together come close to 1 MB: every chunk
    // stays within 1 MB and the records come back in order.
    let mut rng = rand::rng();
    let records: Vec<Bytes> = (0..20)
        .map(|_| {
            let chunk: Vec<u8> = (0..52_000).map(|_| rng.random()).collect();
            Bytes::from(chunk)
        })
        .collect();
    let chunks = compress_and_split(&records).unwrap();
    let mut rows = 0;
    for chunk in &chunks {
        assert!(chunk.compressed_data.len() <= ONE_MB);
        assert!(chunk.row_count >= 1);
        rows += chunk.row_count;
    }
    assert_eq!(rows, records.len());
}
