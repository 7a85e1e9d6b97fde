use bytes::Bytes;
use flate2::read::GzDecoder;
use otap_logs_export::exporter::{
    completion_room, number_chunks, ExportOutcome, ExportStats, next_token_refresh_delay, route_message, token_refresh_delay, ExportTracker, InboundMessage,
    LogsDisposition, MessageAction, NackReason, PayloadFormat, SignalType, TokenRefreshOutcome,
    NANOS_PER_SEC,
};
use otap_logs_export::gzip_batcher::ONE_MB;
use std::io::Read;

#[test]
fn test_get_next_token_refresh_logic() {
    // A token valid for another 3600 seconds is refreshed 3600 - 295 = 3305
    // seconds from now.
    let remaining = 3600 * NANOS_PER_SEC;
    let delay = token_refresh_delay(remaining);
    let expected = 3305.0;
    let actual = delay as f64 / NANOS_PER_SEC as f64;
    assert!(
        (actual - expected).abs() < 5.0,
        "Expected ~{}, got {}",
        expected,
        actual
    );
    assert_eq!(delay, 3305 * NANOS_PER_SEC);
}

#[test]
fn test_token_refresh_never_sooner_than_minimum() {
    assert_eq!(token_refresh_delay(0), 10 * NANOS_PER_SEC);
    assert_eq!(token_refresh_delay(300 * NANOS_PER_SEC), 10 * NANOS_PER_SEC);
    assert_eq!(token_refresh_delay(305 * NANOS_PER_SEC), 10 * NANOS_PER_SEC);
    assert_eq!(token_refresh_delay(306 * NANOS_PER_SEC), 11 * NANOS_PER_SEC);
}

#[test]
fn test_prepare_logs_without_records_nacks() {
    let mut tracker: ExportTracker<u32, &str> = ExportTracker::new();
    match tracker.prepare_logs(7, "payload", true, "", &[], 1) {
        LogsDisposition::Nack { reason, context, payload } => {
            assert_eq!(reason, NackReason::NoValidLogEntries);
            assert_eq!(context, 7);
            assert_eq!(payload, "payload");
        }
        _ => panic!("expected a nack"),
    }
    assert!(tracker.state.is_empty());
    assert_eq!(tracker.next_batch_id, 0);
}

#[test]
fn test_prepare_logs_oversized_record_nacks() {
    let mut tracker: ExportTracker<u32, &str> = ExportTracker::new();
    let records = vec![Bytes::from(vec![b'x'; ONE_MB])];
    match tracker.prepare_logs(1, "p", true, "", &records, 1) {
        LogsDisposition::Nack { reason, .. } => assert_eq!(reason, NackReason::LogEntryTooLarge),
        _ => panic!("expected a nack"),
    }
    assert!(tracker.state.is_empty());
    assert_eq!(tracker.next_batch_id, 0);
    assert_eq!(tracker.stats.log_entry_too_large_count, 1);
}

#[test]
fn test_prepare_logs_registers_and_numbers_batches() {
    let mut tracker: ExportTracker<u32, &str> = ExportTracker::new();
    let records = vec![Bytes::from_static(b"1"), Bytes::from_static(b"2")];
    match tracker.prepare_logs(1, "first", true, "", &records, 10) {
        LogsDisposition::Send { first_batch_id, chunks } => {
            assert_eq!(first_batch_id, 1);
            assert_eq!(chunks.len(), 1);
            assert_eq!(chunks[0].row_count, 2);
            let mut decoded = String::new();
            let _ = GzDecoder::new(&chunks[0].compressed_data[..])
                .read_to_string(&mut decoded)
                .unwrap();
            assert_eq!(decoded, "[1,2]");
        }
        _ => panic!("expected chunks to send"),
    }
    assert_eq!(tracker.next_batch_id, 1);
    assert_eq!(tracker.state.len(), 1);

    match tracker.prepare_logs(2, "second", true, "", &records, 11) {
        LogsDisposition::Send { first_batch_id, .. } => assert_eq!(first_batch_id, 2),
        _ => panic!("expected chunks to send"),
    }
    assert_eq!(tracker.next_batch_id, 2);

    // The single chunk of message 10 succeeds: it is acked with its payload.
    assert_eq!(tracker.state.on_chunk_success(10), Some((1, "first")));
    // Message 11 fails: nacked once.
    assert_eq!(tracker.state.on_chunk_failure(11), Some((2, "second")));
    assert_eq!(tracker.state.on_chunk_failure(11), None);
    assert!(tracker.state.is_empty());
}

#[test]
fn test_next_token_refresh_delay_after_success_and_failure() {
    assert_eq!(
        next_token_refresh_delay(TokenRefreshOutcome::Refreshed { remaining_nanos: 3600 * NANOS_PER_SEC }),
        3305 * NANOS_PER_SEC
    );
    assert_eq!(next_token_refresh_delay(TokenRefreshOutcome::Failed), 10 * NANOS_PER_SEC);
}

#[test]
fn test_route_message_numbers_data_and_routes_by_signal() {
    let mut msg_id = 0u64;
    let logs = InboundMessage::PData { format: PayloadFormat::OtlpBytes, signal: SignalType::Logs };
    assert_eq!(
        route_message(&mut msg_id, logs),
        MessageAction::ExportLogs { msg_id: 1, format: PayloadFormat::OtlpBytes }
    );
    let metrics = InboundMessage::PData {
        format: PayloadFormat::OtapArrowRecords,
        signal: SignalType::Metrics,
    };
    assert_eq!(
        route_message(&mut msg_id, metrics),
        MessageAction::UnsupportedSignal { format: PayloadFormat::OtapArrowRecords }
    );
    assert_eq!(msg_id, 2);
    assert_eq!(route_message(&mut msg_id, InboundMessage::Other), MessageAction::Ignore);
    assert_eq!(route_message(&mut msg_id, InboundMessage::ReceiveError), MessageAction::ReceiveFailed);
    assert_eq!(msg_id, 2);
    let arrow_logs = InboundMessage::PData {
        format: PayloadFormat::OtapArrowRecords,
        signal: SignalType::Logs,
    };
    assert_eq!(
        route_message(&mut msg_id, arrow_logs),
        MessageAction::ExportLogs { msg_id: 3, format: PayloadFormat::OtapArrowRecords }
    );
}

#[test]
fn test_prepare_logs_keeps_empty_payload_when_it_may_not_be_returned() {
    let mut tracker: ExportTracker<u32, &str> = ExportTracker::new();
    match tracker.prepare_logs(7, "payload", false, "empty", &[], 1) {
        LogsDisposition::Nack { payload, .. } => assert_eq!(payload, "empty"),
        _ => panic!("expected a nack"),
    }
    let big = vec![Bytes::from(vec![b'x'; ONE_MB])];
    match tracker.prepare_logs(7, "payload", false, "empty", &big, 2) {
        LogsDisposition::Nack { reason, payload, .. } => {
            assert_eq!(reason, NackReason::LogEntryTooLarge);
            assert_eq!(payload, "empty");
        }
        _ => panic!("expected a nack"),
    }
    let records = vec![Bytes::from_static(b"{}")];
    match tracker.prepare_logs(7, "payload", false, "empty", &records, 3) {
        LogsDisposition::Send { .. } => {}
        _ => panic!("expected chunks to send"),
    }
    assert_eq!(tracker.on_export_success(3, 1), Some((7, "empty")));
    assert_eq!(tracker.stats.log_entry_too_large_count, 1);
}

#[test]
fn test_handle_export_success_single_chunk() {
    let mut tracker: ExportTracker<u32, &str> = ExportTracker::new();
    tracker.state.register(100, 0, "test", 1);

    // The only chunk succeeds: the message is acked.
    assert_eq!(tracker.on_export_success(100, 10), Some((0, "test")));

    assert_eq!(tracker.stats.successful_batch_count, 1);
    assert_eq!(tracker.stats.successful_msg_count, 1);
    assert_eq!(tracker.stats.successful_row_count, 10);
    assert!(tracker.state.is_empty());
}

#[test]
fn test_handle_export_success_multi_chunk_acks_on_last() {
    let mut tracker: ExportTracker<u32, &str> = ExportTracker::new();
    tracker.state.register(100, 0, "test", 2);

    // First chunk: no ack yet (counter: 2 -> 1).
    assert_eq!(tracker.on_export_success(100, 5), None);
    assert_eq!(tracker.stats.successful_msg_count, 0);
    assert!(!tracker.state.is_empty());

    // Second chunk: ack (counter: 1 -> 0).
    assert_eq!(tracker.on_export_success(100, 5), Some((0, "test")));
    assert_eq!(tracker.stats.successful_msg_count, 1);
    assert!(tracker.state.is_empty());
}

#[test]
fn test_handle_export_failure() {
    let mut tracker: ExportTracker<u32, &str> = ExportTracker::new();
    tracker.state.register(100, 0, "test", 1);

    assert_eq!(tracker.on_export_failure(100, 10), Some((0, "test")));

    assert_eq!(tracker.stats.failed_batch_count, 1);
    assert_eq!(tracker.stats.failed_msg_count, 1);
    assert_eq!(tracker.stats.failed_row_count, 10);
    assert!(tracker.state.is_empty());
}

#[test]
fn test_handle_export_failure_no_double_nack() {
    let mut tracker: ExportTracker<u32, &str> = ExportTracker::new();
    tracker.state.register(100, 0, "test", 2);

    // First failure: nacks the message.
    assert_eq!(tracker.on_export_failure(100, 5), Some((0, "test")));
    assert_eq!(tracker.stats.failed_msg_count, 1);

    // Second failure: the message is gone, no second nack.
    assert_eq!(tracker.on_export_failure(100, 5), None);
    assert_eq!(tracker.stats.failed_msg_count, 1);
    assert_eq!(tracker.stats.failed_batch_count, 2);
    assert_eq!(tracker.stats.failed_row_count, 10);
}

#[test]
fn test_new_tracker_counters_start_at_zero() {
    let tracker: ExportTracker<u32, &str> = ExportTracker::new();
    assert_eq!(tracker.stats, ExportStats::new());
    assert_eq!(tracker.stats.successful_row_count, 0);
    assert_eq!(tracker.stats.failed_msg_count, 0);
}

#[test]
fn test_on_export_completed_dispatches_on_the_outcome() {
    let mut tracker: ExportTracker<u32, &str> = ExportTracker::new();
    tracker.state.register(1, 10, "one", 2);
    tracker.state.register(2, 20, "two", 2);
    assert_eq!(tracker.on_export_completed(1, 3, true), None);
    assert_eq!(tracker.on_export_completed(2, 4, false), Some((20, "two")));
    assert_eq!(tracker.on_export_completed(1, 5, true), Some((10, "one")));
    assert_eq!(tracker.stats.successful_row_count, 8);
    assert_eq!(tracker.stats.successful_batch_count, 2);
    assert_eq!(tracker.stats.successful_msg_count, 1);
    assert_eq!(tracker.stats.failed_row_count, 4);
    assert_eq!(tracker.stats.failed_batch_count, 1);
    assert_eq!(tracker.stats.failed_msg_count, 1);
    assert!(tracker.state.is_empty());
}

#[test]
fn test_shutdown_finalizes_then_drains() {
    let mut tracker: ExportTracker<u32, &str> = ExportTracker::new();
    tracker.state.register(1, 10, "one", 1);
    tracker.state.register(2, 20, "two", 3);
    tracker.state.register(3, 30, "three", 1);
    let completed = vec![
        ExportOutcome { msg_id: 1, row_count: 7, succeeded: true },
        ExportOutcome { msg_id: 2, row_count: 2, succeeded: true },
        ExportOutcome { msg_id: 3, row_count: 1, succeeded: false },
        ExportOutcome { msg_id: 3, row_count: 1, succeeded: false },
    ];
    assert!(completion_room(&tracker.stats, &completed));
    let (released, mut orphaned) = tracker.shutdown(completed);
    assert_eq!(released, vec![Some((10, "one")), None, Some((30, "three")), None]);
    orphaned.sort();
    assert_eq!(orphaned, vec![(2, 20, "two")]);
    assert!(tracker.state.is_empty());
    assert_eq!(tracker.stats.successful_row_count, 9);
    assert_eq!(tracker.stats.successful_msg_count, 1);
    assert_eq!(tracker.stats.failed_batch_count, 2);
    assert_eq!(tracker.stats.failed_msg_count, 1);
}

#[test]
fn test_completion_room_checks_every_counter() {
    let mut stats = ExportStats::new();
    let outcomes = vec![ExportOutcome { msg_id: 1, row_count: 5, succeeded: true }];
    assert!(completion_room(&stats, &outcomes));
    stats.failed_row_count = u64::MAX - 4;
    assert!(!completion_room(&stats, &outcomes));
    stats.failed_row_count = 0;
    stats.failed_msg_count = u64::MAX;
    assert!(!completion_room(&stats, &outcomes));
    assert!(completion_room(&stats, &Vec::new()));
}

#[test]
fn test_number_chunks_gives_consecutive_batch_ids() {
    let mut tracker: ExportTracker<u32, &str> = ExportTracker::new();
    let records: Vec<Bytes> = (0..3).map(|i| Bytes::from(format!("{{\"n\":{}}}", i))).collect();
    match tracker.prepare_logs(1, "p", true, "", &records, 5) {
        LogsDisposition::Send { first_batch_id, chunks } => {
            let numbered = number_chunks(first_batch_id, chunks);
            assert_eq!(numbered.len(), 1);
            assert_eq!(numbered[0].0, 1);
            assert_eq!(numbered[0].1.row_count, 3);
        }
        _ => panic!("expected chunks to send"),
    }
    let numbered = number_chunks(41, Vec::new());
    assert!(numbered.is_empty());
}
