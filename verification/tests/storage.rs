use zerotick::chaos::{garbage, passes, TOTAL_TICKS};
use zerotick::compression::{encode_batch, EncodedBatch, FrameHeader, FRAME_HEADER_SIZE};
use zerotick::engine::{compute_metrics_query, QuantAccumulator, Spread, StepArith};
use zerotick::error::{Error, ErrorKind};
use zerotick::protocol::{sanitize_symbol, QueryMetrics, TICK_SIZE};
use zerotick::storage::{
    join_path, scan_frame_index, FrameIndexEntry, FrameScan, IngestBatchTask, ReadProgress,
    Recovery, StorageEngine,
};
use zerotick::worker::{begin_append, end_append, store_batch, Append};

fn regular_raw_ticks(count: usize, base_ts: u64) -> Vec<u8> {
    let mut raw = Vec::with_capacity(count * TICK_SIZE);
    for index in 0..count {
        let timestamp = base_ts + index as u64;
        let price = 100.0 + index as f64 * 0.0001;
        raw.extend_from_slice(&timestamp.to_le_bytes());
        raw.extend_from_slice(&price.to_le_bytes());
    }
    raw
}

fn arith(a: QuantAccumulator, price: u64) -> StepArith {
    let price = f64::from_bits(price);
    let mean = f64::from_bits(a.mean);
    let peak = f64::from_bits(a.peak_price);
    let delta = price - mean;
    let next = mean + delta / ((a.count + 1) as f64);
    StepArith {
        mean: next.to_bits(),
        m2: (f64::from_bits(a.m2) + delta * (price - next)).to_bits(),
        drawdown: ((peak - price) / peak).to_bits(),
    }
}

fn spread(a: QuantAccumulator) -> Spread {
    let divisor = a.count.saturating_sub(1) as f64;
    let variance = a.sample_variance((f64::from_bits(a.m2) / divisor).to_bits());
    let std_dev = f64::from_bits(variance).max(0.0).sqrt();
    let mean = f64::from_bits(a.mean);
    Spread {
        variance,
        std_dev: std_dev.to_bits(),
        z_score: a.z_score(
            std_dev.to_bits(),
            ((f64::from_bits(a.close) - mean) / std_dev).to_bits(),
        ),
        upper_bollinger: (mean + 2.0 * std_dev).to_bits(),
        lower_bollinger: (mean - 2.0 * std_dev).to_bits(),
    }
}

fn query(bytes: &[u8], since_ts: u64) -> QueryMetrics {
    let frames = scan_frame_index(bytes).unwrap();
    compute_metrics_query(bytes, &frames, since_ts, &arith, &spread).unwrap()
}

/// Repairs a file in memory; how long it is then.
fn repair(file: &mut Vec<u8>, raw_extension: bool) -> Result<u64, Error> {
    let len = StorageEngine::recover_file(file, raw_extension)?;
    file.truncate(len as usize);
    Ok(len)
}

#[test]
fn recovery_truncates_only_the_incomplete_frame_tail() {
    let encoded = encode_batch(&regular_raw_ticks(2_500, 1_000)).unwrap();
    let mut file = encoded.bytes.clone();
    let valid_len = encoded.bytes.len() as u64;
    file.extend_from_slice(&[0xAA; 11]);

    assert_eq!(repair(&mut file, false), Ok(valid_len));
    assert_eq!(file.len() as u64, valid_len);
    assert_eq!(file, encoded.bytes);
}

#[test]
fn recovery_discards_a_torn_first_new_format_header() {
    let mut file = vec![0xAA; TICK_SIZE];
    assert_eq!(repair(&mut file, false), Ok(0));
    assert_eq!(file.len(), 0);
}

#[test]
fn recovery_rejects_legacy_raw_files_without_destroying_them() {
    let raw = regular_raw_ticks(1, 1_000);
    let mut file = raw.clone();
    assert_eq!(repair(&mut file, true).unwrap_err().kind(), ErrorKind::InvalidData);
    assert_eq!(repair(&mut file, true).unwrap_err(), Error::LegacyFile);
    assert_eq!(file.len(), raw.len());
}

#[test]
fn storage_worker_compresses_and_persists_ingest_batches() {
    let mut engine = StorageEngine::new("data");
    let symbol = sanitize_symbol(b"TEST").unwrap();
    let raw = regular_raw_ticks(1_500, 1_700_000_000_000_000);
    let task = IngestBatchTask { symbol, payload: raw.clone() };
    let mut file: Vec<u8> = Vec::new();

    let encoded = encode_batch(&task.payload).unwrap();
    match begin_append(&mut engine, &task.symbol, &encoded, None) {
        Append::Write { slot, offset } => {
            assert_eq!(offset, 0);
            file.extend_from_slice(&encoded.bytes);
            end_append(&mut engine, slot, &encoded, true);
            assert_eq!(engine.frames(slot), &scan_frame_index(&file).unwrap());
        }
        Append::Conflict { .. } => panic!("the partition is empty"),
    }

    let stored_len = file.len() as u64;
    assert!(stored_len < raw.len() as u64);
    assert_eq!(query(&file, 0).count, 1_500);
}

#[test]
fn metrics_query_seeks_frames_and_preserves_fallback() {
    let base_ts = 1_700_000_000_000_000u64;
    let raw = regular_raw_ticks(15_000, base_ts);
    let encoded = encode_batch(&raw).unwrap();
    let file = encoded.bytes;

    let all = query(&file, 0);
    assert_eq!(all.count, 15_000);
    assert_eq!(all.open, 100.0f64.to_bits());

    let exact_window = query(&file, base_ts + 2_000);
    assert_eq!(exact_window.count, 13_000);
    assert_eq!(exact_window.open, (100.0 + 0.2f64).to_bits());

    let boundary_fallback = query(&file, base_ts + 5_500);
    assert_eq!(boundary_fallback.count, 10_000);
    assert_eq!(boundary_fallback.open, (100.0 + 0.5f64).to_bits());

    let fallback = query(&file, base_ts + 14_000);
    assert_eq!(fallback.count, 10_000);
    assert_eq!(fallback.open, (100.0 + 0.5f64).to_bits());
}

#[test]
fn a_file_of_something_else_is_not_touched() {
    let file = vec![0xAA; 64];
    assert_eq!(
        StorageEngine::recover_file(&file, false),
        Err(Error::UnrecognizedFormat)
    );
}

#[test]
fn repair_stops_where_time_runs_backwards() {
    let late = encode_batch(&regular_raw_ticks(10, 1_000)).unwrap().bytes;
    let early = encode_batch(&regular_raw_ticks(10, 10)).unwrap().bytes;
    let mut file = late.clone();
    file.extend_from_slice(&early);
    assert_eq!(repair(&mut file, false), Ok(late.len() as u64));
    assert_eq!(repair(&mut file, false), Ok(late.len() as u64));
}

#[test]
fn a_torn_batch_leaves_its_whole_frames() {
    let before = encode_batch(&regular_raw_ticks(10, 10)).unwrap().bytes;
    let batch = encode_batch(&regular_raw_ticks(2_500, 1_000)).unwrap().bytes;
    let first = FrameHeader::read_at(&batch, 0);
    let first_end = FRAME_HEADER_SIZE + first.comp_len as usize;
    for (written, kept) in [(0, 0), (first_end - 1, 0), (first_end, first_end), (first_end + 30, first_end)] {
        let mut file = before.clone();
        file.extend_from_slice(&batch[..written]);
        assert_eq!(repair(&mut file, false), Ok((before.len() + kept) as u64));
        let count = if kept == 0 { 10 } else { 1_010 };
        assert_eq!(query(&file, 0).count, count);
    }
}

#[test]
fn a_repair_can_go_header_by_header() {
    let encoded = encode_batch(&regular_raw_ticks(1_500, 1_000)).unwrap();
    let mut file = encoded.bytes.clone();
    file.push(1);
    let mut repair = Recovery::new(file.len() as u64, false).unwrap();
    let mut seen = 0;
    while let Some(offset) = repair.next_offset() {
        repair.feed(FrameHeader::read_at(&file, offset as usize)).unwrap();
        seen += 1;
    }
    assert_eq!(seen, 2);
    assert_eq!(repair.finish(), encoded.bytes.len() as u64);
    assert!(matches!(Recovery::new(16, true), Err(Error::LegacyFile)));
    assert!(Recovery::new(16, false).is_ok());
}

#[test]
fn a_scan_reports_what_it_cannot_index() {
    let one = encode_batch(&regular_raw_ticks(10, 1_000)).unwrap().bytes;
    let mut backwards = one.clone();
    backwards.extend_from_slice(&one);
    assert_eq!(scan_frame_index(&backwards), Err(Error::UnorderedFrames));

    let mut invalid = one.clone();
    invalid.extend_from_slice(&[0; FRAME_HEADER_SIZE]);
    assert_eq!(scan_frame_index(&invalid), Err(Error::InvalidFrameHeader));

    let torn = &one[..one.len() - 1];
    assert_eq!(scan_frame_index(torn), Ok(Vec::new()));

    let header = FrameHeader { start_ts: 1, end_ts: 2, count: 1, comp_len: 8 };
    let entry = FrameIndexEntry { offset: 0, payload_offset: 24, header };
    let mut scan = FrameScan::new(60);
    assert_eq!(scan.next_offset(), Some(0));
    scan.feed(header).unwrap();
    assert_eq!(scan.next_offset(), Some(32));
    assert_eq!(scan.feed(FrameHeader { start_ts: 1, ..header }), Err(Error::UnorderedFrames));
    assert_eq!(scan.finish(), vec![entry]);
}

fn stored(engine: &mut StorageEngine, symbol: &[u8; 8], raw: &[u8]) -> Result<u64, Error> {
    let encoded: EncodedBatch = encode_batch(raw)?;
    match begin_append(engine, symbol, &encoded, None) {
        Append::Write { slot, offset } => {
            end_append(engine, slot, &encoded, true);
            Ok(offset)
        }
        Append::Conflict { .. } => Err(Error::BatchPrecedesTail),
    }
}

#[test]
fn batches_go_behind_each_other_and_never_back_in_time() {
    let mut engine = StorageEngine::new("data");
    let symbol = sanitize_symbol(b"test").unwrap();
    let other = sanitize_symbol(b"other").unwrap();
    let first = regular_raw_ticks(10, 1_000);
    let len = encode_batch(&first).unwrap().bytes.len() as u64;
    assert_eq!(stored(&mut engine, &symbol, &first), Ok(0));
    assert!(engine.has_frame_index(&symbol));
    assert!(!engine.has_frame_index(&other));
    // A batch may start when the last one ended.
    assert_eq!(stored(&mut engine, &symbol, &regular_raw_ticks(10, 1_009)), Ok(len));
    assert_eq!(stored(&mut engine, &other, &regular_raw_ticks(1, 5)), Ok(0));
    assert_eq!(
        stored(&mut engine, &symbol, &regular_raw_ticks(10, 1_017)),
        Err(Error::BatchPrecedesTail)
    );
    // The refused batch cost the partition its index.
    assert!(!engine.has_frame_index(&symbol));
    assert!(engine.has_frame_index(&other));
    assert_eq!(Error::BatchPrecedesTail.kind(), ErrorKind::InvalidInput);
}

#[test]
fn a_sequence_of_tasks_stores_what_it_accepts() {
    let mut engine = StorageEngine::new("data");
    let symbol = sanitize_symbol(b"TEST").unwrap();
    let old = encode_batch(&regular_raw_ticks(5, 10)).unwrap().bytes;
    let mut file = old.clone();
    let mut unordered = regular_raw_ticks(1, 500);
    unordered.extend_from_slice(&regular_raw_ticks(1, 499));
    let tasks = [
        (regular_raw_ticks(3, 13), Err(Error::BatchPrecedesTail)),
        (regular_raw_ticks(1_200, 14), Ok(())),
        (vec![1, 2, 3], Err(Error::PartialRecords)),
        (Vec::new(), Err(Error::PartialRecords)),
        (unordered, Err(Error::UnorderedTicks)),
        (regular_raw_ticks(2, 1_213), Ok(())),
        (regular_raw_ticks(2, 1_213), Err(Error::BatchPrecedesTail)),
        (regular_raw_ticks(2, 5_000), Ok(())),
    ];
    let mut expected = old;
    for (payload, outcome) in tasks {
        let task = IngestBatchTask { symbol, payload };
        assert_eq!(store_batch(&mut engine, &mut file, &task), outcome);
        if outcome.is_ok() {
            expected.extend_from_slice(&encode_batch(&task.payload).unwrap().bytes);
        }
        assert_eq!(file, expected);
    }
    assert_eq!(query(&file, 0).count, 5 + 1_200 + 2 + 2);
    let slot = engine.get_frame_index(&symbol, None);
    assert_eq!(engine.frames(slot), &scan_frame_index(&file).unwrap());
}

#[test]
fn a_failed_write_drops_the_index() {
    let mut engine = StorageEngine::new("data");
    let symbol = sanitize_symbol(b"TEST").unwrap();
    let encoded = encode_batch(&regular_raw_ticks(10, 1_000)).unwrap();
    let on_disk = scan_frame_index(&encode_batch(&regular_raw_ticks(5, 1)).unwrap().bytes).unwrap();
    let offset = on_disk[0].payload_offset + on_disk[0].header.comp_len as u64;
    match begin_append(&mut engine, &symbol, &encoded, Some(on_disk)) {
        Append::Write { slot, offset: at } => {
            assert_eq!(at, offset);
            assert!(engine.has_frame_index(&symbol));
            end_append(&mut engine, slot, &encoded, false);
        }
        Append::Conflict { .. } => panic!("the batch is later"),
    }
    assert!(!engine.has_frame_index(&symbol));
}

#[test]
fn each_symbol_has_its_own_partition() {
    let mut engine = StorageEngine::new("./data");
    let a = sanitize_symbol(b"AAPL").unwrap();
    let b = sanitize_symbol(b"MSFT").unwrap();
    let first = engine.partition_lock(&a);
    let second = engine.partition_lock(&b);
    assert_ne!(first, second);
    assert_eq!(engine.partition_lock(&a), first);
    assert_eq!(engine.get_file_path(&a), "./data/AAPL.gts");
    assert_eq!(engine.get_file_path(&b), "./data/MSFT.gts");
    // Not every eight bytes are text.
    assert_eq!(
        engine.get_file_path(&[0xFF, b'A', 0, 0, 0, 0, 0, 0]),
        "./data/\u{FFFD}A.gts"
    );
}

#[test]
fn an_index_is_loaded_once() {
    let mut engine = StorageEngine::new("data");
    let symbol = sanitize_symbol(b"X").unwrap();
    let found = scan_frame_index(&encode_batch(&regular_raw_ticks(5, 1)).unwrap().bytes).unwrap();
    let slot = engine.get_frame_index(&symbol, Some(found.clone()));
    assert_eq!(engine.get_frame_index(&symbol, None), slot);
    assert_eq!(engine.frames(slot), &found);
    engine.forget_index(slot);
    assert_eq!(engine.get_frame_index(&symbol, None), slot);
    assert!(engine.frames(slot).is_empty());
}

#[test]
fn paths_join_as_std_joins_them() {
    for dir in ["", "data", "data/", "/", "./a/b", "//"] {
        for name in ["X.gts", "/abs.gts", "", "a/b"] {
            let expected = std::path::Path::new(dir).join(name);
            assert_eq!(join_path(dir, name), expected.to_str().unwrap());
        }
    }
}

#[test]
fn reads_that_come_in_parts_go_on_where_they_stopped() {
    let mut read = ReadProgress::new(100, 10);
    assert_eq!(read.next(), Some((100, 0)));
    assert_eq!(read.advance(4), Ok(()));
    assert_eq!(read.next(), Some((104, 4)));
    assert_eq!(read.advance(0), Err(Error::EndOfFile));
    assert_eq!(read.advance(6), Ok(()));
    assert_eq!(read.next(), None);
    assert_eq!(Error::EndOfFile.message(), "Unexpected EOF during positional read");
}

#[test]
fn the_self_test_drops_its_garbage() {
    let log = encode_batch(&regular_raw_ticks(1_234, 1)).unwrap().bytes;
    let mut file = log.clone();
    file.extend_from_slice(&garbage());
    assert_eq!(file.len(), log.len() + 11);
    assert_eq!(repair(&mut file, false), Ok(log.len() as u64));
    let mut metrics = QueryMetrics::empty();
    assert!(!passes(5, 5, &metrics));
    metrics.count = TOTAL_TICKS;
    metrics.mean = 1.0f64.to_bits();
    metrics.std_dev = 0.5f64.to_bits();
    assert!(passes(5, 5, &metrics));
    assert!(!passes(5, 6, &metrics));
    metrics.std_dev = 0.0f64.to_bits();
    assert!(!passes(5, 5, &metrics));
    metrics.std_dev = f64::NAN.to_bits();
    assert!(!passes(5, 5, &metrics));
}

#[test]
fn an_index_that_runs_past_the_file_is_an_early_end() {
    let bytes = encode_batch(&regular_raw_ticks(10, 1)).unwrap().bytes;
    let frames = scan_frame_index(&bytes).unwrap();
    let cut = &bytes[..bytes.len() - 1];
    assert_eq!(
        compute_metrics_query(cut, &frames, 0, &arith, &spread).unwrap_err(),
        Error::EndOfFile
    );
    assert_eq!(Error::EndOfFile.kind(), ErrorKind::UnexpectedEof);
}

#[test]
fn a_scan_moves_on_by_whole_frames() {
    let header = FrameHeader { start_ts: 2, end_ts: 2, count: 1_000, comp_len: 24_016 };
    let mut scan = FrameScan::new(u64::MAX);
    for _ in 0..3 {
        assert_eq!(scan.feed(header), Ok(()));
    }
    assert_eq!(scan.next_offset(), Some(3 * (24 + 24_016)));
    assert_eq!(Error::FrameLengthOverflow.kind(), ErrorKind::InvalidData);
}
