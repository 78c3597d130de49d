use zerotick::compression::{encode_batch, FrameHeader};
use zerotick::engine::{
    compute_metrics_query, find_offset_since, plan_query, resolve_target, trailing_frame_index,
    MetricsQuery, QuantAccumulator, QueryPlan, Sparkline, Spread, StepArith, DAY_MICROS,
    SPREAD_FLOOR,
};
use zerotick::price::{finite, less, not_below, INFINITY, NEG_INFINITY};
use zerotick::protocol::QueryMetrics;
use zerotick::storage::{scan_frame_index, FrameIndexEntry};

fn arith(a: QuantAccumulator, price: u64) -> StepArith {
    let price = f64::from_bits(price);
    let mean = f64::from_bits(a.mean);
    let peak = f64::from_bits(a.peak_price);
    let delta = price - mean;
    let next = mean + delta / ((a.count + 1) as f64);
    StepArith {
        mean: next.to_bits(),
        m2: (f64::from_bits(a.m2) + delta * (price - next)).to_bits(),
        drawdown: ((peak - price) / peak).to_bits(),
    }
}

fn spread(a: QuantAccumulator) -> Spread {
    let divisor = a.count.saturating_sub(1) as f64;
    let variance = a.sample_variance((f64::from_bits(a.m2) / divisor).to_bits());
    let std_dev = f64::from_bits(variance).max(0.0).sqrt();
    let mean = f64::from_bits(a.mean);
    Spread {
        variance,
        std_dev: std_dev.to_bits(),
        z_score: a.z_score(
            std_dev.to_bits(),
            ((f64::from_bits(a.close) - mean) / std_dev).to_bits(),
        ),
        upper_bollinger: (mean + 2.0 * std_dev).to_bits(),
        lower_bollinger: (mean - 2.0 * std_dev).to_bits(),
    }
}

fn statistics(prices: &[f64]) -> QueryMetrics {
    let mut query = MetricsQuery::new(0);
    for price in prices {
        query.take_in(price.to_bits(), &arith);
    }
    query.finish(&spread)
}

fn entry(start_ts: u64, end_ts: u64, count: u32) -> FrameIndexEntry {
    let header = FrameHeader { start_ts, end_ts, count, comp_len: 8 };
    FrameIndexEntry { offset: 0, payload_offset: 24, header }
}

#[test]
fn statistics_of_known_prices() {
    let m = statistics(&[2.0, 4.0, 4.0, 4.0, 5.0, 5.0, 7.0, 9.0]);
    assert_eq!(m.count, 8);
    assert_eq!(f64::from_bits(m.open), 2.0);
    assert_eq!(f64::from_bits(m.high), 9.0);
    assert_eq!(f64::from_bits(m.low), 2.0);
    assert_eq!(f64::from_bits(m.close), 9.0);
    assert_eq!(f64::from_bits(m.mean), 5.0);
    assert!((f64::from_bits(m.variance) - 32.0 / 7.0).abs() < 1e-12);
    assert_eq!(f64::from_bits(m.std_dev), f64::from_bits(m.variance).sqrt());
    assert_eq!(f64::from_bits(m.z_score), 4.0 / f64::from_bits(m.std_dev));
    assert_eq!(f64::from_bits(m.max_drawdown), 0.0);
    assert_eq!(f64::from_bits(m.upper_bollinger), 5.0 + 2.0 * f64::from_bits(m.std_dev));
    assert_eq!(f64::from_bits(m.lower_bollinger), 5.0 - 2.0 * f64::from_bits(m.std_dev));
    assert_eq!(m.sparkline_len, 8);
    assert_eq!(m.sparkline[7], 9.0f64.to_bits());
    assert_eq!(m.sparkline[8], 0);
}

#[test]
fn the_largest_fall_is_a_part_of_the_peak() {
    let m = statistics(&[100.0, 80.0, 120.0, 60.0, 90.0]);
    assert_eq!(f64::from_bits(m.max_drawdown), 0.5);
    assert_eq!(f64::from_bits(m.open), 100.0);
    assert_eq!(f64::from_bits(m.close), 90.0);
    // No fall is counted below a peak that is not positive.
    let m = statistics(&[-1.0, -5.0]);
    assert_eq!(f64::from_bits(m.max_drawdown), 0.0);
}

#[test]
fn one_price_has_no_spread() {
    let m = statistics(&[3.0]);
    assert_eq!((m.count, m.variance, m.std_dev, m.z_score), (1, 0, 0, 0));
    assert_eq!(f64::from_bits(m.upper_bollinger), 3.0);
}

#[test]
fn prices_that_are_no_numbers_are_left_out_but_charted() {
    let m = statistics(&[f64::NAN, 1.0, f64::INFINITY, 3.0, f64::NEG_INFINITY]);
    assert_eq!(m.count, 2);
    assert_eq!(f64::from_bits(m.high), 3.0);
    assert_eq!(f64::from_bits(m.low), 1.0);
    assert_eq!(f64::from_bits(m.mean), 2.0);
    assert_eq!(m.sparkline_len, 5);
    let none = statistics(&[f64::NAN]);
    assert_eq!((none.count, none.high, none.low), (0, 0, 0));
    assert_eq!(none.sparkline_len, 1);
    assert_eq!(statistics(&[]), QueryMetrics::empty());
}

#[test]
fn an_empty_accumulator_has_no_range() {
    let a = QuantAccumulator::default();
    assert_eq!(a, QuantAccumulator::new());
    assert_eq!((a.high, a.low, a.count), (NEG_INFINITY, INFINITY, 0));
    assert_eq!(f64::NEG_INFINITY.to_bits(), NEG_INFINITY);
    assert_eq!(f64::INFINITY.to_bits(), INFINITY);
    assert_eq!(1e-9f64.to_bits(), SPREAD_FLOOR);
    assert_eq!(a.z_score(1e-9f64.to_bits(), 5), 0);
    assert_eq!(a.z_score(1.1e-9f64.to_bits(), 5), 5);
}

#[test]
fn the_small_chart_keeps_the_last_fifty() {
    let mut line = Sparkline::new();
    for i in 0..120u64 {
        line.push(i);
    }
    let mut m = QueryMetrics::empty();
    line.fill(&mut m);
    assert_eq!(m.sparkline_len, 50);
    let expected: Vec<u64> = (70..120).collect();
    assert_eq!(m.sparkline.to_vec(), expected);
}

#[test]
fn prices_compare_as_doubles_do() {
    let values = [
        f64::NEG_INFINITY,
        -1e300,
        -1.0,
        -5e-324,
        -0.0,
        0.0,
        5e-324,
        1.0,
        1e300,
        f64::INFINITY,
        f64::NAN,
        -f64::NAN,
    ];
    for a in values {
        assert_eq!(finite(a.to_bits()), a.is_finite());
        for b in values {
            assert_eq!(less(a.to_bits(), b.to_bits()), a < b, "{a} {b}");
            assert_eq!(not_below(a.to_bits(), b.to_bits()), a >= b, "{a} {b}");
        }
    }
}

#[test]
fn the_first_frame_that_reaches_a_time_is_found() {
    let frames = [entry(1, 5, 1), entry(5, 9, 1), entry(10, 20, 1)];
    assert_eq!(find_offset_since(&frames, 0), 0);
    assert_eq!(find_offset_since(&frames, 5), 0);
    assert_eq!(find_offset_since(&frames, 6), 1);
    assert_eq!(find_offset_since(&frames, 20), 2);
    assert_eq!(find_offset_since(&frames, 21), 3);
    assert_eq!(find_offset_since(&[], 1), 0);
}

#[test]
fn enough_frames_are_taken_from_the_end() {
    let frames = [entry(1, 1, 400), entry(2, 2, 300), entry(3, 3, 200)];
    assert_eq!(trailing_frame_index(&frames, 1), 2);
    assert_eq!(trailing_frame_index(&frames, 200), 2);
    assert_eq!(trailing_frame_index(&frames, 201), 1);
    assert_eq!(trailing_frame_index(&frames, 901), 0);
    assert_eq!(trailing_frame_index(&frames, 0), 2);
    assert_eq!(trailing_frame_index(&frames, u64::MAX), 0);
    assert_eq!(trailing_frame_index(&[], 1), 0);
}

#[test]
fn requested_times_are_resolved() {
    let latest = 1_700_000_000_000_000;
    assert_eq!(resolve_target(0, latest), 0);
    assert_eq!(resolve_target(60_000_000, latest), latest - 60_000_000);
    assert_eq!(resolve_target(DAY_MICROS, latest), latest - DAY_MICROS);
    assert_eq!(resolve_target(DAY_MICROS + 1, latest), DAY_MICROS + 1);
    assert_eq!(resolve_target(latest, latest), latest);
    assert_eq!(resolve_target(latest + 1, latest), latest - 60_000_000);
    assert_eq!(resolve_target(5, 3), 0);
}

#[test]
fn plans_fall_back_to_enough_frames() {
    let frames: Vec<FrameIndexEntry> =
        (0..15).map(|i| entry(1_000 * i, 1_000 * i + 999, 1_000)).collect();
    assert_eq!(plan_query(&frames, 0), Some(QueryPlan { start: 0, floor: 0 }));
    // Three microseconds back lie in the last frame.
    assert_eq!(plan_query(&frames, 3), Some(QueryPlan { start: 5, floor: 0 }));
    assert_eq!(plan_query(&frames, 12_500), Some(QueryPlan { start: 2, floor: 2_499 }));
    assert_eq!(plan_query(&Vec::new(), 3), None);
}

#[test]
fn a_query_of_no_frames_is_empty() {
    let m = compute_metrics_query(&[], &Vec::new(), 0, &arith, &spread).unwrap();
    assert_eq!(m, QueryMetrics::empty());
}

#[test]
fn the_floor_cuts_inside_a_frame() {
    let mut raw = Vec::new();
    for i in 0..100u64 {
        raw.extend_from_slice(&(DAY_MICROS + 10 * i).to_le_bytes());
        raw.extend_from_slice(&(i as f64).to_le_bytes());
    }
    let bytes = encode_batch(&raw).unwrap().bytes;
    let frames = scan_frame_index(&bytes).unwrap();
    let m = compute_metrics_query(&bytes, &frames, DAY_MICROS + 405, &arith, &spread).unwrap();
    assert_eq!(m.count, 59);
    assert_eq!(f64::from_bits(m.open), 41.0);
    assert_eq!(m.sparkline_len, 50);
    assert_eq!(f64::from_bits(m.sparkline[0]), 50.0);
    // The frames can be read one at a time, too.
    let entry = frames[0];
    let mut query = MetricsQuery::new(DAY_MICROS + 405);
    let from = entry.payload_offset as usize;
    let payload = &bytes[from..from + entry.header.comp_len as usize];
    query.read_frame(entry.header, payload, &arith).unwrap();
    assert_eq!(query.finish(&spread), m);
}
