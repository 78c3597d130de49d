use zerotick::error::Error;
use zerotick::protocol::{
    sanitize_symbol, symbol_to_string, Opcode, QueryMetrics, Tick, BATCH_SIZE, MAX_BATCH_SIZE,
    METRICS_SIZE, PROTOCOL_VERSION, TICK_SIZE,
};

#[test]
fn symbols_are_checked_and_made_capitals() {
    assert_eq!(sanitize_symbol(b"aapl"), Ok(*b"AAPL\0\0\0\0"));
    assert_eq!(sanitize_symbol(b"BRK-B_12"), Ok(*b"BRK-B_12"));
    assert_eq!(sanitize_symbol(b"X\0garbage behind"), Ok(*b"X\0\0\0\0\0\0\0"));
    assert_eq!(sanitize_symbol(b""), Err("Symbol length must be 1-8 chars"));
    assert_eq!(sanitize_symbol(b"\0A"), Err("Symbol length must be 1-8 chars"));
    assert_eq!(sanitize_symbol(b"NINECHARS"), Err("Symbol length must be 1-8 chars"));
    assert_eq!(sanitize_symbol(b"../etc"), Err("Illegal symbol character"));
    assert_eq!(sanitize_symbol("é".as_bytes()), Err("Illegal symbol character"));
}

#[test]
fn symbols_come_back_as_text() {
    for name in ["A", "AAPL", "BRK-B_12"] {
        let symbol = sanitize_symbol(name.as_bytes()).unwrap();
        assert_eq!(symbol_to_string(&symbol), name);
        assert_eq!(sanitize_symbol(&symbol), Ok(symbol));
        assert_eq!(sanitize_symbol(name.to_lowercase().as_bytes()), Ok(symbol));
    }
    assert_eq!(symbol_to_string(&[0; 8]), "");
    assert_eq!(symbol_to_string(&[0xC3, 0xA9, 0, 0, 0, 0, 0, 0]), "é");
    assert_eq!(symbol_to_string(&[0xC3, b'A', 0, 0, 0, 0, 0, 0]), "\u{FFFD}A");
}

#[test]
fn metrics_keep_their_numbers_on_the_wire() {
    let mut m = QueryMetrics::empty();
    m.count = 7;
    m.open = 1.5f64.to_bits();
    m.high = 2;
    m.low = 3;
    m.close = 4;
    m.mean = 5;
    m.variance = 6;
    m.std_dev = 8;
    m.z_score = 9;
    m.upper_bollinger = 10;
    m.lower_bollinger = 11;
    m.max_drawdown = u64::MAX;
    m.sparkline[0] = 77;
    m.sparkline_len = 1;
    let bytes = m.to_bytes();
    assert_eq!(bytes.len(), METRICS_SIZE);
    assert_eq!(&bytes[..8], &7u64.to_le_bytes());
    assert_eq!(&bytes[8..16], &1.5f64.to_le_bytes());
    assert_eq!(&bytes[88..], &[0xff; 8]);
    let back = QueryMetrics::from_bytes(&bytes);
    // The bits travel, whatever they stand for; the small chart does not.
    assert_eq!(back.to_bytes(), bytes);
    assert_eq!((back.open, back.max_drawdown), (1.5f64.to_bits(), u64::MAX));
    assert_eq!((back.sparkline[0], back.sparkline_len), (0, 0));
    m.max_drawdown = 0;
    m.sparkline[0] = 0;
    m.sparkline_len = 0;
    assert_eq!(QueryMetrics::from_bytes(&m.to_bytes()), m);
    let mut reply = [0u8; METRICS_SIZE];
    for (i, byte) in reply.iter_mut().enumerate() {
        *byte = (37 * i + 200) as u8;
    }
    assert_eq!(QueryMetrics::from_bytes(&reply).to_bytes(), reply);
    assert_eq!(QueryMetrics::empty().to_bytes(), [0u8; METRICS_SIZE]);
}

#[test]
fn records_compare_as_doubles_do() {
    let values = [0.0f64, -0.0, 1.0, -1.0, f64::INFINITY, f64::NAN, -f64::NAN];
    for a in values {
        for b in values {
            let x = Tick { timestamp: 1, price_bits: a.to_bits() };
            let y = Tick { timestamp: 1, price_bits: b.to_bits() };
            assert_eq!(x == y, a == b, "{a} {b}");
            let mut m = QueryMetrics::empty();
            let mut n = QueryMetrics::empty();
            m.mean = a.to_bits();
            n.mean = b.to_bits();
            assert_eq!(m == n, a == b, "{a} {b}");
            let mut m = QueryMetrics::empty();
            let mut n = QueryMetrics::empty();
            m.sparkline[49] = a.to_bits();
            n.sparkline[49] = b.to_bits();
            assert_eq!(m == n, a == b, "{a} {b}");
        }
    }
    let early = Tick { timestamp: 1, price_bits: 0 };
    assert!(early != Tick { timestamp: 2, price_bits: 0 });
    let mut counted = QueryMetrics::empty();
    counted.sparkline_len = 1;
    assert!(counted != QueryMetrics::empty());
}

#[test]
fn any_change_of_case_gives_the_same_symbol() {
    for name in ["gOoGl", "GOOGL", "googl", "GoogL"] {
        assert_eq!(sanitize_symbol(name.as_bytes()), Ok(*b"GOOGL\0\0\0"));
    }
    for name in ["a.b", "A.B", "a.B"] {
        assert_eq!(sanitize_symbol(name.as_bytes()), Err("Illegal symbol character"));
    }
}

#[test]
fn opcodes_have_their_bytes() {
    assert_eq!(Opcode::from_u8(0x11), Some(Opcode::IngestBatch));
    assert_eq!(Opcode::from_u8(0x01), Some(Opcode::QuantAnalytics));
    for byte in 0..=255u8 {
        if byte != 0x11 && byte != 0x01 {
            assert_eq!(Opcode::from_u8(byte), None);
        }
    }
    assert_eq!(Opcode::IngestBatch.code(), 0x11);
    assert_eq!(Opcode::QuantAnalytics.code(), 0x01);
}

#[test]
fn sizes_are_fixed() {
    assert_eq!((PROTOCOL_VERSION, TICK_SIZE, METRICS_SIZE), (1, 16, 96));
    assert_eq!((BATCH_SIZE, MAX_BATCH_SIZE), (10_000, 100_000));
}

#[test]
fn every_error_has_its_own_text() {
    let all = [
        Error::InvalidFrameHeader,
        Error::WriteTooWide,
        Error::ReadTooWide,
        Error::EndOfBits,
        Error::TrailingData,
        Error::NonZeroPadding,
        Error::MissingXorWindow,
        Error::InvalidXorWindow,
        Error::UnorderedTicks,
        Error::PartialRecords,
        Error::PayloadLengthMismatch,
        Error::DeltaOverflow,
        Error::TimestampOverflow,
        Error::EndTimestampMismatch,
        Error::LegacyFile,
        Error::UnrecognizedFormat,
        Error::UnorderedFrames,
        Error::FrameLengthOverflow,
        Error::BatchPrecedesTail,
        Error::EndOfFile,
        Error::ZeroRate,
    ];
    for (i, a) in all.iter().enumerate() {
        for b in &all[i + 1..] {
            assert_ne!(a.message(), b.message());
        }
    }
}
