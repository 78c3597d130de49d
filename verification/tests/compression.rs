use zerotick::bits::{BitReader, BitWriter};
use zerotick::compression::{
    decode_frame, encode_batch, validate_header, FrameHeader, FRAME_HEADER_SIZE, FRAME_TICK_COUNT,
};
use zerotick::error::{Error, ErrorKind};
use zerotick::gorilla::{read_delta_of_delta, read_xor, write_delta_of_delta, write_xor};
use zerotick::protocol::Tick;

fn decode_batch(bytes: &[u8]) -> Vec<(u64, u64)> {
    let mut offset = 0usize;
    let mut decoded = Vec::new();
    while offset < bytes.len() {
        let header_bytes: [u8; FRAME_HEADER_SIZE] =
            bytes[offset..offset + FRAME_HEADER_SIZE].try_into().unwrap();
        let header = FrameHeader::from_bytes(&header_bytes);
        offset += FRAME_HEADER_SIZE;
        let payload_end = offset + header.comp_len as usize;
        let mut ticks = Vec::new();
        decode_frame(header, &bytes[offset..payload_end], &mut ticks).unwrap();
        for tick in ticks {
            decoded.push((tick.timestamp, tick.price_bits));
        }
        offset = payload_end;
    }
    decoded
}

fn raw_of(ticks: &[(u64, f64)]) -> Vec<u8> {
    let mut raw = Vec::new();
    for (timestamp, price) in ticks {
        raw.extend_from_slice(&timestamp.to_le_bytes());
        raw.extend_from_slice(&price.to_le_bytes());
    }
    raw
}

/// The header and the payload of the first frame of a batch.
fn first_frame(ticks: &[(u64, f64)]) -> (FrameHeader, Vec<u8>) {
    let encoded = encode_batch(&raw_of(ticks)).unwrap();
    let header_bytes: [u8; FRAME_HEADER_SIZE] =
        encoded.bytes[..FRAME_HEADER_SIZE].try_into().unwrap();
    let header = FrameHeader::from_bytes(&header_bytes);
    let end = FRAME_HEADER_SIZE + header.comp_len as usize;
    (header, encoded.bytes[FRAME_HEADER_SIZE..end].to_vec())
}

#[test]
fn gorilla_frames_round_trip_every_bit() {
    let delta_pattern = [
        3_000u64, 3_000, 3_064, 3_001, 3_257, 3_002, 5_050, 3_003, 1_000_000, 999_999,
    ];
    let mut timestamp = 1_700_000_000_000_000u64;
    let mut raw = Vec::new();
    let mut expected = Vec::new();

    for index in 0..2_505usize {
        if index > 0 {
            timestamp += delta_pattern[index % delta_pattern.len()];
        }
        let price_bits = match index % 7 {
            0 => 100.0f64.to_bits(),
            1 => 100.000_001f64.to_bits(),
            2 => (-0.0f64).to_bits(),
            3 => 0.0f64.to_bits(),
            4 => 0x7ff8_0000_0000_0000u64 | index as u64,
            5 => f64::INFINITY.to_bits(),
            _ => (99.5 + index as f64 / 10_000.0).to_bits(),
        };
        raw.extend_from_slice(&timestamp.to_le_bytes());
        raw.extend_from_slice(&price_bits.to_le_bytes());
        expected.push((timestamp, price_bits));
    }

    let encoded = encode_batch(&raw).unwrap();
    assert_eq!(encoded.count, expected.len());
    assert_eq!(decode_batch(&encoded.bytes), expected);
}

#[test]
fn timestamp_escape_round_trips_the_full_u64_delta_domain() {
    let mut raw = Vec::new();
    for (timestamp, price) in [(0u64, 1.0f64), (0, 1.0), (u64::MAX, 2.0), (u64::MAX, 2.0)] {
        raw.extend_from_slice(&timestamp.to_le_bytes());
        raw.extend_from_slice(&price.to_le_bytes());
    }

    let encoded = encode_batch(&raw).unwrap();
    assert_eq!(
        decode_batch(&encoded.bytes),
        vec![
            (0, 1.0f64.to_bits()),
            (0, 1.0f64.to_bits()),
            (u64::MAX, 2.0f64.to_bits()),
            (u64::MAX, 2.0f64.to_bits()),
        ]
    );
}

#[test]
fn a_single_tick_is_its_price_alone() {
    let (header, payload) = first_frame(&[(7, 1.5)]);
    assert_eq!(header, FrameHeader { start_ts: 7, end_ts: 7, count: 1, comp_len: 8 });
    assert_eq!(payload, 1.5f64.to_bits().to_be_bytes().to_vec());
}

#[test]
fn equal_steps_and_prices_take_two_bits_a_tick() {
    let (header, payload) = first_frame(&[(10, 1.0), (20, 1.0), (30, 1.0), (40, 1.0)]);
    // 64 for the price, 64 for the step, one for each price, one for each later step.
    assert_eq!(header.comp_len as usize, (64 + 64 + 1 + 2 * 2 + 7) / 8);
    assert_eq!(&payload[..8], &1.0f64.to_bits().to_be_bytes());
    assert_eq!(&payload[8..16], &10u64.to_be_bytes());
    assert_eq!(payload[16], 0);
}

#[test]
fn batches_split_into_frames_of_a_thousand() {
    let ticks: Vec<(u64, f64)> = (0..2_001).map(|i| (i as u64, i as f64)).collect();
    let encoded = encode_batch(&raw_of(&ticks)).unwrap();
    let mut counts = Vec::new();
    let mut offset = 0usize;
    while offset < encoded.bytes.len() {
        let header = FrameHeader::read_at(&encoded.bytes, offset);
        counts.push(header.count);
        assert_eq!(header.start_ts, 1_000 * (counts.len() as u64 - 1));
        offset += FRAME_HEADER_SIZE + header.comp_len as usize;
    }
    assert_eq!(counts, vec![1_000, 1_000, 1]);
    assert_eq!((encoded.first_ts, encoded.last_ts, encoded.count), (0, 2_000, 2_001));
    assert_eq!(FRAME_TICK_COUNT, 1_000);
}

#[test]
fn malformed_batches_are_refused() {
    assert_eq!(encode_batch(&[]).unwrap_err(), Error::PartialRecords);
    assert_eq!(encode_batch(&[0; 17]).unwrap_err(), Error::PartialRecords);
    let unordered = raw_of(&[(2, 1.0), (1, 1.0)]);
    let error = encode_batch(&unordered).unwrap_err();
    assert_eq!(error, Error::UnorderedTicks);
    assert_eq!(error.kind(), ErrorKind::InvalidInput);
    assert_eq!(error.message(), "Tick timestamps must be nondecreasing");
    // Also across the border of two frames.
    let mut late: Vec<(u64, f64)> = (0..1_000).map(|i| (i as u64, 1.0)).collect();
    late.push((998, 1.0));
    assert_eq!(encode_batch(&raw_of(&late)).unwrap_err(), Error::UnorderedTicks);
}

#[test]
fn headers_keep_their_bytes() {
    let header = FrameHeader { start_ts: 0x0102_0304, end_ts: u64::MAX, count: 7, comp_len: 0x0a0b };
    let bytes = header.to_bytes();
    assert_eq!(&bytes[..8], &0x0102_0304u64.to_le_bytes());
    assert_eq!(&bytes[8..16], &[0xff; 8]);
    assert_eq!(&bytes[16..20], &[7, 0, 0, 0]);
    assert_eq!(&bytes[20..], &[0x0b, 0x0a, 0, 0]);
    assert_eq!(FrameHeader::from_bytes(&bytes), header);
}

#[test]
fn impossible_headers_are_refused() {
    let good = FrameHeader { start_ts: 1, end_ts: 2, count: 2, comp_len: 17 };
    assert_eq!(validate_header(good), Ok(()));
    for bad in [
        FrameHeader { count: 0, ..good },
        FrameHeader { end_ts: 0, ..good },
        FrameHeader { comp_len: 0, ..good },
        FrameHeader { count: FRAME_TICK_COUNT as u32 + 1, ..good },
    ] {
        assert_eq!(validate_header(bad), Err(Error::InvalidFrameHeader));
        assert_eq!(decode_frame(bad, &[0; 17], &mut Vec::new()), Err(Error::InvalidFrameHeader));
    }
    assert_eq!(Error::InvalidFrameHeader.kind(), ErrorKind::InvalidData);
}

#[test]
fn broken_frames_are_refused_but_deliver_what_came_before() {
    let (header, payload) = first_frame(&[(10, 1.0), (20, 1.0), (30, 1.0)]);
    let mut ticks = Vec::new();
    assert_eq!(
        decode_frame(header, &payload[1..], &mut ticks),
        Err(Error::PayloadLengthMismatch)
    );
    assert!(ticks.is_empty());

    let other_end = FrameHeader { end_ts: 31, ..header };
    assert_eq!(
        decode_frame(other_end, &payload, &mut ticks),
        Err(Error::EndTimestampMismatch)
    );
    assert_eq!(ticks.len(), 3);

    ticks.clear();
    let mut padded = payload.clone();
    let last = padded.len() - 1;
    padded[last] |= 1;
    assert_eq!(decode_frame(header, &padded, &mut ticks), Err(Error::NonZeroPadding));

    let mut longer = payload.clone();
    longer.push(0);
    let long_header = FrameHeader { comp_len: header.comp_len + 1, ..header };
    assert_eq!(
        decode_frame(long_header, &longer, &mut Vec::new()),
        Err(Error::TrailingData)
    );

    ticks.clear();
    let short_header = FrameHeader { comp_len: 12, ..header };
    assert_eq!(
        decode_frame(short_header, &payload[..12], &mut ticks),
        Err(Error::EndOfBits)
    );
    assert_eq!(ticks, vec![Tick { timestamp: 10, price_bits: 1.0f64.to_bits() }]);
}

/// A frame made of a first price, bits that follow it, and padding.
fn hand_made(fields: &[(u64, u8)]) -> Vec<u8> {
    let mut writer = BitWriter::new(Vec::new());
    writer.write_bits(1.0f64.to_bits(), 64).unwrap();
    for (value, count) in fields {
        writer.write_bits(*value, *count).unwrap();
    }
    writer.finish().unwrap()
}

fn decode_hand_made(payload: &[u8], header: FrameHeader) -> Result<(), Error> {
    let header = FrameHeader { comp_len: payload.len() as u32, ..header };
    decode_frame(header, payload, &mut Vec::new())
}

#[test]
fn timestamps_that_do_not_fit_are_refused() {
    let two = FrameHeader { start_ts: 10, end_ts: 20, count: 2, comp_len: 0 };
    let far = hand_made(&[(u64::MAX, 64)]);
    assert_eq!(decode_hand_made(&far, two), Err(Error::TimestampOverflow));
    let three = FrameHeader { count: 3, ..two };
    // A first step of 5, the same price, then a step that is smaller by 60.
    let back = hand_made(&[(5, 64), (0, 1), (0b10, 2), (3, 7), (0, 30)]);
    assert_eq!(decode_hand_made(&back, three), Err(Error::DeltaOverflow));
}

#[test]
fn price_windows_are_checked() {
    let two = FrameHeader { start_ts: 10, end_ts: 15, count: 2, comp_len: 0 };
    let missing = hand_made(&[(5, 64), (0b10, 2)]);
    assert_eq!(decode_hand_made(&missing, two), Err(Error::MissingXorWindow));
    let wide = hand_made(&[(5, 64), (0b11, 2), (31, 5), (63, 6), (0, 64)]);
    assert_eq!(decode_hand_made(&wide, two), Err(Error::InvalidXorWindow));
}

#[test]
fn bit_fields_come_back() {
    let mut writer = BitWriter::new(vec![0xAA]);
    writer.write_bit(true).unwrap();
    writer.write_bits(0b0110, 4).unwrap();
    writer.write_bits(u64::MAX, 64).unwrap();
    assert_eq!(writer.write_bits(0, 65), Err(Error::WriteTooWide));
    let bytes = writer.finish().unwrap();
    assert_eq!(bytes[0], 0xAA);
    assert_eq!(bytes[1], 0b1011_0111);
    let mut reader = BitReader::new(&bytes[1..]);
    assert_eq!(reader.read_bit(), Ok(true));
    assert_eq!(reader.read_bits(4), Ok(0b0110));
    assert_eq!(reader.read_bits(65), Err(Error::ReadTooWide));
    assert_eq!(reader.read_bits(64), Ok(u64::MAX));
    assert_eq!(reader.verify_padding(), Ok(()));
    assert_eq!(reader.read_bits(8), Err(Error::EndOfBits));
    assert_eq!(Error::EndOfBits.kind(), ErrorKind::UnexpectedEof);
}

#[test]
fn fields_come_back_in_order() {
    let fields: [(u64, u8); 8] = [
        (5, 3),
        (u64::MAX, 0),
        (u64::MAX, 64),
        (0x1_0000_0001, 32),
        (0xFF, 4),
        (0, 64),
        (1, 1),
        (1_000, 10),
    ];
    let mut writer = BitWriter::new(Vec::new());
    for (value, width) in fields {
        writer.write_bits(value, width).unwrap();
    }
    let bytes = writer.finish().unwrap();
    let mut reader = BitReader::new(&bytes);
    for (value, width) in fields {
        let expected = if width == 64 { value } else { value % (1 << width) };
        assert_eq!(reader.read_bits(width), Ok(expected));
    }
    assert_eq!(reader.verify_padding(), Ok(()));
}

#[test]
fn changes_of_step_come_back_in_every_width() {
    let values: [i128; 13] = [
        0,
        1,
        -1,
        -63,
        64,
        65,
        -255,
        256,
        -2_047,
        2_048,
        2_049,
        u64::MAX as i128,
        -(u64::MAX as i128),
    ];
    let mut writer = BitWriter::new(Vec::new());
    for value in values {
        write_delta_of_delta(&mut writer, value).unwrap();
    }
    let bytes = writer.finish().unwrap();
    let mut reader = BitReader::new(&bytes);
    for value in values {
        assert_eq!(read_delta_of_delta(&mut reader), Ok(value));
    }
}

#[test]
fn prices_come_back_through_shared_windows() {
    let prices = [100.0f64, 100.0, 100.5, 100.25, -3.0, f64::NAN, 0.0, -0.0, 1e-300];
    let mut writer = BitWriter::new(Vec::new());
    let mut window = None;
    let mut previous = prices[0].to_bits();
    for price in &prices[1..] {
        write_xor(&mut writer, previous, price.to_bits(), &mut window).unwrap();
        previous = price.to_bits();
    }
    let bytes = writer.finish().unwrap();
    let mut reader = BitReader::new(&bytes);
    let mut window = None;
    let mut previous = prices[0].to_bits();
    for price in &prices[1..] {
        previous = read_xor(&mut reader, previous, &mut window).unwrap();
        assert_eq!(previous, price.to_bits());
    }
}
