use zerotick::client_ingest::{
    announce_batch, batch_message, equilibrium_price, noise, plan_feed, Feed,
};
use zerotick::compression::encode_batch;
use zerotick::error::Error;
use zerotick::network::{Action, Session};
use zerotick::protocol::BATCH_SIZE;

#[test]
fn lists_of_symbols_are_taken_apart() {
    assert_eq!(
        plan_feed("All", 1).unwrap(),
        ["AAPL", "MSFT", "NVDA", "TSLA", "GOOGL", "BTC"]
    );
    assert_eq!(plan_feed(" aapl, btc\t,X", 1).unwrap(), ["AAPL", "BTC", "X"]);
    assert_eq!(plan_feed("", 1).unwrap(), [""]);
    assert_eq!(plan_feed("a,,b,", 1).unwrap(), ["A", "", "B", ""]);
    // Capitals are made as Unicode has them.
    assert_eq!(plan_feed("straße,é", 1).unwrap(), ["STRASSE", "É"]);
    assert_eq!(plan_feed("ALLX", 1).unwrap(), ["ALLX"]);
}

#[test]
fn a_feed_must_send_something() {
    assert_eq!(plan_feed("ALL", 0), Err(Error::ZeroRate));
    assert_eq!(Error::ZeroRate.message(), "target_tps must be greater than 0");
}

#[test]
fn feeds_start_at_known_prices() {
    let known = [
        ("BTC", 65_000),
        ("NVDA", 125),
        ("TSLA", 210),
        ("MSFT", 420),
        ("GOOGL", 165),
        ("AAPL", 150),
        ("btc", 150),
        ("", 150),
    ];
    for (symbol, price) in known {
        assert_eq!(equilibrium_price(symbol), price);
    }
}

#[test]
fn noise_is_that_of_the_generator() {
    for ts in [0u64, 1, 2, 1_700_000_000_000_000, u64::MAX] {
        let state = ts.wrapping_mul(6364136223846793005).wrapping_add(1);
        let expected = (state >> 33) as i32 % 200;
        assert_eq!(noise(ts) as i32, expected);
    }
    assert_eq!(noise(0), 0);
    assert_eq!(noise(1), 166);
}

#[test]
fn batches_are_understood_by_the_server() {
    let symbol = *b"BTC\0\0\0\0\0";
    let prices: Vec<u64> = (0..BATCH_SIZE as u64).map(|i| (i as f64).to_bits()).collect();
    let message = batch_message(&symbol, 1_000, &prices);
    assert_eq!(&message[..14], &announce_batch(&symbol));
    assert_eq!(&message[..2], &[0x01, 0x11]);
    assert_eq!(&message[10..14], &10_000u32.to_le_bytes());
    let mut session = Session::new();
    let mut at = 0usize;
    let symbol_stored = loop {
        let n = session.wants().unwrap();
        let action = session.feed(&message[at..at + n]);
        at += n;
        match action {
            Action::ReadOn => {}
            Action::Store(symbol) => break symbol,
            other => panic!("{other:?}"),
        }
    };
    assert_eq!(at, message.len());
    assert_eq!(symbol_stored, symbol);
    let batch = encode_batch(&message[14..]).unwrap();
    assert_eq!((batch.first_ts, batch.last_ts, batch.count), (1_000, 10_999, 10_000));
}

#[test]
fn a_feed_stops_when_enough_is_stored() {
    let mut feed = Feed::new(15_000);
    assert!(!feed.finished());
    assert!(feed.acknowledged(0));
    assert!(!feed.finished());
    assert!(!feed.acknowledged(0x54));
    assert_eq!(feed.total_sent, 10_000);
    assert!(feed.acknowledged(0));
    assert!(feed.finished());
    let mut endless = Feed::new(0);
    assert!(endless.acknowledged(0));
    assert!(!endless.finished());
    let mut full = Feed { max_ticks: 0, total_sent: u64::MAX };
    assert!(!full.acknowledged(0x54));
    assert_eq!(full.total_sent, u64::MAX);
}

#[test]
fn the_last_tick_may_have_the_last_timestamp() {
    let prices = vec![1.0f64.to_bits(); BATCH_SIZE];
    let base_ts = u64::MAX - (BATCH_SIZE as u64 - 1);
    let message = batch_message(&[0x41; 8], base_ts, &prices);
    let batch = encode_batch(&message[14..]).unwrap();
    assert_eq!((batch.first_ts, batch.last_ts), (base_ts, u64::MAX));
}
