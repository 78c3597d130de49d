use zerotick::network::{
    make_room, parse_batch_head, parse_query, show_page, symbol_in_request, Action, Outcome,
    Session, MAX_CONCURRENT_CONNS,
};
use zerotick::web::{chart_page, greeting_page, ChartTexts};

/// Feeds a session from a stream until something other than reading is to be done, or
/// the stream ends.
fn run(session: &mut Session, stream: &mut &[u8]) -> Action {
    loop {
        let Some(n) = session.wants() else {
            return Action::Close;
        };
        if stream.len() < n {
            *stream = &[];
            return session.starve();
        }
        let (now, later) = stream.split_at(n);
        *stream = later;
        match session.feed(now) {
            Action::ReadOn => {}
            action => return action,
        }
    }
}

fn first_action(bytes: &[u8]) -> (Session, Action) {
    let mut session = Session::new();
    let mut stream = bytes;
    let action = run(&mut session, &mut stream);
    (session, action)
}

fn batch(symbol: &[u8; 8], count: u32, ticks: usize) -> Vec<u8> {
    let mut bytes = vec![0x01, 0x11];
    bytes.extend_from_slice(symbol);
    bytes.extend_from_slice(&count.to_le_bytes());
    bytes.extend_from_slice(&vec![7u8; 16 * ticks]);
    bytes
}

#[test]
fn a_batch_is_stored_and_acknowledged() {
    let mut bytes = batch(b"aapl\0\0\0\0", 2, 2);
    bytes.extend_from_slice(&batch(b"MSFT\0\0\0\0", 1, 1));
    let mut stream = &bytes[..];
    let mut session = Session::new();
    assert!(matches!(run(&mut session, &mut stream), Action::Store(s) if &s == b"AAPL\0\0\0\0"));
    assert_eq!(session.wants(), None);
    assert!(matches!(session.stored(Outcome::Stored), Action::Acknowledge(0x00)));
    session.answered(true);
    assert!(matches!(run(&mut session, &mut stream), Action::Store(s) if &s == b"MSFT\0\0\0\0"));
    assert!(matches!(session.stored(Outcome::Stored), Action::Acknowledge(0x00)));
    session.answered(false);
    assert_eq!(session.wants(), None);
}

#[test]
fn batches_that_are_not_stored_end_the_connection() {
    for (outcome, code) in [(Outcome::NoStore, 0x53u8), (Outcome::Failed, 0x54)] {
        let (mut session, _) = first_action(&batch(b"AAPL\0\0\0\0", 1, 1));
        assert!(matches!(session.stored(outcome), Action::Refuse(c) if c == code));
        assert_eq!(session.wants(), None);
    }
}

#[test]
fn malformed_requests_are_refused() {
    let cases: [(Vec<u8>, u8); 6] = [
        (vec![0x02], 0xFF),
        (vec![0x01, 0x77], 0xFE),
        (batch(b"A/B\0\0\0\0\0", 1, 1), 0x50),
        (batch(b"\0\0\0\0\0\0\0\0", 1, 1), 0x50),
        (batch(b"AAPL\0\0\0\0", 0, 0), 0x51),
        (batch(b"AAPL\0\0\0\0", 100_001, 0), 0x51),
    ];
    for (bytes, code) in cases {
        let (session, action) = first_action(&bytes);
        assert!(matches!(action, Action::Refuse(c) if c == code), "{code:#x}");
        assert_eq!(session.wants(), None);
    }
    let (session, action) = first_action(&batch(b"AAPL\0\0\0\0", 100_000, 99_999));
    assert!(matches!(action, Action::Close));
    assert_eq!(session.wants(), None);
}

#[test]
fn queries_are_answered() {
    let mut bytes = vec![0x01, 0x01];
    bytes.extend_from_slice(b"btc\0\0\0\0\0");
    bytes.extend_from_slice(&60_000_000u64.to_le_bytes());
    let (mut session, action) = first_action(&bytes);
    assert!(
        matches!(action, Action::Answer(s, 60_000_000) if &s == b"BTC\0\0\0\0\0")
    );
    session.answered(true);
    assert_eq!(session.wants(), Some(1));

    let (session, action) = first_action(&[[0x01, 0x01].as_slice(), &[0; 16]].concat());
    assert!(matches!(action, Action::AnswerEmpty));
    assert_eq!(session.wants(), Some(1));
}

#[test]
fn heads_are_parsed_on_their_own() {
    let head = batch(b"X\0\0\0\0\0\0\0", 3, 0);
    assert_eq!(parse_batch_head(&head[2..]), Ok((*b"X\0\0\0\0\0\0\0", 48)));
    let mut query = b"x\0\0\0\0\0\0\0".to_vec();
    query.extend_from_slice(&u64::MAX.to_le_bytes());
    assert_eq!(parse_query(&query), Some((*b"X\0\0\0\0\0\0\0", u64::MAX)));
    query[0] = b'?';
    assert_eq!(parse_query(&query), None);
}

#[test]
fn browsers_get_charts() {
    let (session, action) = first_action(b"GET /aapl HTTP/1.1\r\nHost: x\r\n\r\nignored");
    assert!(
        matches!(action, Action::ShowChart(s, name) if &s == b"AAPL\0\0\0\0" && name == "aapl")
    );
    assert_eq!(session.wants(), None);
    // A request that breaks off is taken as it is.
    let (_, action) = first_action(b"GET //btc");
    assert!(matches!(action, Action::ShowChart(s, name) if &s == b"BTC\0\0\0\0\0" && name == "btc"));
    for request in [&b"GET / HTTP/1.1\r\n\r\n"[..], b"GET ", b"GET /a.b ", b"GET \xFF "] {
        let (_, action) = first_action(request);
        assert!(matches!(action, Action::ShowGreeting));
    }
    for request in [&b"GOT /aapl"[..], b"GE"] {
        let (session, action) = first_action(request);
        assert!(matches!(action, Action::Close));
        assert_eq!(session.wants(), None);
    }
}

#[test]
fn endless_requests_are_cut_off() {
    let mut bytes = b"GET /x ".to_vec();
    bytes.extend_from_slice(&vec![b'a'; 10_000]);
    let mut session = Session::new();
    let mut stream = &bytes[..];
    let action = run(&mut session, &mut stream);
    assert!(matches!(action, Action::ShowChart(s, _) if &s == b"X\0\0\0\0\0\0\0"));
    assert_eq!(stream.len(), bytes.len() - 4 - 4097);
}

#[test]
fn requested_names_are_found() {
    assert_eq!(
        symbol_in_request("  ///Tsla\u{2003}x"),
        Some((*b"TSLA\0\0\0\0", "Tsla".to_string()))
    );
    assert_eq!(symbol_in_request(""), None);
    assert_eq!(symbol_in_request("   "), None);
    assert!(matches!(show_page(b"/nvda"), Action::ShowChart(_, name) if name == "nvda"));
    // Bytes that are no text are replaced, and so make no symbol.
    assert!(matches!(show_page(b"/nv\xFFda"), Action::ShowGreeting));
}

#[test]
fn there_is_room_for_a_hundred() {
    assert_eq!(make_room(0), Ok(()));
    assert_eq!(make_room(MAX_CONCURRENT_CONNS - 1), Ok(()));
    assert_eq!(make_room(MAX_CONCURRENT_CONNS), Err(0x29));
}

fn texts(points: Vec<String>) -> ChartTexts {
    ChartTexts {
        count: 1_500,
        mean: "100.25".to_string(),
        max_drawdown: "0.10".to_string(),
        upper: "101.00".to_string(),
        lower: "99.50".to_string(),
        close: "100.75".to_string(),
        z_score: "+1.20".to_string(),
        points,
        dot_y: "275.0".to_string(),
        last_y: "280.0".to_string(),
        foot_y: "300.0".to_string(),
    }
}

#[test]
fn pages_announce_their_length() {
    let chart = chart_page(
        "aapl",
        &texts(vec!["150.0,300.0".to_string(), "155.1,290.0".to_string()]),
    );
    let greeting = greeting_page();
    for page in [&chart, &greeting] {
        let (head, body) = page.split_once("\r\n\r\n").unwrap();
        assert!(head.starts_with("HTTP/1.1 200 OK\r\nContent-Type: "));
        assert!(head.ends_with(&format!("Content-Length: {}", body.len())));
    }
    assert!(chart.contains("Content-Type: image/svg+xml\r\nRefresh: 1\r\n"));
    assert!(chart.contains(">TARGET: aapl CORP</text>"));
    assert!(chart.contains(">VOL: 1500 TICKS</text>"));
    assert!(chart.contains(">VWAP: $100.25</text>"));
    assert!(chart.contains(">PEAK MDD: 0.10%</text>"));
    assert!(chart.contains(">UPPER BAND (2σ): $101.00</text>"));
    assert!(chart.contains(">LOWER BAND (2σ): $99.50</text>"));
    assert!(chart.contains("<polyline points=\"150.0,300.0 155.1,290.0\" fill=\"none\""));
    assert!(chart.contains("<circle cx=\"400\" cy=\"275.0\" r=\"5\""));
    assert!(chart.contains(">LAST: $100.75  [Z: +1.20]</text>"));
    assert!(chart.ends_with("</svg>"));
    assert!(greeting.contains("Content-Type: text/html\r\nConnection: close\r\n"));
    assert!(greeting.contains("<a href='/AAPL' style='color:#58a6ff;'>/AAPL</a>"));
}

#[test]
fn one_point_makes_no_line() {
    for points in [Vec::new(), vec!["150.0,300.0".to_string()]] {
        assert!(!chart_page("x", &texts(points)).contains("polyline"));
    }
}
