use zerotick::charts::{full_rate, render_bar_chart, render_ingestion_graph, Level};
use zerotick::client_tui::{rate_due, read_command, still_held, write_query, Watch};
use zerotick::dashboard::{
    cut_status, render_quant_dashboard, strip_zeros, Board, ServerStatus, CHART_WIDTH,
};
use zerotick::network::{Action, Session};
use zerotick::protocol::QueryMetrics;
use zerotick::terminal::{push_divider, push_row, visible_len, INNER_WIDTH};
use zerotick::text::{
    chars_of, decimal_text, find_word, push_padded_left, push_padded_right, text_of, trim_chars,
    white,
};

#[test]
fn commands_are_trimmed_and_made_capitals() {
    assert_eq!(read_command("  quit\n"), Some("QUIT".to_string()));
    assert_eq!(read_command("ß\r\n"), Some("SS".to_string()));
    assert_eq!(read_command(" \t\n"), None);
}

#[test]
fn commands_stay_on_show_for_a_while() {
    assert!(still_held(0));
    assert!(still_held(2_499));
    assert!(!still_held(2_500));
}

#[test]
fn commands_switch_the_watch() {
    let mut watch = Watch::new("tsla");
    assert_eq!(watch.watched(), b"TSLA\0\0\0\0");
    assert_eq!(watch.status_text(), "System ready.");
    let presets = ["AAPL", "MSFT", "NVDA", "TSLA", "GOOGL", "BTC"];
    for (i, name) in presets.iter().enumerate() {
        watch.note_rate(5, 10);
        assert!(!watch.obey(&(i + 1).to_string()));
        assert_eq!(&watch.watched()[..name.len()], name.as_bytes());
        assert_eq!(watch.status_text(), format!("{name} Feed"));
        assert!(watch.tps_history().is_empty());
        assert_eq!(watch.new_ticks(100), None);
    }
    assert!(!watch.obey("ETH-USD"));
    assert_eq!(watch.watched(), b"ETH-USD\0");
    assert_eq!(watch.status_text(), "ETH-USD Feed");
    assert!(!watch.obey("7"));
    assert_eq!(watch.status_text(), "7 Feed");
    assert!(!watch.obey("A B"));
    assert_eq!(watch.status_text(), "Error: Illegal symbol character");
    assert_eq!(watch.watched(), b"7\0\0\0\0\0\0\0");
    assert!(!watch.obey("TOOLONGNAME"));
    assert_eq!(watch.status_text(), "Error: Symbol length must be 1-8 chars");
    for word in ["Q", "QUIT", "EXIT"] {
        assert!(watch.obey(word));
    }
    assert_eq!(Watch::new("?").watched(), b"AAPL\0\0\0\0");
}

fn answer(count: u64, close: f64) -> QueryMetrics {
    let mut m = QueryMetrics::empty();
    m.count = count;
    m.close = close.to_bits();
    m
}

#[test]
fn answers_tell_how_the_server_is_doing() {
    let mut watch = Watch::new("AAPL");
    assert_eq!(watch.observe(None), ServerStatus::Offline);
    assert_eq!(watch.observe(Some(&answer(0, 1.0))), ServerStatus::OnlineIdle);
    assert_eq!(watch.observe(Some(&answer(3, f64::NAN))), ServerStatus::OnlineIdle);
    assert!(watch.price_history().is_empty());
    for i in 0..100 {
        let state = watch.observe(Some(&answer(1, i as f64)));
        assert_eq!(state, ServerStatus::OnlineStreaming);
    }
    assert_eq!(watch.price_history().len(), CHART_WIDTH);
    assert_eq!(watch.price_history()[0], 38.0f64.to_bits());
    assert_eq!(
        watch.chart_range(ServerStatus::OnlineStreaming),
        (38.0f64.to_bits(), 99.0f64.to_bits())
    );
    assert_eq!(watch.chart_range(ServerStatus::OnlineIdle), (0, 0));
}

#[test]
fn rates_need_two_counts() {
    assert!(!rate_due(249));
    assert!(rate_due(250));
    let mut watch = Watch::new("AAPL");
    assert_eq!(watch.new_ticks(100), None);
    watch.note_rate(0, 100);
    assert_eq!(watch.new_ticks(150), Some(50));
    assert_eq!(watch.new_ticks(100), Some(0));
    assert_eq!(watch.new_ticks(99), None);
    for i in 0..100 {
        watch.note_rate(i, i);
    }
    assert_eq!(watch.tps_history().len(), 62);
    assert_eq!(watch.tps_history()[0], 38);
    assert_eq!(watch.new_ticks(100), Some(1));
}

#[test]
fn queries_are_understood_by_the_server() {
    let watch = Watch::new("btc");
    let message = watch.request();
    assert_eq!(message, write_query(b"BTC\0\0\0\0\0", 60_000_000));
    assert_eq!(&message[..10], b"\x01\x01BTC\0\0\0\0\0");
    let mut session = Session::new();
    assert!(matches!(session.feed(&message[..1]), Action::ReadOn));
    assert!(matches!(session.feed(&message[1..2]), Action::ReadOn));
    assert!(
        matches!(session.feed(&message[2..]), Action::Answer(s, 60_000_000) if &s == b"BTC\0\0\0\0\0")
    );
}

#[test]
fn escape_sequences_do_not_show() {
    assert_eq!(visible_len(""), 0);
    assert_eq!(visible_len("abc"), 3);
    assert_eq!(visible_len("\x1B[38;2;1;2;3mabc\x1B[0m"), 3);
    assert_eq!(visible_len("\x1B[2J\x1B[?25l█│"), 2);
    assert_eq!(visible_len("ab\x1B[38;2"), 2);
}

#[test]
fn rows_have_one_width() {
    let long = "x".repeat(80);
    for (content, width) in [("", 77), ("\x1B[0mhello", 77), (long.as_str(), 83)] {
        let mut buf = String::from("before");
        push_row(&mut buf, content);
        let row = &buf[6..];
        assert_eq!(visible_len(row), width);
        assert!(row.starts_with("\x1B[38;2;75;85;135m│\x1B[0m"));
        assert!(row.ends_with("\x1B[38;2;75;85;135m│\x1B[0m\x1B[K\n"));
    }
    let mut buf = String::new();
    push_divider(&mut buf, '╭', '─', '╮');
    assert_eq!(visible_len(&buf), INNER_WIDTH + 3);
    let bar = "─".repeat(74);
    assert_eq!(buf, format!("\x1B[38;2;75;85;135m╭{bar}╮\x1B[0m\x1B[K\n"));
}

#[test]
fn bars_stand_on_the_right() {
    let lines = render_bar_chart(&[0, 1, 2, 9], 6, 3);
    assert_eq!(
        lines,
        [
            "\x1B[38;2;255;245;150;1m     █\x1B[0m",
            "\x1B[38;2;230;155;30m    ██\x1B[0m",
            "\x1B[38;2;180;110;20m   ███\x1B[0m",
        ]
    );
    assert_eq!(render_bar_chart(&[1, 0, 1], 2, 1), ["\x1B[38;2;255;245;150;1m █\x1B[0m"]);
    assert_eq!(render_bar_chart(&[], 4, 2), ["", ""]);
    assert_eq!(render_bar_chart(&[1], 0, 1), [""]);
    assert!(render_bar_chart(&[1], 3, 0).is_empty());
    for line in render_bar_chart(&[3; 100], 62, 5) {
        assert_eq!(visible_len(&line), 62);
    }
}

fn level(fill: usize, eighths: usize) -> Level {
    Level { fill, eighths }
}

#[test]
fn rates_are_drawn_in_eighths() {
    let rates = [5, 0, 10, 7];
    let levels = [level(1, 8), level(0, 0), level(2, 8), level(2, 3)];
    let (lines, gap) = render_ingestion_graph(&rates, &levels, 5, 2);
    let on = "\x1B[38;2;46;204;113m";
    assert!(gap);
    assert_eq!(lines[0], format!("   {on}█\x1B[0m{on}▃\x1B[0m"));
    assert_eq!(
        lines[1],
        format!(" {on}█\x1B[0m\x1B[38;2;255;75;75m_\x1B[0m{on}█\x1B[0m{on}█\x1B[0m")
    );
    for line in &lines {
        assert_eq!(visible_len(line), 5);
    }
    // The lowest step leaves the cell empty, and more than eight eighths are eight.
    let levels = [level(1, 1), level(1, 99), level(0, 0)];
    let (lines, gap) = render_ingestion_graph(&[1, 2, 3], &levels, 3, 1);
    assert_eq!(lines[0], format!(" {on}█\x1B[0m{on}█\x1B[0m"));
    assert!(!gap);
}

#[test]
fn only_the_last_rates_are_drawn() {
    let rates = [9, 1, 0, 4, 2];
    let levels = [level(2, 8), level(1, 4), level(0, 0), level(1, 2), level(1, 8)];
    let shown = render_ingestion_graph(&rates[1..], &levels[1..], 4, 2);
    assert_eq!(render_ingestion_graph(&rates, &levels, 4, 2), shown);
    // The highest rate that is shown fills its column.
    for line in &shown.0 {
        assert_eq!(without_colors(line).chars().nth(2), Some('█'));
    }
    // Fewer rates than columns stand on the right.
    let (lines, _) = render_ingestion_graph(&[5], &[level(1, 8)], 3, 1);
    assert_eq!(without_colors(&lines[0]), "  █");
}

#[test]
fn only_recent_gaps_count() {
    let full = [level(1, 8); 5];
    assert!(!render_ingestion_graph(&[1, 0, 1, 1, 1], &full, 9, 1).1);
    assert!(render_ingestion_graph(&[1, 1, 0, 1, 1], &full, 9, 1).1);
    assert!(!render_ingestion_graph(&[1, 1, 0, 1, 1], &full, 2, 1).1);
    let (lines, gap) = render_ingestion_graph(&[], &[], 9, 2);
    assert_eq!((lines, gap), (vec![String::new(), String::new()], false));
    assert!(!render_ingestion_graph(&[0], &[level(0, 0)], 0, 1).1);
}

#[test]
fn the_highest_shown_rate_fills_the_chart() {
    assert_eq!(full_rate(&[9, 3, 5], 2), 5);
    assert_eq!(full_rate(&[9, 3, 5], 3), 9);
    assert_eq!(full_rate(&[0, 0], 5), 1);
    assert_eq!(full_rate(&[], 5), 1);
}

#[test]
fn statuses_are_cut_off() {
    assert_eq!(cut_status("AAPL Feed"), "AAPL Feed");
    assert_eq!(cut_status("Error: Illegal symbol character"), "Error: Illegal sym");
    assert_eq!(cut_status("éééééééééé"), "ééééééééé");
    assert_eq!(strip_zeros("\0\0A\0B\0"), "A\0B");
    assert_eq!(strip_zeros("\0"), "");
}

fn board(state: ServerStatus) -> Board {
    Board {
        symbol: "NVDA".to_string(),
        host: "127.0.0.1".to_string(),
        port: 8080,
        latency: "0.42".to_string(),
        state,
        count: 1_234,
        open: "100.00".to_string(),
        high: "110.00".to_string(),
        low: "90.00".to_string(),
        close: "105.00".to_string(),
        mean: "101.50".to_string(),
        std_dev: "1.2345".to_string(),
        z_score: "+0.50".to_string(),
        max_drawdown: "3.25".to_string(),
        open_bits: 100.0f64.to_bits(),
        diff_bits: 5.0f64.to_bits(),
        diff: "5.00".to_string(),
        diff_abs: "5.00".to_string(),
        percent: "5.00".to_string(),
        filled: vec![1, 2, 3],
        chart_high: "105.00".to_string(),
        chart_low: "95.00".to_string(),
        rates: vec![10, 20],
        levels: vec![level(1, 8), level(2, 8)],
        status: "NVDA Feed".to_string(),
        held_input: String::new(),
    }
}

fn without_colors(text: &str) -> String {
    let mut out = String::new();
    let mut inside = false;
    for c in text.chars() {
        if c == '\x1B' {
            inside = true;
        } else if inside {
            inside = !"mKHJhl".contains(c);
        } else {
            out.push(c);
        }
    }
    out
}

#[test]
fn the_dashboard_shows_a_stream() {
    let mut frame = String::from("\x1B[H");
    render_quant_dashboard(&mut frame, &board(ServerStatus::OnlineStreaming));
    assert!(frame.starts_with("\x1B[H\x1B[38;2;75;85;135m╭"));
    let plain = without_colors(&frame);
    let lines: Vec<&str> = plain.split('\n').collect();
    assert_eq!(lines.len(), 23);
    for line in &lines[..22] {
        assert_eq!(line.chars().count(), 76, "{line}");
    }
    assert!(lines[1].starts_with(
        "│  ▲ ZeroTick ▲   • SINGLE-PASS ENGINE •   POSIX LOCK-FREE O(1) "
    ));
    assert!(lines[3].starts_with("│ HOST: 127.0.0.1:8080   TICKS: 1234       STATE:  ● STREAMING "));
    assert!(lines[4].starts_with("│ WATCHLIST: [1] AAPL [2] MSFT  [3] NVDA  [4] TSLA [5] GOOGL [6] BTC "));
    assert!(lines[6].starts_with("│ TICKER: NVDA    LAST: $105.00        DELTA: +$5.00 (+5.00%) "));
    assert!(lines[7].starts_with("│ OPEN: $100.00    HIGH: $110.00 LOW: $90.00 CLOSE: $105.00 "));
    assert!(lines[8].starts_with("│ MEAN: $101.50   σ (VOL): 1.2345  Z-SCORE: +0.50   MAX DD: 3.25% "));
    assert!(lines[10].starts_with("│ PRICE TRAJECTORY"));
    assert!(lines[10].contains("HIGH: $   105.00 "));
    assert!(lines[11].ends_with("█          │"));
    assert!(lines[13].ends_with("███          │"));
    assert!(lines[14].contains("LOW:  $    95.00 "));
    assert!(lines[16].starts_with("│ DATA INGESTION (TPS)        PEAK:      20 TPS    ✓ Active Stream "));
    assert!(lines[20].starts_with("│ NVDA Feed RTT:  0.42ms │ [1-6] Switch │ [TICKER]+Enter │ [q] Exit "));
    assert_eq!(lines[22], " ▶  ");
    assert!(frame.contains("\x1B[48;2;255;185;0m\x1B[38;2;15;15;20;1m [3] NVDA \x1B[0m "));
}

#[test]
fn the_dashboard_shows_falls_and_gaps() {
    let mut b = board(ServerStatus::OnlineStreaming);
    b.diff_bits = (-5.0f64).to_bits();
    b.diff = "-5.00".to_string();
    b.percent = "-5.00".to_string();
    b.rates = vec![10, 0];
    b.held_input = "BTC".to_string();
    let mut frame = String::new();
    render_quant_dashboard(&mut frame, &b);
    assert!(frame.contains("\x1B[38;2;255;75;95;1m-$5.00 (-5.00%)\x1B[0m"));
    assert!(frame.contains(" ⚠️ FEED DROP (0 TPS) "));
    assert!(frame.ends_with("▶\x1B[0m \x1B[38;2;255;200;50;1mBTC\x1B[0m \x1B[K"));
    // An opening price of nothing has no change.
    b.open_bits = 0;
    let mut frame = String::new();
    render_quant_dashboard(&mut frame, &b);
    assert!(without_colors(&frame).contains("DELTA: --.-- "));
}

#[test]
fn the_dashboard_waits_for_a_stream() {
    for (state, word) in [
        (ServerStatus::Offline, "✕ OFFLINE"),
        (ServerStatus::OnlineIdle, "◌ AWAITING"),
    ] {
        let mut b = board(state);
        b.rates = Vec::new();
        b.levels = Vec::new();
        let mut frame = String::new();
        render_quant_dashboard(&mut frame, &b);
        let plain = without_colors(&frame);
        assert!(plain.contains(word));
        assert!(plain.contains("OPEN: --.--"));
        assert!(plain.contains("MAX DD: --.--%"));
        assert!(plain.contains("LAST: $--.--         DELTA: --.--"));
        assert!(plain.contains("◌ Awaiting stream... Run 'cargo run -- ingest ALL' in another tab"));
        assert!(plain.contains("PEAK:       0 TPS    ◌ Awaiting Feed "));
    }
}

#[test]
fn white_space_is_that_of_unicode() {
    for code in 0..=0x10FFFFu32 {
        if let Some(c) = char::from_u32(code) {
            assert_eq!(white(c), c.is_whitespace(), "{code:#x}");
        }
    }
}

#[test]
fn words_and_ends_are_found() {
    for text in ["", "  ", "a", " a b ", "\u{3000}ab\u{85}", "x\ty"] {
        let chars = chars_of(text);
        let (from, to) = trim_chars(&chars);
        assert_eq!(text_of(&chars, from, to), text.trim());
        let (from, to) = find_word(&chars);
        assert_eq!(
            text_of(&chars, from, to),
            text.split_whitespace().next().unwrap_or("")
        );
    }
}

#[test]
fn numbers_and_padding_are_written_out() {
    for n in [0, 9, 10, 1_234_567, u64::MAX] {
        assert_eq!(decimal_text(n), n.to_string());
    }
    let mut buf = String::from("|");
    push_padded_right(&mut buf, "é", 3);
    buf.push('|');
    push_padded_left(&mut buf, "ab", 4);
    buf.push('|');
    push_padded_left(&mut buf, "abcde", 4);
    assert_eq!(buf, "|é  |  ab|abcde");
}
