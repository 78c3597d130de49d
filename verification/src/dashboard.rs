//! The dashboard: one screen of text about a symbol.
use vstd::prelude::*;
use vstd::string::StringExecFns;
use vstd::utf8::{
    decode_utf8, decode_utf8_encode_utf8, decode_utf8_split, encode_utf8, encode_utf8_decode_utf8,
    encode_utf8_valid_utf8, is_char_boundary, valid_utf8_split,
};

use crate::charts::{
    bar_row, law_recent_gaps_are_among_the_last_three, rate_row, recent_gap, render_bar_chart,
    render_ingestion_graph, Level,
};
use crate::client_ingest::{preset, preset_name, same_text, PRESET_COUNT};
use crate::price::{less, not_below, price_ge, price_lt};
use crate::terminal::{
    divider, lemma_shown_concat, lemma_shown_escape, lemma_shown_plain, push_divider, push_row, row,
    shown, CLR_BORDER_DIM, CLR_CYAN, CLR_GOLD, CLR_GREEN, CLR_PURPLE, CLR_RED, CLR_TEXT_MUTED,
    CLR_TEXT_WHITE, RESET,
};
use crate::text::{
    chars_of, decimal, decimal_text, holds, leading, lemma_holds_at, lemma_holds_concat,
    lemma_holds_itself, lemma_holds_label_and_value, lemma_holds_labelled, lemma_leading, pad_left,
    pad_right, push_padded_left, push_padded_right, text_of,
};

verus! {

/// How many rows the price chart has.
pub const CHART_HEIGHT: usize = 3;

/// How many columns the charts have.
pub const CHART_WIDTH: usize = 62;

/// How many rows the rate chart has.
pub const RATE_HEIGHT: usize = 2;

/// How many bytes of the status are shown.
pub const STATUS_BYTES: usize = 18;

/// How the server is doing.
#[derive(Debug, Clone, Copy, PartialEq, Eq, Structural)]
pub enum ServerStatus {
    /// It cannot be reached.
    Offline,
    /// It answers, but has no ticks.
    OnlineIdle,
    /// It answers with ticks.
    OnlineStreaming,
}

/// Everything that a dashboard shows. Numbers that are not whole come written out.
pub struct Board {
    pub symbol: String,
    pub host: String,
    pub port: u16,
    /// How long the server took, in milliseconds.
    pub latency: String,
    pub state: ServerStatus,
    /// How many ticks the server counts.
    pub count: u64,
    pub open: String,
    pub high: String,
    pub low: String,
    pub close: String,
    pub mean: String,
    pub std_dev: String,
    pub z_score: String,
    /// The largest fall, in percent.
    pub max_drawdown: String,
    /// The bit pattern of the first price.
    pub open_bits: u64,
    /// The bit pattern of how far the last price is above the first.
    pub diff_bits: u64,
    /// How far the last price is above the first.
    pub diff: String,
    /// How far the last price is from the first.
    pub diff_abs: String,
    /// How far the last price is above the first, in percent.
    pub percent: String,
    /// How many rows of the price chart each of the last prices fills.
    pub filled: Vec<usize>,
    /// The highest price in the price chart.
    pub chart_high: String,
    /// The lowest price in the price chart.
    pub chart_low: String,
    /// The last rates of the feed, in ticks per second.
    pub rates: Vec<u64>,
    /// How high each of them is in the rate chart.
    pub levels: Vec<Level>,
    pub status: String,
    /// What was typed a moment ago.
    pub held_input: String,
}

/// A muted text.
pub open spec fn label(text: Seq<char>) -> Seq<char> {
    CLR_TEXT_MUTED@ + text + RESET@
}

/// Appends a muted text.
fn push_label(buf: &mut String, text: &str)
    ensures
        final(buf)@ == old(buf)@ + label(text@),
{
    let mut part = String::from_str(CLR_TEXT_MUTED);
    part.append(text);
    part.append(RESET);
    buf.append(part.as_str());
}

/// The title.
pub open spec fn title_row() -> Seq<char> {
    " \x1B[48;2;30;36;60m"@ + CLR_TEXT_WHITE@ + " ▲ ZeroTick ▲ "@ + RESET@ + "\x1B[0m  "@
        + CLR_TEXT_MUTED@ + "• SINGLE-PASS ENGINE •\x1B[0m  \x1B[48;2;15;50;35m"@ + CLR_GREEN@
        + " POSIX LOCK-FREE O(1) "@ + RESET@ + "\x1B[0m"@
}

fn write_title_row() -> (r: String)
    ensures
        r@ == title_row(),
{
    let mut r = String::from_str(" \x1B[48;2;30;36;60m");
    r.append(CLR_TEXT_WHITE);
    r.append(" ▲ ZeroTick ▲ ");
    r.append(RESET);
    r.append("\x1B[0m  ");
    r.append(CLR_TEXT_MUTED);
    r.append("• SINGLE-PASS ENGINE •\x1B[0m  \x1B[48;2;15;50;35m");
    r.append(CLR_GREEN);
    r.append(" POSIX LOCK-FREE O(1) ");
    r.append(RESET);
    r.append("\x1B[0m");
    r
}

/// How the server is doing, in color.
pub open spec fn badge(state: ServerStatus) -> Seq<char> {
    match state {
        ServerStatus::OnlineStreaming => "\x1B[48;2;15;60;35m\x1B[38;2;0;255;160;1m ● STREAMING \x1B[0m"@,
        ServerStatus::OnlineIdle => "\x1B[48;2;60;50;15m\x1B[38;2;255;200;50;1m ◌ AWAITING \x1B[0m"@,
        ServerStatus::Offline => "\x1B[48;2;60;20;25m\x1B[38;2;255;80;90;1m ✕ OFFLINE \x1B[0m"@,
    }
}

fn show_badge(state: ServerStatus) -> (r: &'static str)
    ensures
        r@ == badge(state),
{
    match state {
        ServerStatus::OnlineStreaming => "\x1B[48;2;15;60;35m\x1B[38;2;0;255;160;1m ● STREAMING \x1B[0m",
        ServerStatus::OnlineIdle => "\x1B[48;2;60;50;15m\x1B[38;2;255;200;50;1m ◌ AWAITING \x1B[0m",
        ServerStatus::Offline => "\x1B[48;2;60;20;25m\x1B[38;2;255;80;90;1m ✕ OFFLINE \x1B[0m",
    }
}

/// Whether the server is streaming.
fn streaming(state: ServerStatus) -> (r: bool)
    ensures
        r == (state == ServerStatus::OnlineStreaming),
{
    match state {
        ServerStatus::OnlineStreaming => true,
        _ => false,
    }
}

/// The test for zero characters.
pub open spec fn zero_test() -> spec_fn(char) -> bool {
    |c: char| c == '\0'
}

/// How many zero characters stand in front.
pub open spec fn zeros_in_front(s: Seq<char>) -> int {
    leading(s, zero_test())
}

/// A text without the zero characters behind it.
pub open spec fn without_zeros_behind(s: Seq<char>) -> Seq<char>
    decreases s.len(),
{
    if s.len() == 0 || s.last() != '\0' {
        s
    } else {
        without_zeros_behind(s.drop_last())
    }
}

/// A text without the zero characters in front of it and behind it.
pub open spec fn bare(s: Seq<char>) -> Seq<char> {
    without_zeros_behind(s.skip(zeros_in_front(s)))
}

/// Takes away the zero characters in front of a text and behind it.
pub fn strip_zeros(s: &str) -> (r: String)
    ensures
        r@ == bare(s@),
{
    let chars = chars_of(s);
    let mut from: usize = 0;
    while from < chars.len() && chars[from] == '\0'
        invariant
            from <= chars@.len(),
            forall|i: int| 0 <= i < from ==> chars@[i] == '\0',
        decreases chars@.len() - from,
    {
        from += 1;
    }
    proof {
        lemma_leading(chars@, zero_test(), from as int);
    }
    let mut to: usize = chars.len();
    assert(chars@.subrange(from as int, to as int) =~= chars@.skip(from as int));
    while to > from && chars[to - 1] == '\0'
        invariant
            from <= to <= chars@.len(),
            without_zeros_behind(chars@.subrange(from as int, to as int)) == bare(chars@),
        decreases to,
    {
        assert(chars@.subrange(from as int, to as int).drop_last() =~= chars@.subrange(
            from as int,
            to - 1,
        ));
        to -= 1;
    }
    text_of(&chars, from, to)
}

/// The first `n` presets, each with its number; the one that is shown stands out.
pub open spec fn watch_items(symbol: Seq<char>, n: int) -> Seq<char>
    decreases n,
{
    if n <= 0 {
        Seq::empty()
    } else {
        watch_items(symbol, n - 1) + watch_item(symbol, n - 1)
    }
}

/// A preset with its number.
pub open spec fn watch_item(symbol: Seq<char>, i: int) -> Seq<char> {
    if preset_name(i) == symbol {
        "\x1B[48;2;255;185;0m\x1B[38;2;15;15;20;1m ["@ + decimal((i + 1) as nat) + "] "@ + preset_name(
            i,
        ) + " \x1B[0m "@
    } else {
        CLR_TEXT_MUTED@ + "["@ + decimal((i + 1) as nat) + "]"@ + RESET@ + " "@ + CLR_TEXT_WHITE@
            + preset_name(i) + RESET@ + " "@
    }
}

fn write_watch_item(symbol: &str, i: usize) -> (r: String)
    requires
        i < PRESET_COUNT,
    ensures
        r@ == watch_item(symbol@, i as int),
{
    let name = preset(i);
    let number = decimal_text(i as u64 + 1);
    if same_text(name, symbol) {
        let mut r = String::from_str("\x1B[48;2;255;185;0m\x1B[38;2;15;15;20;1m [");
        r.append(number.as_str());
        r.append("] ");
        r.append(name);
        r.append(" \x1B[0m ");
        r
    } else {
        let mut r = String::from_str(CLR_TEXT_MUTED);
        r.append("[");
        r.append(number.as_str());
        r.append("]");
        r.append(RESET);
        r.append(" ");
        r.append(CLR_TEXT_WHITE);
        r.append(name);
        r.append(RESET);
        r.append(" ");
        r
    }
}

/// The presets.
pub open spec fn watch_row(b: Board) -> Seq<char> {
    " "@ + label("WATCHLIST:"@) + " "@ + watch_items(bare(b.symbol@), PRESET_COUNT as int)
}

fn write_watch_row(b: &Board) -> (r: String)
    ensures
        r@ == watch_row(*b),
{
    let symbol = strip_zeros(b.symbol.as_str());
    let mut r = String::from_str(" ");
    push_label(&mut r, "WATCHLIST:");
    r.append(" ");
    let ghost front = r@;
    let mut i: usize = 0;
    assert(r@ =~= front + watch_items(symbol@, 0));
    while i < PRESET_COUNT
        invariant
            i <= PRESET_COUNT,
            r@ == front + watch_items(symbol@, i as int),
        decreases PRESET_COUNT - i,
    {
        let item = write_watch_item(symbol.as_str(), i);
        r.append(item.as_str());
        i += 1;
        assert(r@ =~= front + watch_items(symbol@, i as int));
    }
    r
}

/// How far the last price is from the first, where that makes sense.
pub open spec fn price_delta(b: Board) -> Seq<char> {
    if b.state == ServerStatus::OnlineStreaming && price_lt(0, b.open_bits) {
        if price_ge(b.diff_bits, 0) {
            CLR_GREEN@ + "+$"@ + b.diff@ + " (+"@ + b.percent@ + "%)"@ + RESET@
        } else {
            CLR_RED@ + "-$"@ + b.diff_abs@ + " ("@ + b.percent@ + "%)"@ + RESET@
        }
    } else {
        label("--.--"@)
    }
}

fn show_price_delta(b: &Board) -> (r: String)
    ensures
        r@ == price_delta(*b),
{
    if streaming(b.state) && less(0, b.open_bits) {
        if not_below(b.diff_bits, 0) {
            let mut r = String::from_str(CLR_GREEN);
            r.append("+$");
            r.append(b.diff.as_str());
            r.append(" (+");
            r.append(b.percent.as_str());
            r.append("%)");
            r.append(RESET);
            r
        } else {
            let mut r = String::from_str(CLR_RED);
            r.append("-$");
            r.append(b.diff_abs.as_str());
            r.append(" (");
            r.append(b.percent.as_str());
            r.append("%)");
            r.append(RESET);
            r
        }
    } else {
        show_muted("--.--")
    }
}

fn show_muted(text: &str) -> (r: String)
    ensures
        r@ == label(text@),
{
    let mut r = String::from_str(CLR_TEXT_MUTED);
    r.append(text);
    r.append(RESET);
    r
}

/// The last price.
pub open spec fn last_price(b: Board) -> Seq<char> {
    if b.state == ServerStatus::OnlineStreaming {
        CLR_GOLD@ + pad_right(b.close@, 8) + RESET@
    } else {
        label("--.--   "@)
    }
}

fn show_last_price(b: &Board) -> (r: String)
    ensures
        r@ == last_price(*b),
{
    if streaming(b.state) {
        let mut r = String::from_str(CLR_GOLD);
        push_padded_right(&mut r, b.close.as_str(), 8);
        r.append(RESET);
        r
    } else {
        show_muted("--.--   ")
    }
}

/// A text, or dashes if there are no ticks.
pub open spec fn plain_or_dashes(state: ServerStatus, text: Seq<char>) -> Seq<char> {
    if state == ServerStatus::OnlineStreaming {
        text
    } else {
        label("--.--"@)
    }
}

fn show_plain(state: ServerStatus, text: &str) -> (r: String)
    ensures
        r@ == plain_or_dashes(state, text@),
{
    if streaming(state) {
        String::from_str(text)
    } else {
        show_muted("--.--")
    }
}

/// A price in color, or dashes if there are no ticks.
pub open spec fn price_or_dashes(state: ServerStatus, color: Seq<char>, price: Seq<char>) -> Seq<
    char,
> {
    if state == ServerStatus::OnlineStreaming {
        color + "$"@ + price + RESET@
    } else {
        label("--.--"@)
    }
}

fn show_price(state: ServerStatus, color: &str, price: &str) -> (r: String)
    ensures
        r@ == price_or_dashes(state, color@, price@),
{
    if streaming(state) {
        let mut r = String::from_str(color);
        r.append("$");
        r.append(price);
        r.append(RESET);
        r
    } else {
        show_muted("--.--")
    }
}

/// The largest fall, or dashes if there are no ticks.
pub open spec fn fall_or_dashes(b: Board) -> Seq<char> {
    if b.state == ServerStatus::OnlineStreaming {
        CLR_RED@ + b.max_drawdown@ + "%"@ + RESET@
    } else {
        label("--.--%"@)
    }
}

fn show_fall(b: &Board) -> (r: String)
    ensures
        r@ == fall_or_dashes(*b),
{
    if streaming(b.state) {
        let mut r = String::from_str(CLR_RED);
        r.append(b.max_drawdown.as_str());
        r.append("%");
        r.append(RESET);
        r
    } else {
        show_muted("--.--%")
    }
}

/// The status can be cut off where it has to be: not inside a character.
pub open spec fn status_fits(status: Seq<char>) -> bool {
    encode_utf8(status).len() > STATUS_BYTES ==> is_char_boundary(
        encode_utf8(status),
        STATUS_BYTES as int,
    )
}

/// The part of the status that is shown.
pub open spec fn cut(status: Seq<char>) -> Seq<char> {
    if encode_utf8(status).len() > STATUS_BYTES {
        decode_utf8(encode_utf8(status).take(STATUS_BYTES as int))
    } else {
        status
    }
}

/// Cuts the status off.
pub fn cut_status(status: &str) -> (r: String)
    requires
        status_fits(status@),
    ensures
        r@ == cut(status@),
{
    if status.as_bytes().len() > STATUS_BYTES {
        let (front, _) = status.split_at(STATUS_BYTES);
        proof {
            encode_utf8_decode_utf8(front@);
            assert(encode_utf8(front@) =~= encode_utf8(status@).take(STATUS_BYTES as int));
        }
        String::from_str(front)
    } else {
        String::from_str(status)
    }
}

/// Where the server is, how many ticks it counts, and how it is doing.
pub open spec fn host_row(b: Board) -> Seq<char> {
    " "@ + label("HOST:"@) + " "@ + b.host@ + ":"@ + decimal(b.port as nat) + "   "@
        + label("TICKS:"@) + " "@ + CLR_CYAN@ + pad_right(decimal(b.count as nat), 10) + RESET@
        + " "@ + label("STATE:"@) + " "@ + badge(b.state)
}

fn write_host_row(b: &Board) -> (r: String)
    ensures
        r@ == host_row(*b),
{
    let count = decimal_text(b.count);
    let mut r = String::from_str(" ");
    push_label(&mut r, "HOST:");
    r.append(" ");
    r.append(b.host.as_str());
    r.append(":");
    r.append(decimal_text(b.port as u64).as_str());
    r.append("   ");
    push_label(&mut r, "TICKS:");
    r.append(" ");
    r.append(CLR_CYAN);
    push_padded_right(&mut r, count.as_str(), 10);
    r.append(RESET);
    r.append(" ");
    push_label(&mut r, "STATE:");
    r.append(" ");
    r.append(show_badge(b.state));
    r
}

/// The symbol, its last price, and how far that is from the first.
pub open spec fn ticker_row(b: Board) -> Seq<char> {
    " "@ + label("TICKER:"@) + " "@ + CLR_PURPLE@ + pad_right(bare(b.symbol@), 6) + RESET@ + "  "@
        + label("LAST:"@) + " $"@ + last_price(b) + "      "@ + label("DELTA:"@) + " "@
        + price_delta(b)
}

fn write_ticker_row(b: &Board) -> (r: String)
    ensures
        r@ == ticker_row(*b),
{
    let symbol = strip_zeros(b.symbol.as_str());
    let last = show_last_price(b);
    let delta = show_price_delta(b);
    let mut r = String::from_str(" ");
    push_label(&mut r, "TICKER:");
    r.append(" ");
    r.append(CLR_PURPLE);
    push_padded_right(&mut r, symbol.as_str(), 6);
    r.append(RESET);
    r.append("  ");
    push_label(&mut r, "LAST:");
    r.append(" $");
    r.append(last.as_str());
    r.append("      ");
    push_label(&mut r, "DELTA:");
    r.append(" ");
    r.append(delta.as_str());
    r
}

/// The first, the highest, the lowest and the last price.
pub open spec fn range_row(b: Board) -> Seq<char> {
    " "@ + label("OPEN:"@) + " "@ + pad_right(plain_or_dashes(b.state, "$"@ + b.open@), 10) + " "@
        + label("HIGH:"@) + " "@ + pad_right(price_or_dashes(b.state, CLR_GREEN@, b.high@), 19)
        + " "@ + label("LOW:"@) + " "@ + pad_right(price_or_dashes(b.state, CLR_RED@, b.low@), 19)
        + " "@ + label("CLOSE:"@) + " "@
        + pad_right(price_or_dashes(b.state, CLR_GOLD@, b.close@), 10)
}

fn write_range_row(b: &Board) -> (r: String)
    ensures
        r@ == range_row(*b),
{
    let mut dollars = String::from_str("$");
    dollars.append(b.open.as_str());
    let open = show_plain(b.state, dollars.as_str());
    let high = show_price(b.state, CLR_GREEN, b.high.as_str());
    let low = show_price(b.state, CLR_RED, b.low.as_str());
    let close = show_price(b.state, CLR_GOLD, b.close.as_str());
    let mut r = String::from_str(" ");
    push_label(&mut r, "OPEN:");
    r.append(" ");
    push_padded_right(&mut r, open.as_str(), 10);
    r.append(" ");
    push_label(&mut r, "HIGH:");
    r.append(" ");
    push_padded_right(&mut r, high.as_str(), 19);
    r.append(" ");
    push_label(&mut r, "LOW:");
    r.append(" ");
    push_padded_right(&mut r, low.as_str(), 19);
    r.append(" ");
    push_label(&mut r, "CLOSE:");
    r.append(" ");
    push_padded_right(&mut r, close.as_str(), 10);
    r
}

/// The mean, the deviation, the distance of the last price, and the largest fall.
pub open spec fn spread_row(b: Board) -> Seq<char> {
    " "@ + label("MEAN:"@) + " "@ + pad_right(plain_or_dashes(b.state, "$"@ + b.mean@), 9) + " "@
        + label("σ (VOL):"@) + " "@ + pad_right(plain_or_dashes(b.state, b.std_dev@), 7) + " "@
        + label("Z-SCORE:"@) + " "@ + pad_right(plain_or_dashes(b.state, b.z_score@), 7) + " "@
        + label("MAX DD:"@) + " "@ + pad_right(fall_or_dashes(b), 14)
}

fn write_spread_row(b: &Board) -> (r: String)
    ensures
        r@ == spread_row(*b),
{
    let mut dollars = String::from_str("$");
    dollars.append(b.mean.as_str());
    let mean = show_plain(b.state, dollars.as_str());
    let std_dev = show_plain(b.state, b.std_dev.as_str());
    let z_score = show_plain(b.state, b.z_score.as_str());
    let fall = show_fall(b);
    let mut r = String::from_str(" ");
    push_label(&mut r, "MEAN:");
    r.append(" ");
    push_padded_right(&mut r, mean.as_str(), 9);
    r.append(" ");
    push_label(&mut r, "σ (VOL):");
    r.append(" ");
    push_padded_right(&mut r, std_dev.as_str(), 7);
    r.append(" ");
    push_label(&mut r, "Z-SCORE:");
    r.append(" ");
    push_padded_right(&mut r, z_score.as_str(), 7);
    r.append(" ");
    push_label(&mut r, "MAX DD:");
    r.append(" ");
    push_padded_right(&mut r, fall.as_str(), 14);
    r
}

/// The headline of the price chart, with the highest price in it.
pub open spec fn high_row(b: Board) -> Seq<char> {
    " "@ + label("PRICE TRAJECTORY"@) + "                                  "@ + label("HIGH:"@)
        + " "@ + CLR_GREEN@ + "$"@ + pad_left(b.chart_high@, 9) + RESET@
}

fn write_high_row(b: &Board) -> (r: String)
    ensures
        r@ == high_row(*b),
{
    let mut r = String::from_str(" ");
    push_label(&mut r, "PRICE TRAJECTORY");
    r.append("                                  ");
    push_label(&mut r, "HIGH:");
    r.append(" ");
    r.append(CLR_GREEN);
    r.append("$");
    push_padded_left(&mut r, b.chart_high.as_str(), 9);
    r.append(RESET);
    r
}

/// The footer of the price chart, with the lowest price in it.
pub open spec fn low_row(b: Board) -> Seq<char> {
    " "@ + CLR_BORDER_DIM@ + RESET@ + "                                                "@
        + label("LOW:"@) + "  "@ + CLR_RED@ + "$"@ + pad_left(b.chart_low@, 9) + RESET@
}

fn write_low_row(b: &Board) -> (r: String)
    ensures
        r@ == low_row(*b),
{
    let mut r = String::from_str(" ");
    r.append(CLR_BORDER_DIM);
    r.append(RESET);
    r.append("                                                ");
    push_label(&mut r, "LOW:");
    r.append("  ");
    r.append(CLR_RED);
    r.append("$");
    push_padded_left(&mut r, b.chart_low.as_str(), 9);
    r.append(RESET);
    r
}

/// What was done last, how long the server took, and what can be typed.
pub open spec fn status_row(b: Board) -> Seq<char> {
    " "@ + CLR_GREEN@ + cut(b.status@) + " "@ + label("RTT:"@) + " "@ + CLR_CYAN@
        + pad_left(b.latency@, 5) + "ms"@ + RESET@ + " "@ + CLR_BORDER_DIM@ + "│"@ + RESET@ + " "@
        + CLR_GOLD@ + "[1-6]"@ + RESET@ + " Switch "@ + CLR_BORDER_DIM@ + "│"@ + RESET@ + " "@
        + CLR_TEXT_WHITE@ + "[TICKER]+Enter"@ + RESET@ + " "@ + CLR_BORDER_DIM@ + "│"@ + RESET@
        + " "@ + CLR_RED@ + "[q]"@ + RESET@ + " Exit"@
}

fn write_status_row(b: &Board) -> (r: String)
    requires
        status_fits(b.status@),
    ensures
        r@ == status_row(*b),
{
    let status = cut_status(b.status.as_str());
    let mut r = String::from_str(" ");
    r.append(CLR_GREEN);
    r.append(status.as_str());
    r.append(" ");
    push_label(&mut r, "RTT:");
    r.append(" ");
    r.append(CLR_CYAN);
    push_padded_left(&mut r, b.latency.as_str(), 5);
    r.append("ms");
    r.append(RESET);
    r.append(" ");
    r.append(CLR_BORDER_DIM);
    r.append("│");
    r.append(RESET);
    r.append(" ");
    r.append(CLR_GOLD);
    r.append("[1-6]");
    r.append(RESET);
    r.append(" Switch ");
    r.append(CLR_BORDER_DIM);
    r.append("│");
    r.append(RESET);
    r.append(" ");
    r.append(CLR_TEXT_WHITE);
    r.append("[TICKER]+Enter");
    r.append(RESET);
    r.append(" ");
    r.append(CLR_BORDER_DIM);
    r.append("│");
    r.append(RESET);
    r.append(" ");
    r.append(CLR_RED);
    r.append("[q]");
    r.append(RESET);
    r.append(" Exit");
    r
}

/// The highest of some rates, or 0.
pub open spec fn peak(rates: Seq<u64>) -> u64
    decreases rates.len(),
{
    if rates.len() == 0 {
        0
    } else if peak(rates.drop_last()) < rates.last() {
        rates.last()
    } else {
        peak(rates.drop_last())
    }
}

fn find_peak(rates: &Vec<u64>) -> (r: u64)
    ensures
        r == peak(rates@),
        forall|i: int| 0 <= i < rates@.len() ==> rates@[i] <= r,
        rates@.len() > 0 ==> rates@.contains(r),
{
    let mut r: u64 = 0;
    let mut i: usize = 0;
    while i < rates.len()
        invariant
            i <= rates@.len(),
            r == peak(rates@.take(i as int)),
        decreases rates@.len() - i,
    {
        assert(rates@.take(i + 1).drop_last() =~= rates@.take(i as int));
        if r < rates[i] {
            r = rates[i];
        }
        i += 1;
    }
    assert(rates@.take(i as int) =~= rates@);
    proof {
        law_peak_is_the_highest(rates@);
    }
    r
}

/// How the feed is doing.
pub open spec fn banner(b: Board) -> Seq<char> {
    if b.rates@.len() > 0 && recent_gap(b.rates@, CHART_WIDTH as int) {
        "\x1B[48;2;60;20;25m\x1B[38;2;255;75;95;1m ⚠️ FEED DROP (0 TPS) \x1B[0m"@
    } else if b.state == ServerStatus::OnlineStreaming {
        "\x1B[48;2;15;50;30m\x1B[38;2;0;255;160;1m ✓ Active Stream \x1B[0m"@
    } else {
        "\x1B[38;2;125;135;160m ◌ Awaiting Feed \x1B[0m"@
    }
}

fn show_banner(state: ServerStatus, gap: bool) -> (r: &'static str)
    ensures
        gap ==> r@ == "\x1B[48;2;60;20;25m\x1B[38;2;255;75;95;1m ⚠️ FEED DROP (0 TPS) \x1B[0m"@,
        !gap && state == ServerStatus::OnlineStreaming ==> r@
            == "\x1B[48;2;15;50;30m\x1B[38;2;0;255;160;1m ✓ Active Stream \x1B[0m"@,
        !gap && state != ServerStatus::OnlineStreaming ==> r@
            == "\x1B[38;2;125;135;160m ◌ Awaiting Feed \x1B[0m"@,
{
    if gap {
        "\x1B[48;2;60;20;25m\x1B[38;2;255;75;95;1m ⚠️ FEED DROP (0 TPS) \x1B[0m"
    } else if streaming(state) {
        "\x1B[48;2;15;50;30m\x1B[38;2;0;255;160;1m ✓ Active Stream \x1B[0m"
    } else {
        "\x1B[38;2;125;135;160m ◌ Awaiting Feed \x1B[0m"
    }
}

/// The headline of the rate chart.
pub open spec fn rate_headline(b: Board) -> Seq<char> {
    " "@ + label("DATA INGESTION (TPS)"@) + "        "@ + label("PEAK:"@) + " "@ + CLR_CYAN@
        + pad_left(decimal(peak(b.rates@) as nat), 7) + " TPS"@ + RESET@ + "   "@ + banner(b)
}

fn write_rate_headline(b: &Board, gap: bool) -> (r: String)
    requires
        gap == (b.rates@.len() > 0 && recent_gap(b.rates@, CHART_WIDTH as int)),
    ensures
        r@ == rate_headline(*b),
{
    let highest = decimal_text(find_peak(&b.rates));
    let mut r = String::from_str(" ");
    push_label(&mut r, "DATA INGESTION (TPS)");
    r.append("        ");
    push_label(&mut r, "PEAK:");
    r.append(" ");
    r.append(CLR_CYAN);
    push_padded_left(&mut r, highest.as_str(), 7);
    r.append(" TPS");
    r.append(RESET);
    r.append("   ");
    r.append(show_banner(b.state, gap));
    r
}

/// What stands in the price chart while there are no ticks.
pub open spec fn awaiting_row() -> Seq<char> {
    "        "@ + CLR_TEXT_MUTED@
        + "\x1B[38;2;120;130;160m◌ Awaiting stream... Run 'cargo run -- ingest ALL' in another tab"@
        + RESET@ + "\x1B[0m"@
}

fn write_awaiting_row() -> (r: String)
    ensures
        r@ == awaiting_row(),
{
    let mut r = String::from_str("        ");
    r.append(CLR_TEXT_MUTED);
    r.append("\x1B[38;2;120;130;160m◌ Awaiting stream... Run 'cargo run -- ingest ALL' in another tab");
    r.append(RESET);
    r.append("\x1B[0m");
    r
}

/// Row `r` of the price chart: bars, or a hint in the middle row if there is nothing
/// to show.
pub open spec fn price_chart_row(b: Board, r: int) -> Seq<char> {
    if b.filled@.len() == 0 || b.state != ServerStatus::OnlineStreaming {
        if r == CHART_HEIGHT / 2 {
            awaiting_row()
        } else {
            ""@
        }
    } else {
        "  "@ + bar_row(b.filled@, CHART_WIDTH as nat, CHART_HEIGHT as int, r)
    }
}

/// The first `n` rows of the price chart.
pub open spec fn price_chart(b: Board, n: int) -> Seq<char>
    decreases n,
{
    if n <= 0 {
        Seq::empty()
    } else {
        price_chart(b, n - 1) + row(price_chart_row(b, n - 1))
    }
}

/// Appends the price chart.
fn push_price_chart(frame: &mut String, b: &Board)
    ensures
        final(frame)@ == old(frame)@ + price_chart(*b, CHART_HEIGHT as int),
{
    let ghost before = frame@;
    let has_data = b.filled.len() > 0 && streaming(b.state);
    let bars = render_bar_chart(b.filled.as_slice(), CHART_WIDTH, CHART_HEIGHT);
    let hint = write_awaiting_row();
    let mut r: usize = 0;
    assert(frame@ =~= before + price_chart(*b, 0));
    while r < CHART_HEIGHT
        invariant
            r <= CHART_HEIGHT,
            has_data == (b.filled@.len() > 0 && b.state == ServerStatus::OnlineStreaming),
            bars@.len() == CHART_HEIGHT,
            has_data ==> forall|k: int|
                0 <= k < CHART_HEIGHT ==> (#[trigger] bars@[k])@ == bar_row(
                    b.filled@,
                    CHART_WIDTH as nat,
                    CHART_HEIGHT as int,
                    k,
                ),
            hint@ == awaiting_row(),
            frame@ == before + price_chart(*b, r as int),
        decreases CHART_HEIGHT - r,
    {
        let mut content = String::from_str("");
        if has_data {
            content = String::from_str("  ");
            content.append(bars[r].as_str());
        } else if r == CHART_HEIGHT / 2 {
            content = String::from_str(hint.as_str());
        }
        assert(content@ == price_chart_row(*b, r as int));
        push_row(frame, content.as_str());
        r += 1;
        assert(frame@ =~= before + price_chart(*b, r as int));
    }
}

/// Row `r` of the rate chart.
pub open spec fn rate_chart_row(b: Board, r: int) -> Seq<char> {
    "  "@ + (if b.rates@.len() == 0 {
        Seq::empty()
    } else {
        rate_row(
            b.rates@,
            b.levels@,
            CHART_WIDTH as int,
            RATE_HEIGHT as int,
            r,
            CHART_WIDTH as int,
        )
    })
}

/// The first `n` rows of the rate chart.
pub open spec fn rate_chart(b: Board, n: int) -> Seq<char>
    decreases n,
{
    if n <= 0 {
        Seq::empty()
    } else {
        rate_chart(b, n - 1) + row(rate_chart_row(b, n - 1))
    }
}

/// Appends the rate chart with its headline.
fn push_rate_chart(frame: &mut String, b: &Board)
    requires
        b.levels@.len() == b.rates@.len(),
    ensures
        final(frame)@ == old(frame)@ + row(rate_headline(*b)) + rate_chart(*b, RATE_HEIGHT as int),
{
    let (lines, gap) = render_ingestion_graph(
        b.rates.as_slice(),
        b.levels.as_slice(),
        CHART_WIDTH,
        RATE_HEIGHT,
    );
    let headline = write_rate_headline(b, gap);
    push_row(frame, headline.as_str());
    let ghost before = frame@;
    let mut r: usize = 0;
    assert(frame@ =~= before + rate_chart(*b, 0));
    while r < RATE_HEIGHT
        invariant
            r <= RATE_HEIGHT,
            lines@.len() == RATE_HEIGHT,
            b.rates@.len() == 0 ==> forall|k: int|
                0 <= k < RATE_HEIGHT ==> (#[trigger] lines@[k])@ == Seq::<char>::empty(),
            b.rates@.len() > 0 ==> forall|k: int|
                0 <= k < RATE_HEIGHT ==> (#[trigger] lines@[k])@ == rate_row(
                    b.rates@,
                    b.levels@,
                    CHART_WIDTH as int,
                    RATE_HEIGHT as int,
                    k,
                    CHART_WIDTH as int,
                ),
            frame@ == before + rate_chart(*b, r as int),
        decreases RATE_HEIGHT - r,
    {
        let mut content = String::from_str("  ");
        content.append(lines[r].as_str());
        assert(content@ == rate_chart_row(*b, r as int));
        push_row(frame, content.as_str());
        r += 1;
        assert(frame@ =~= before + rate_chart(*b, r as int));
    }
}

/// The line in which one types.
pub open spec fn prompt(b: Board) -> Seq<char> {
    " "@ + CLR_PURPLE@ + CLR_TEXT_WHITE@ + "▶"@ + RESET@ + " "@ + (if b.held_input@.len() == 0 {
        Seq::empty()
    } else {
        CLR_GOLD@ + b.held_input@ + RESET@
    }) + " \x1B[K"@
}

fn write_prompt(b: &Board) -> (r: String)
    ensures
        r@ == prompt(*b),
{
    let mut input = String::new();
    if !b.held_input.as_str().is_empty() {
        input = String::from_str(CLR_GOLD);
        input.append(b.held_input.as_str());
        input.append(RESET);
    }
    let mut r = String::from_str(" ");
    r.append(CLR_PURPLE);
    r.append(CLR_TEXT_WHITE);
    r.append("▶");
    r.append(RESET);
    r.append(" ");
    r.append(input.as_str());
    r.append(" \x1B[K");
    r
}

/// A screen behind what is on it already.
pub open spec fn dashboard(before: Seq<char>, b: Board) -> Seq<char> {
    before + divider('╭', '─', '╮') + row(title_row()) + divider('├', '─', '┤') + row(host_row(b))
        + row(watch_row(b)) + divider('├', '─', '┤') + row(ticker_row(b)) + row(range_row(b)) + row(
        spread_row(b),
    ) + divider('├', '─', '┤') + row(high_row(b)) + price_chart(b, CHART_HEIGHT as int) + row(
        low_row(b),
    ) + divider('├', '─', '┤') + row(rate_headline(b)) + rate_chart(b, RATE_HEIGHT as int)
        + divider('├', '─', '┤') + row(status_row(b)) + divider('╰', '─', '╯') + prompt(b)
}

/// Draws the dashboard.
pub fn render_quant_dashboard(frame: &mut String, b: &Board)
    requires
        b.levels@.len() == b.rates@.len(),
        status_fits(b.status@),
    ensures
        final(frame)@ == dashboard(old(frame)@, *b),
{
    push_divider(frame, '╭', '─', '╮');
    push_row(frame, write_title_row().as_str());
    push_divider(frame, '├', '─', '┤');
    push_row(frame, write_host_row(b).as_str());
    push_row(frame, write_watch_row(b).as_str());
    push_divider(frame, '├', '─', '┤');
    push_row(frame, write_ticker_row(b).as_str());
    push_row(frame, write_range_row(b).as_str());
    push_row(frame, write_spread_row(b).as_str());
    push_divider(frame, '├', '─', '┤');
    push_row(frame, write_high_row(b).as_str());
    push_price_chart(frame, b);
    push_row(frame, write_low_row(b).as_str());
    push_divider(frame, '├', '─', '┤');
    push_rate_chart(frame, b);
    push_divider(frame, '├', '─', '┤');
    push_row(frame, write_status_row(b).as_str());
    push_divider(frame, '╰', '─', '╯');
    frame.append(write_prompt(b).as_str());
}

/// The peak bounds every rate, and is one of them if there are any.
pub proof fn law_peak_is_the_highest(rates: Seq<u64>)
    ensures
        forall|i: int| 0 <= i < rates.len() ==> rates[i] <= peak(rates),
        rates.len() > 0 ==> rates.contains(peak(rates)),
        rates.len() == 0 ==> peak(rates) == 0,
    decreases rates.len(),
{
    if rates.len() > 0 {
        let front = rates.drop_last();
        law_peak_is_the_highest(front);
        assert forall|i: int| 0 <= i < rates.len() implies rates[i] <= peak(rates) by {
            if i < front.len() {
                assert(front[i] == rates[i]);
            }
        }
        if peak(rates) == rates.last() {
            assert(rates[rates.len() - 1] == peak(rates));
        } else {
            let i = choose|i: int| 0 <= i < front.len() && front[i] == peak(front);
            assert(rates[i] == peak(rates));
        }
    }
}

proof fn lemma_without_zeros_behind(core: Seq<char>, back: Seq<char>)
    requires
        forall|i: int| 0 <= i < back.len() ==> #[trigger] back[i] == '\0',
        core.len() > 0 ==> core.last() != '\0',
    ensures
        without_zeros_behind(core + back) == core,
    decreases back.len(),
{
    let s = core + back;
    if back.len() > 0 {
        let less = back.drop_last();
        assert forall|i: int| 0 <= i < less.len() implies #[trigger] less[i] == '\0' by {
            assert(less[i] == back[i]);
        }
        lemma_without_zeros_behind(core, less);
        assert(s.drop_last() =~= core + less);
        assert(s.last() == back[back.len() - 1]);
    } else {
        assert(s =~= core);
    }
}

/// The zero characters around a name are taken away and nothing else.
pub proof fn law_only_zeros_around_are_stripped(
    front: Seq<char>,
    core: Seq<char>,
    back: Seq<char>,
)
    requires
        forall|i: int| 0 <= i < front.len() ==> #[trigger] front[i] == '\0',
        forall|i: int| 0 <= i < back.len() ==> #[trigger] back[i] == '\0',
        core.len() > 0 ==> core[0] != '\0' && core.last() != '\0',
    ensures
        bare(front + core + back) == core,
{
    let s = front + core + back;
    if core.len() > 0 {
        assert forall|i: int| 0 <= i < front.len() implies zero_test()(#[trigger] s[i]) by {
            assert(s[i] == front[i]);
        }
        assert(s[front.len() as int] == core[0]);
        lemma_leading(s, zero_test(), front.len() as int);
        assert(s.skip(front.len() as int) =~= core + back);
        lemma_without_zeros_behind(core, back);
    } else {
        assert forall|i: int| 0 <= i < s.len() implies zero_test()(#[trigger] s[i]) by {
            if i < front.len() {
                assert(s[i] == front[i]);
            } else {
                assert(s[i] == back[i - front.len()]);
            }
        }
        lemma_leading(s, zero_test(), s.len() as int);
        assert(s.skip(s.len() as int) =~= core);
    }
}

/// The banner above the rate chart: a drop if one of the last three rates is none at
/// all, even while the server streams; otherwise whether the server streams.
pub proof fn law_banner_warns_of_drops(b: Board)
    ensures
        ({
            let n = b.rates@.len() as int;
            let dropped = {
                ||| n >= 1 && b.rates@[n - 1] == 0
                ||| n >= 2 && b.rates@[n - 2] == 0
                ||| n >= 3 && b.rates@[n - 3] == 0
            };
            let streams = b.state == ServerStatus::OnlineStreaming;
            &&& dropped ==> banner(b)
                == "\x1B[48;2;60;20;25m\x1B[38;2;255;75;95;1m ⚠️ FEED DROP (0 TPS) \x1B[0m"@
            &&& !dropped && streams ==> banner(b)
                == "\x1B[48;2;15;50;30m\x1B[38;2;0;255;160;1m ✓ Active Stream \x1B[0m"@
            &&& !dropped && !streams ==> banner(b)
                == "\x1B[38;2;125;135;160m ◌ Awaiting Feed \x1B[0m"@
        }),
{
    law_recent_gaps_are_among_the_last_three(b.rates@, CHART_WIDTH as int);
}

/// The list of presets holds each preset with its number; it holds it marked just if it
/// is the one that is shown.
pub proof fn law_watch_list_holds_every_preset(symbol: Seq<char>, n: int, i: int)
    requires
        0 <= i < n,
    ensures
        holds(watch_items(symbol, n), preset_name(i)),
        holds(watch_items(symbol, n), decimal((i + 1) as nat)),
        preset_name(i) == symbol ==> holds(
            watch_items(symbol, n),
            "\x1B[48;2;255;185;0m\x1B[38;2;15;15;20;1m ["@ + decimal((i + 1) as nat) + "] "@ + symbol
                + " \x1B[0m "@,
        ),
        preset_name(i) != symbol ==> holds(
            watch_items(symbol, n),
            CLR_TEXT_MUTED@ + "["@ + decimal((i + 1) as nat) + "]"@ + RESET@ + " "@ + CLR_TEXT_WHITE@
                + preset_name(i) + RESET@ + " "@,
        ),
    decreases n,
{
    broadcast use lemma_holds_concat;

    if i == n - 1 {
        lemma_holds_itself(preset_name(i));
        lemma_holds_itself(decimal((i + 1) as nat));
        lemma_holds_itself(watch_item(symbol, i));
    } else {
        law_watch_list_holds_every_preset(symbol, n - 1, i);
    }
}

/// A screen holds each of its rows, whatever else is on it.
proof fn lemma_dashboard_holds_rows(before: Seq<char>, b: Board)
    ensures
        ({
            let d = dashboard(before, b);
            &&& holds(d, row(host_row(b)))
            &&& holds(d, row(watch_row(b)))
            &&& holds(d, row(ticker_row(b)))
            &&& holds(d, row(range_row(b)))
            &&& holds(d, row(spread_row(b)))
            &&& holds(d, row(high_row(b)))
            &&& holds(d, row(low_row(b)))
            &&& holds(d, row(rate_headline(b)))
            &&& holds(d, row(status_row(b)))
            &&& holds(d, price_chart(b, CHART_HEIGHT as int))
            &&& holds(d, rate_chart(b, RATE_HEIGHT as int))
            &&& holds(d, prompt(b))
        }),
{
    broadcast use lemma_holds_concat;

    lemma_holds_itself(row(host_row(b)));
    lemma_holds_itself(row(watch_row(b)));
    lemma_holds_itself(row(ticker_row(b)));
    lemma_holds_itself(row(range_row(b)));
    lemma_holds_itself(row(spread_row(b)));
    lemma_holds_itself(row(high_row(b)));
    lemma_holds_itself(row(low_row(b)));
    lemma_holds_itself(row(rate_headline(b)));
    lemma_holds_itself(row(status_row(b)));
    lemma_holds_itself(price_chart(b, CHART_HEIGHT as int));
    lemma_holds_itself(rate_chart(b, RATE_HEIGHT as int));
    lemma_holds_itself(prompt(b));
}

proof fn lemma_holds_in_turn(d: Seq<char>, r: Seq<char>, part: Seq<char>)
    requires
        holds(d, r),
        holds(r, part),
    ensures
        holds(d, part),
{
    reveal(holds);
    let k = choose|k: int|
        0 <= k && k + r.len() <= d.len() && #[trigger] d.subrange(k, k + r.len()) == r;
    let j = choose|j: int|
        0 <= j && j + part.len() <= r.len() && #[trigger] r.subrange(j, j + part.len()) == part;
    assert(d.subrange(k + j, k + j + part.len()) =~= part) by {
        assert forall|i: int| 0 <= i < part.len() implies d[k + j + i] == part[i] by {
            assert(d.subrange(k, k + r.len())[j + i] == d[k + j + i]);
            assert(r.subrange(j, j + part.len())[i] == r[j + i]);
        }
    }
}

/// What is shown of the status is its beginning: all of it if it has at most eighteen
/// bytes, and otherwise its first eighteen bytes.
pub proof fn law_status_is_cut_after_eighteen_bytes(status: Seq<char>)
    requires
        status_fits(status),
    ensures
        encode_utf8(status).len() <= 18 ==> cut(status) == status,
        encode_utf8(status).len() > 18 ==> encode_utf8(cut(status)) == encode_utf8(status).take(18),
        cut(status).len() <= status.len(),
        status.take(cut(status).len() as int) == cut(status),
{
    let bytes = encode_utf8(status);
    encode_utf8_decode_utf8(status);
    encode_utf8_valid_utf8(status);
    if bytes.len() > 18 {
        assert(bytes.take(18) =~= bytes.subrange(0, 18));
        valid_utf8_split(bytes, 18);
        decode_utf8_encode_utf8(bytes.take(18));
        decode_utf8_split(bytes, 18);
        assert(status =~= cut(status) + decode_utf8(bytes.subrange(18, bytes.len() as int)));
    }
    assert(status.take(cut(status).len() as int) =~= cut(status));
}

/// A screen is put behind what is on it already, which stays as it is and changes
/// nothing of the screen.
pub proof fn law_dashboards_are_appended(before: Seq<char>, b: Board)
    ensures
        dashboard(before, b) == before + dashboard(Seq::empty(), b),
{
    broadcast use lemma_concat_regroups;

    assert(before + Seq::<char>::empty() =~= before);
}

broadcast proof fn lemma_concat_regroups(a: Seq<char>, b: Seq<char>, c: Seq<char>)
    ensures
        #[trigger] (a + (b + c)) == a + b + c,
{
    assert(a + (b + c) =~= a + b + c);
}

/// The row on the server names the host and the port, and gives the number of ticks
/// and the state behind their labels.
pub proof fn law_dashboard_shows_the_server(before: Seq<char>, b: Board)
    ensures
        holds(dashboard(before, b), label("HOST:"@) + " "@ + b.host@),
        holds(dashboard(before, b), b.host@ + ":"@ + decimal(b.port as nat)),
        holds(
            dashboard(before, b),
            label("TICKS:"@) + (" "@ + CLR_CYAN@) + decimal(b.count as nat),
        ),
        holds(dashboard(before, b), label("STATE:"@) + " "@ + badge(b.state)),
{
    broadcast use lemma_holds_concat;

    let d = dashboard(before, b);
    let s = host_row(b);
    lemma_dashboard_holds_rows(before, b);
    lemma_holds_itself(s);
    lemma_holds_in_turn(d, row(s), s);
    let space = " "@;
    let host = label("HOST:"@);
    let a1 = space + host + space + b.host@;
    lemma_holds_label_and_value(space, host, space, b.host@);
    let port = decimal(b.port as nat);
    lemma_holds_label_and_value(space + host + space, b.host@, ":"@, port);
    let ticks = label("TICKS:"@);
    let count = pad_right(decimal(b.count as nat), 10);
    let a2 = a1 + ":"@ + port + "   "@;
    lemma_padded_starts_with(decimal(b.count as nat), 10);
    lemma_holds_labelled(a2, ticks, space + CLR_CYAN@, count, decimal(b.count as nat));
    lemma_concat_regroups(a2 + ticks, space, CLR_CYAN@);
    let a3 = a2 + ticks + space + CLR_CYAN@ + count + RESET@ + space;
    let state = label("STATE:"@);
    lemma_holds_label_and_value(a3, state, space, badge(b.state));
    assert(s == a3 + state + space + badge(b.state));
    lemma_holds_in_turn(d, s, host + space + b.host@);
    lemma_holds_in_turn(d, s, b.host@ + ":"@ + port);
    lemma_holds_in_turn(d, s, ticks + (space + CLR_CYAN@) + decimal(b.count as nat));
    lemma_holds_in_turn(d, s, state + space + badge(b.state));
}

proof fn lemma_padded_starts_with(text: Seq<char>, width: int)
    ensures
        pad_right(text, width).take(text.len() as int) == text,
{
    assert(pad_right(text, width).take(text.len() as int) =~= text);
}

proof fn lemma_colored_starts_with(color: Seq<char>, mark: Seq<char>, text: Seq<char>, width: int)
    ensures
        ({
            let start = color + mark + text;
            pad_right(start + RESET@, width).take(start.len() as int) == start
        }),
{
    let start = color + mark + text;
    assert(pad_right(start + RESET@, width).take(start.len() as int) =~= start);
}

/// While the server streams, the four prices of the range stand behind their labels.
pub proof fn law_dashboard_shows_the_range(before: Seq<char>, b: Board)
    requires
        b.state == ServerStatus::OnlineStreaming,
    ensures
        holds(dashboard(before, b), label("OPEN:"@) + " "@ + ("$"@ + b.open@)),
        holds(dashboard(before, b), label("HIGH:"@) + " "@ + (CLR_GREEN@ + "$"@ + b.high@)),
        holds(dashboard(before, b), label("LOW:"@) + " "@ + (CLR_RED@ + "$"@ + b.low@)),
        holds(dashboard(before, b), label("CLOSE:"@) + " "@ + (CLR_GOLD@ + "$"@ + b.close@)),
{
    broadcast use lemma_holds_concat;

    let d = dashboard(before, b);
    let s = range_row(b);
    lemma_dashboard_holds_rows(before, b);
    lemma_holds_itself(s);
    lemma_holds_in_turn(d, row(s), s);
    let space = " "@;
    let dollar = "$"@;
    let open = pad_right(dollar + b.open@, 10);
    let high = pad_right(CLR_GREEN@ + dollar + b.high@ + RESET@, 19);
    let low = pad_right(CLR_RED@ + dollar + b.low@ + RESET@, 19);
    let close = pad_right(CLR_GOLD@ + dollar + b.close@ + RESET@, 10);
    lemma_padded_starts_with(dollar + b.open@, 10);
    lemma_colored_starts_with(CLR_GREEN@, dollar, b.high@, 19);
    lemma_colored_starts_with(CLR_RED@, dollar, b.low@, 19);
    lemma_colored_starts_with(CLR_GOLD@, dollar, b.close@, 10);
    let a2 = space + label("OPEN:"@) + space + open + space;
    let a3 = a2 + label("HIGH:"@) + space + high + space;
    let a4 = a3 + label("LOW:"@) + space + low + space;
    lemma_holds_labelled(space, label("OPEN:"@), space, open, dollar + b.open@);
    lemma_holds_labelled(a2, label("HIGH:"@), space, high, CLR_GREEN@ + dollar + b.high@);
    lemma_holds_labelled(a3, label("LOW:"@), space, low, CLR_RED@ + dollar + b.low@);
    lemma_holds_labelled(a4, label("CLOSE:"@), space, close, CLR_GOLD@ + dollar + b.close@);
    assert(s == a4 + label("CLOSE:"@) + space + close);
    lemma_holds_in_turn(d, s, label("OPEN:"@) + space + (dollar + b.open@));
    lemma_holds_in_turn(d, s, label("HIGH:"@) + space + (CLR_GREEN@ + dollar + b.high@));
    lemma_holds_in_turn(d, s, label("LOW:"@) + space + (CLR_RED@ + dollar + b.low@));
    lemma_holds_in_turn(d, s, label("CLOSE:"@) + space + (CLR_GOLD@ + dollar + b.close@));
}

/// The name of the symbol stands behind its label, and so does the last price while
/// the server streams.
pub proof fn law_dashboard_shows_the_ticker(before: Seq<char>, b: Board)
    ensures
        holds(
            dashboard(before, b),
            label("TICKER:"@) + (" "@ + CLR_PURPLE@) + bare(b.symbol@),
        ),
        b.state == ServerStatus::OnlineStreaming ==> holds(
            dashboard(before, b),
            label("LAST:"@) + " $"@ + (CLR_GOLD@ + b.close@),
        ),
        holds(dashboard(before, b), label("DELTA:"@) + " "@ + price_delta(b)),
{
    broadcast use lemma_holds_concat;

    let d = dashboard(before, b);
    let s = ticker_row(b);
    lemma_dashboard_holds_rows(before, b);
    lemma_holds_itself(s);
    lemma_holds_in_turn(d, row(s), s);
    let space = " "@;
    let symbol = bare(b.symbol@);
    let padded = pad_right(symbol, 6);
    lemma_padded_starts_with(symbol, 6);
    lemma_holds_labelled(space, label("TICKER:"@), space + CLR_PURPLE@, padded, symbol);
    lemma_concat_regroups(space + label("TICKER:"@), space, CLR_PURPLE@);
    let a2 = space + label("TICKER:"@) + space + CLR_PURPLE@ + padded + RESET@ + "  "@;
    let last = last_price(b);
    let a3 = a2 + label("LAST:"@) + " $"@ + last + "      "@;
    lemma_holds_label_and_value(a3, label("DELTA:"@), space, price_delta(b));
    assert(s == a3 + label("DELTA:"@) + space + price_delta(b));
    lemma_holds_in_turn(d, s, label("TICKER:"@) + (space + CLR_PURPLE@) + symbol);
    lemma_holds_in_turn(d, s, label("DELTA:"@) + space + price_delta(b));
    if b.state == ServerStatus::OnlineStreaming {
        lemma_last_price_starts(b);
        lemma_holds_labelled(a2, label("LAST:"@), " $"@, last, CLR_GOLD@ + b.close@);
        lemma_holds_in_turn(d, s, label("LAST:"@) + " $"@ + (CLR_GOLD@ + b.close@));
    }
}

proof fn lemma_last_price_starts(b: Board)
    requires
        b.state == ServerStatus::OnlineStreaming,
    ensures
        (CLR_GOLD@ + b.close@).len() <= last_price(b).len(),
        last_price(b).take((CLR_GOLD@ + b.close@).len() as int) == CLR_GOLD@ + b.close@,
{
    let start = CLR_GOLD@ + b.close@;
    assert(last_price(b).take(start.len() as int) =~= start);
}

/// How far the price has come. It shows while the server streams and the first price
/// is a number above zero. A distance that is not below zero shows with a plus, one
/// below zero with a minus; both show the percentage too.
pub proof fn law_delta_has_the_sign_of_the_distance(b: Board)
    ensures
        ({
            let sign = 0x8000_0000_0000_0000u64;
            let infinity = 0x7ff0_0000_0000_0000u64;
            let shows = b.state == ServerStatus::OnlineStreaming && 0 < b.open_bits <= infinity;
            let up = b.diff_bits <= infinity || b.diff_bits == sign;
            &&& shows && up ==> holds(price_delta(b), "+$"@ + b.diff@ + " (+"@ + b.percent@ + "%)"@)
            &&& shows && !up ==> holds(
                price_delta(b),
                "-$"@ + b.diff_abs@ + " ("@ + b.percent@ + "%)"@,
            )
            &&& shows && up ==> price_delta(b).take(CLR_GREEN@.len() as int) == CLR_GREEN@
            &&& shows && !up ==> price_delta(b).take(CLR_RED@.len() as int) == CLR_RED@
            &&& !shows ==> price_delta(b) == label("--.--"@)
        }),
{
    let d = price_delta(b);
    let up = price_ge(b.diff_bits, 0);
    if b.state == ServerStatus::OnlineStreaming && price_lt(0, b.open_bits) {
        if up {
            lemma_delta_holds(CLR_GREEN@, "+$"@, b.diff@, " (+"@, b.percent@);
        } else {
            lemma_delta_holds(CLR_RED@, "-$"@, b.diff_abs@, " ("@, b.percent@);
        }
    }
}

proof fn lemma_delta_holds(
    color: Seq<char>,
    sign: Seq<char>,
    far: Seq<char>,
    mid: Seq<char>,
    percent: Seq<char>,
)
    ensures
        ({
            let d = color + sign + far + mid + percent + "%)"@ + RESET@;
            &&& holds(d, sign + far + mid + percent + "%)"@)
            &&& d.take(color.len() as int) == color
        }),
{
    reveal(holds);
    let d = color + sign + far + mid + percent + "%)"@ + RESET@;
    let part = sign + far + mid + percent + "%)"@;
    let k = color.len() as int;
    assert(d.subrange(k, k + part.len()) =~= part);
    assert(d.take(k) =~= color);
}

/// While the server streams, the mean, the deviation, the distance of the last price
/// and the largest fall stand behind their labels.
pub proof fn law_dashboard_shows_the_spread(before: Seq<char>, b: Board)
    requires
        b.state == ServerStatus::OnlineStreaming,
    ensures
        holds(dashboard(before, b), label("MEAN:"@) + " "@ + ("$"@ + b.mean@)),
        holds(dashboard(before, b), label("σ (VOL):"@) + " "@ + b.std_dev@),
        holds(dashboard(before, b), label("Z-SCORE:"@) + " "@ + b.z_score@),
        holds(dashboard(before, b), label("MAX DD:"@) + " "@ + (CLR_RED@ + b.max_drawdown@ + "%"@)),
{
    broadcast use lemma_holds_concat;

    let d = dashboard(before, b);
    let s = spread_row(b);
    lemma_dashboard_holds_rows(before, b);
    lemma_holds_itself(s);
    lemma_holds_in_turn(d, row(s), s);
    let space = " "@;
    let mean = pad_right("$"@ + b.mean@, 9);
    let dev = pad_right(b.std_dev@, 7);
    let z = pad_right(b.z_score@, 7);
    let fall = pad_right(CLR_RED@ + b.max_drawdown@ + "%"@ + RESET@, 14);
    lemma_padded_starts_with("$"@ + b.mean@, 9);
    lemma_padded_starts_with(b.std_dev@, 7);
    lemma_padded_starts_with(b.z_score@, 7);
    lemma_colored_starts_with(CLR_RED@, b.max_drawdown@, "%"@, 14);
    let a2 = space + label("MEAN:"@) + space + mean + space;
    let a3 = a2 + label("σ (VOL):"@) + space + dev + space;
    let a4 = a3 + label("Z-SCORE:"@) + space + z + space;
    lemma_holds_labelled(space, label("MEAN:"@), space, mean, "$"@ + b.mean@);
    lemma_holds_labelled(a2, label("σ (VOL):"@), space, dev, b.std_dev@);
    lemma_holds_labelled(a3, label("Z-SCORE:"@), space, z, b.z_score@);
    lemma_holds_labelled(a4, label("MAX DD:"@), space, fall, CLR_RED@ + b.max_drawdown@ + "%"@);
    assert(s == a4 + label("MAX DD:"@) + space + fall);
    lemma_holds_in_turn(d, s, label("MEAN:"@) + space + ("$"@ + b.mean@));
    lemma_holds_in_turn(d, s, label("σ (VOL):"@) + space + b.std_dev@);
    lemma_holds_in_turn(d, s, label("Z-SCORE:"@) + space + b.z_score@);
    lemma_holds_in_turn(d, s, label("MAX DD:"@) + space + (CLR_RED@ + b.max_drawdown@ + "%"@));
}

/// The bounds of the price chart, the peak of the rates, the status with how long the
/// server took, and what was typed are all on the screen.
pub proof fn law_dashboard_shows_the_rest(before: Seq<char>, b: Board)
    ensures
        ({
            let d = dashboard(before, b);
            &&& holds(d, CLR_GREEN@ + "$"@ + pad_left(b.chart_high@, 9))
            &&& holds(d, CLR_RED@ + "$"@ + pad_left(b.chart_low@, 9))
            &&& holds(d, CLR_CYAN@ + pad_left(decimal(peak(b.rates@) as nat), 7) + " TPS"@)
            &&& holds(d, banner(b))
            &&& holds(d, CLR_GREEN@ + cut(b.status@) + " "@)
            &&& holds(d, CLR_CYAN@ + pad_left(b.latency@, 5) + "ms"@)
            &&& holds(d, b.held_input@)
            &&& forall|i: int|
                0 <= i < PRESET_COUNT ==> holds(d, #[trigger] watch_item(bare(b.symbol@), i))
        }),
{
    broadcast use lemma_holds_concat;

    let d = dashboard(before, b);
    lemma_dashboard_holds_rows(before, b);
    lemma_rest_of_rows(b);
    lemma_holds_itself(high_row(b));
    lemma_holds_itself(low_row(b));
    lemma_holds_itself(rate_headline(b));
    lemma_holds_itself(status_row(b));
    lemma_holds_itself(watch_row(b));
    lemma_holds_in_turn(d, row(high_row(b)), high_row(b));
    lemma_holds_in_turn(d, row(low_row(b)), low_row(b));
    lemma_holds_in_turn(d, row(rate_headline(b)), rate_headline(b));
    lemma_holds_in_turn(d, row(status_row(b)), status_row(b));
    lemma_holds_in_turn(d, row(watch_row(b)), watch_row(b));
    lemma_holds_in_turn(d, high_row(b), CLR_GREEN@ + "$"@ + pad_left(b.chart_high@, 9));
    lemma_holds_in_turn(d, low_row(b), CLR_RED@ + "$"@ + pad_left(b.chart_low@, 9));
    lemma_holds_in_turn(
        d,
        rate_headline(b),
        CLR_CYAN@ + pad_left(decimal(peak(b.rates@) as nat), 7) + " TPS"@,
    );
    lemma_holds_in_turn(d, rate_headline(b), banner(b));
    lemma_holds_in_turn(d, status_row(b), CLR_GREEN@ + cut(b.status@) + " "@);
    lemma_holds_in_turn(d, status_row(b), CLR_CYAN@ + pad_left(b.latency@, 5) + "ms"@);
    lemma_holds_in_turn(d, prompt(b), b.held_input@);
    assert forall|i: int| 0 <= i < PRESET_COUNT implies holds(
        d,
        #[trigger] watch_item(bare(b.symbol@), i),
    ) by {
        lemma_watch_items_hold(bare(b.symbol@), PRESET_COUNT as int, i);
        assert(holds(watch_row(b), watch_item(bare(b.symbol@), i)));
        lemma_holds_in_turn(d, watch_row(b), watch_item(bare(b.symbol@), i));
    }
}

proof fn lemma_watch_items_hold(symbol: Seq<char>, n: int, i: int)
    requires
        0 <= i < n,
    ensures
        holds(watch_items(symbol, n), watch_item(symbol, i)),
    decreases n,
{
    broadcast use lemma_holds_concat;

    if i == n - 1 {
        lemma_holds_itself(watch_item(symbol, i));
    } else {
        lemma_watch_items_hold(symbol, n - 1, i);
    }
}

proof fn lemma_rest_of_rows(b: Board)
    ensures
        holds(high_row(b), CLR_GREEN@ + "$"@ + pad_left(b.chart_high@, 9)),
        holds(low_row(b), CLR_RED@ + "$"@ + pad_left(b.chart_low@, 9)),
        holds(
            rate_headline(b),
            CLR_CYAN@ + pad_left(decimal(peak(b.rates@) as nat), 7) + " TPS"@,
        ),
        holds(rate_headline(b), banner(b)),
        holds(status_row(b), CLR_GREEN@ + cut(b.status@) + " "@),
        holds(status_row(b), CLR_CYAN@ + pad_left(b.latency@, 5) + "ms"@),
        holds(prompt(b), b.held_input@),
{
    broadcast use lemma_holds_concat;

    let space = " "@;
    lemma_holds_label_and_value(
        space + label("PRICE TRAJECTORY"@) + "                                  "@ + label(
            "HIGH:"@,
        ) + space,
        CLR_GREEN@,
        "$"@,
        pad_left(b.chart_high@, 9),
    );
    lemma_holds_label_and_value(
        space + CLR_BORDER_DIM@ + RESET@ + "                                                "@
            + label("LOW:"@) + "  "@,
        CLR_RED@,
        "$"@,
        pad_left(b.chart_low@, 9),
    );
    lemma_holds_label_and_value(
        space + label("DATA INGESTION (TPS)"@) + "        "@ + label("PEAK:"@) + space,
        CLR_CYAN@,
        pad_left(decimal(peak(b.rates@) as nat), 7),
        " TPS"@,
    );
    lemma_holds_itself(banner(b));
    lemma_holds_label_and_value(space, CLR_GREEN@, cut(b.status@), space);
    lemma_holds_label_and_value(
        space + CLR_GREEN@ + cut(b.status@) + space + label("RTT:"@) + space,
        CLR_CYAN@,
        pad_left(b.latency@, 5),
        "ms"@,
    );
    lemma_holds_itself(b.held_input@);
    if b.held_input@.len() == 0 {
        lemma_holds_itself(Seq::<char>::empty());
        assert(b.held_input@ =~= Seq::<char>::empty());
    }
}

/// Without ticks, every price is replaced by dashes.
pub proof fn law_no_prices_without_ticks(b: Board, color: Seq<char>, text: Seq<char>)
    requires
        b.state != ServerStatus::OnlineStreaming,
    ensures
        plain_or_dashes(b.state, text) == label("--.--"@),
        price_or_dashes(b.state, color, text) == label("--.--"@),
        price_delta(b) == label("--.--"@),
        last_price(b) == label("--.--   "@),
        fall_or_dashes(b) == label("--.--%"@),
        forall|r: int|
            #![trigger price_chart_row(b, r)]
            price_chart_row(b, r) == (if r == 1 {
                awaiting_row()
            } else {
                ""@
            }),
{
}

/// The charts hold each of their rows.
pub proof fn law_charts_hold_every_row(b: Board, n: int, r: int)
    requires
        0 <= r < n,
    ensures
        holds(price_chart(b, n), row(price_chart_row(b, r))),
        holds(rate_chart(b, n), row(rate_chart_row(b, r))),
    decreases n,
{
    broadcast use lemma_holds_concat;

    if r == n - 1 {
        lemma_holds_itself(row(price_chart_row(b, r)));
        lemma_holds_itself(row(rate_chart_row(b, r)));
    } else {
        law_charts_hold_every_row(b, n - 1, r);
    }
}

/// The badge names the state of the server.
pub proof fn law_badges_name_the_state(state: ServerStatus)
    ensures
        state == ServerStatus::OnlineStreaming ==> holds(badge(state), " STREAMING "@),
        state == ServerStatus::OnlineIdle ==> holds(badge(state), " AWAITING "@),
        state == ServerStatus::Offline ==> holds(badge(state), " OFFLINE "@),
{
    reveal_strlit(" STREAMING ");
    reveal_strlit(" AWAITING ");
    reveal_strlit(" OFFLINE ");
    reveal_strlit("\x1B[48;2;15;60;35m\x1B[38;2;0;255;160;1m ● STREAMING \x1B[0m");
    reveal_strlit("\x1B[48;2;60;50;15m\x1B[38;2;255;200;50;1m ◌ AWAITING \x1B[0m");
    reveal_strlit("\x1B[48;2;60;20;25m\x1B[38;2;255;80;90;1m ✕ OFFLINE \x1B[0m");
    let text = badge(state);
    if state == ServerStatus::OnlineStreaming {
        assert(text.subrange(37, 48) =~= " STREAMING "@);
        lemma_holds_at(text, " STREAMING "@, 37);
    } else if state == ServerStatus::OnlineIdle {
        assert(text.subrange(38, 48) =~= " AWAITING "@);
        lemma_holds_at(text, " AWAITING "@, 38);
    } else {
        assert(text.subrange(37, 46) =~= " OFFLINE "@);
        lemma_holds_at(text, " OFFLINE "@, 37);
    }
}

/// The price chart has three rows of 62 bars while there is something to show, and the
/// rate chart has two rows of 62 columns as soon as there are rates.
pub proof fn law_sizes_of_charts(b: Board, r: int)
    ensures
        b.filled@.len() > 0 && b.state == ServerStatus::OnlineStreaming ==> price_chart_row(b, r)
            == "  "@ + bar_row(b.filled@, 62, 3, r),
        b.filled@.len() == 0 ==> price_chart_row(b, r) == (if r == 1 {
            awaiting_row()
        } else {
            ""@
        }),
        b.rates@.len() > 0 ==> rate_chart_row(b, r) == "  "@ + rate_row(
            b.rates@,
            b.levels@,
            62,
            2,
            r,
            62,
        ),
        b.rates@.len() == 0 ==> rate_chart_row(b, r) == "  "@ + Seq::<char>::empty(),
{
}

/// A screen is a frame of sections: the title; the server and the presets; the symbol and
/// its statistics; the price chart between its bounds; the rate chart under its headline;
/// the status; and below the frame the line in which one types.
pub proof fn law_dashboards_have_sections(before: Seq<char>, b: Board)
    ensures
        ({
            let line = divider('├', '─', '┤');
            let title = divider('╭', '─', '╮') + row(title_row());
            let server = line + row(host_row(b)) + row(watch_row(b));
            let symbol = line + row(ticker_row(b)) + row(range_row(b)) + row(spread_row(b));
            let prices = line + row(high_row(b)) + price_chart(b, 3) + row(low_row(b));
            let rates = line + row(rate_headline(b)) + rate_chart(b, 2);
            let status = line + row(status_row(b)) + divider('╰', '─', '╯');
            dashboard(before, b) == before + title + server + symbol + prices + rates + status
                + prompt(b)
        }),
{
    broadcast use lemma_concat_regroups;

}

/// A muted text is the text in the muted color and nothing else: as many characters show
/// as show of the text alone.
pub proof fn law_labels_hold_their_text(text: Seq<char>)
    requires
        forall|i: int| 0 <= i < text.len() ==> text[i] != '\x1B',
    ensures
        ({
            let n = CLR_TEXT_MUTED@.len() as int;
            &&& label(text).take(n) == CLR_TEXT_MUTED@
            &&& label(text).subrange(n, n + text.len()) == text
            &&& label(text).skip(n + text.len()) == RESET@
            &&& shown(label(text), false) == (text.len() as int, false)
        }),
{
    reveal_strlit("\x1B[38;2;125;135;160m");
    reveal_strlit("\x1B[0m");
    let n = CLR_TEXT_MUTED@.len() as int;
    lemma_shown_escape(CLR_TEXT_MUTED@, false);
    lemma_shown_escape(RESET@, false);
    lemma_shown_plain(text);
    lemma_shown_concat(CLR_TEXT_MUTED@, text, false);
    lemma_shown_concat(CLR_TEXT_MUTED@ + text, RESET@, false);
    assert(label(text).take(n) =~= CLR_TEXT_MUTED@);
    assert(label(text).subrange(n, n + text.len()) =~= text);
    assert(label(text).skip(n + text.len()) =~= RESET@);
}

} // verus!
