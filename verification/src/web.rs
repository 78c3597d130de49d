//! The pages that the server shows to a browser.
use vstd::prelude::*;
use vstd::string::StringExecFns;
use vstd::utf8::encode_utf8;

use crate::text::{
    decimal, decimal_text, decimal_value, holds, law_decimal_denotes_the_number, lemma_holds_concat,
    lemma_holds_label_and_value,
};

verus! {

/// The chart, from the start to the name.
pub const SVG_OPEN: &'static str = r##"<svg xmlns="http://www.w3.org/2000/svg" viewBox="0 0 800 400" style="background-color:#000000; font-family:'Courier New', monospace;">
                                                            <rect width="100%" height="100%" fill="#000000"/>

                                                            <line x1="150" y1="250" x2="650" y2="250" stroke="#222222" stroke-dasharray="4,4"/>
                                                            <line x1="150" y1="300" x2="650" y2="300" stroke="#333333" stroke-dasharray="4,4"/>
                                                            <line x1="150" y1="350" x2="650" y2="350" stroke="#222222" stroke-dasharray="4,4"/>
                                                            <line x1="400" y1="250" x2="400" y2="350" stroke="#333333" stroke-dasharray="4,4"/>

                                                            <text x="50" y="45" fill="#FF9900" font-size="28" font-weight="bold">TARGET: "##;

/// The chart, ahead of the number of ticks.
pub const SVG_VOLUME: &'static str = r##" CORP</text>
                                                            <rect x="50" y="60" width="80" height="18" fill="#FF9900"/>
                                                            <text x="55" y="73" fill="#000000" font-size="12" font-weight="bold">LIVE FEED</text>

                                                            <text x="50" y="110" fill="#CCCCCC" font-size="14">VOL: "##;

/// The chart, ahead of the mean.
pub const SVG_MEAN: &'static str = r##" TICKS</text>
                                                            <text x="50" y="135" fill="#00FFFF" font-size="14">VWAP: $"##;

/// The chart, ahead of the largest fall.
pub const SVG_DRAWDOWN: &'static str = r##"</text>
                                                            <text x="50" y="160" fill="#FF5555" font-size="14">PEAK MDD: "##;

/// The chart, ahead of the upper band.
pub const SVG_UPPER: &'static str = r##"%</text>

                                                            <rect x="150" y="250" width="500" height="100" fill="rgba(0, 255, 255, 0.03)" stroke="#00FFFF" stroke-width="1" stroke-dasharray="2,2"/>
                                                            <text x="150" y="240" fill="#00FF00" font-size="14" font-weight="bold">UPPER BAND (2σ): $"##;

/// The chart, ahead of the lower band.
pub const SVG_LOWER: &'static str = r##"</text>
                                                            <text x="150" y="370" fill="#FF0000" font-size="14" font-weight="bold">LOWER BAND (2σ): $"##;

/// The chart, ahead of the line.
pub const SVG_LINE: &'static str = r##"</text>

                                                            "##;

/// The chart, ahead of the height of the dot.
pub const SVG_DOT: &'static str = r##"
                                                            <circle cx="400" cy=""##;

/// The chart, ahead of the height of the last price.
pub const SVG_LAST_AT: &'static str = r##"" r="5" fill="#FFFFFF" />
                                                            <text x="415" y=""##;

/// The chart, ahead of the last price.
pub const SVG_LAST: &'static str = r##"" fill="#FFFFFF" font-size="15" font-weight="bold">LAST: $"##;

/// The chart, ahead of the distance from the mean.
pub const SVG_Z: &'static str = r##"  [Z: "##;

/// The chart, ahead of the height of the footer.
pub const SVG_FOOT_AT: &'static str = r##"]</text>
                                                            <text x="415" y=""##;

/// The chart, to the end.
pub const SVG_CLOSE: &'static str = r##"" fill="#888888" font-size="12">ENGINE: POSIX LOCK-FREE</text>
                                                        </svg>"##;

/// The line of the last prices, from the start to its points.
pub const LINE_OPEN: &'static str = r##"<polyline points=""##;

/// The line of the last prices, behind its points.
pub const LINE_CLOSE: &'static str = r##"" fill="none" stroke="#FF9900" stroke-width="2" stroke-linejoin="round" stroke-linecap="round"/>"##;

/// The page that tells how to ask for a chart.
pub const GREETING: &'static str = "<html><body style='background:#0d1117;color:#c9d1d9;font-family:monospace;padding:2rem;'><h2>ZERO-DEP-TSDB HTTP GATEWAY</h2><p>Try appending a ticker to the URL: <a href='/AAPL' style='color:#58a6ff;'>/AAPL</a></p></body></html>";

/// The head of an answer with a chart. It asks the browser to come back.
pub const CHART_HEAD: &'static str = "HTTP/1.1 200 OK\r\nContent-Type: image/svg+xml\r\nRefresh: 1\r\nConnection: close\r\nContent-Length: ";

/// The head of an answer with a page.
pub const PAGE_HEAD: &'static str = "HTTP/1.1 200 OK\r\nContent-Type: text/html\r\nConnection: close\r\nContent-Length: ";

/// An answer: a head, the length of the body in bytes, and the body.
pub open spec fn response(head: Seq<char>, body: Seq<char>) -> Seq<char> {
    head + decimal(encode_utf8(body).len()) + "\r\n\r\n"@ + body
}

/// Puts an answer together.
fn respond(head: &str, body: &str) -> (r: String)
    ensures
        r@ == response(head@, body@),
{
    let len: usize = body.as_bytes().len();
    let digits = decimal_text(len as u64);
    let mut r = String::from_str(head);
    r.append(digits.as_str());
    r.append("\r\n\r\n");
    r.append(body);
    r
}

/// The numbers of a chart, written out, and the line of the last prices.
pub struct ChartTexts {
    pub count: u64,
    pub mean: String,
    pub max_drawdown: String,
    pub upper: String,
    pub lower: String,
    pub close: String,
    pub z_score: String,
    /// The points of the line, oldest first.
    pub points: Vec<String>,
    /// The height of the dot for the last price, and of the texts beside it.
    pub dot_y: String,
    pub last_y: String,
    pub foot_y: String,
}

/// Texts with a blank between any two.
pub open spec fn spaced(texts: Seq<String>) -> Seq<char>
    decreases texts.len(),
{
    if texts.len() == 0 {
        Seq::empty()
    } else if texts.len() == 1 {
        texts[0]@
    } else {
        spaced(texts.drop_last()) + " "@ + texts.last()@
    }
}

/// The line through the points; none if there are fewer than two.
pub open spec fn trajectory(points: Seq<String>) -> Seq<char> {
    if points.len() > 1 {
        LINE_OPEN@ + spaced(points) + LINE_CLOSE@
    } else {
        Seq::empty()
    }
}

/// Draws the line through the points.
fn draw_line(points: &Vec<String>) -> (r: String)
    ensures
        r@ == trajectory(points@),
{
    if points.len() < 2 {
        return String::new();
    }
    let mut r = String::from_str(LINE_OPEN);
    r.append(points[0].as_str());
    let mut i: usize = 1;
    assert(points@.take(1)[0] == points@[0]);
    while i < points.len()
        invariant
            1 <= i <= points@.len(),
            r@ == LINE_OPEN@ + spaced(points@.take(i as int)),
        decreases points@.len() - i,
    {
        r.append(" ");
        r.append(points[i].as_str());
        proof {
            let more = points@.take(i + 1);
            assert(more.drop_last() =~= points@.take(i as int));
            assert(more.last() == points@[i as int]);
            assert(r@ =~= LINE_OPEN@ + spaced(more));
        }
        i += 1;
    }
    assert(points@.take(i as int) =~= points@);
    r.append(LINE_CLOSE);
    r
}

/// The chart of a symbol.
pub open spec fn chart(name: Seq<char>, t: ChartTexts) -> Seq<char> {
    SVG_OPEN@ + name + SVG_VOLUME@ + decimal(t.count as nat) + SVG_MEAN@ + t.mean@ + SVG_DRAWDOWN@
        + t.max_drawdown@ + SVG_UPPER@ + t.upper@ + SVG_LOWER@ + t.lower@ + SVG_LINE@ + trajectory(
        t.points@,
    ) + SVG_DOT@ + t.dot_y@ + SVG_LAST_AT@ + t.last_y@ + SVG_LAST@ + t.close@ + SVG_Z@ + t.z_score@
        + SVG_FOOT_AT@ + t.foot_y@ + SVG_CLOSE@
}

/// The answer with the chart of a symbol. The length that it announces is that of
/// the chart in bytes.
pub fn chart_page(name: &str, t: &ChartTexts) -> (r: String)
    ensures
        r@ == response(CHART_HEAD@, chart(name@, *t)),
{
    let count = decimal_text(t.count);
    let line = draw_line(&t.points);
    let mut svg = String::from_str(SVG_OPEN);
    svg.append(name);
    svg.append(SVG_VOLUME);
    svg.append(count.as_str());
    svg.append(SVG_MEAN);
    svg.append(t.mean.as_str());
    svg.append(SVG_DRAWDOWN);
    svg.append(t.max_drawdown.as_str());
    svg.append(SVG_UPPER);
    svg.append(t.upper.as_str());
    svg.append(SVG_LOWER);
    svg.append(t.lower.as_str());
    svg.append(SVG_LINE);
    svg.append(line.as_str());
    svg.append(SVG_DOT);
    svg.append(t.dot_y.as_str());
    svg.append(SVG_LAST_AT);
    svg.append(t.last_y.as_str());
    svg.append(SVG_LAST);
    svg.append(t.close.as_str());
    svg.append(SVG_Z);
    svg.append(t.z_score.as_str());
    svg.append(SVG_FOOT_AT);
    svg.append(t.foot_y.as_str());
    svg.append(SVG_CLOSE);
    respond(CHART_HEAD, svg.as_str())
}

/// The answer with the page that tells how to ask for a chart.
pub fn greeting_page() -> (r: String)
    ensures
        r@ == response(PAGE_HEAD@, GREETING@),
{
    respond(PAGE_HEAD, GREETING)
}

/// How many characters some texts have in all.
pub open spec fn total_len(texts: Seq<String>) -> int
    decreases texts.len(),
{
    if texts.len() == 0 {
        0
    } else {
        total_len(texts.drop_last()) + texts.last()@.len()
    }
}

/// Where a text starts among texts with a blank between any two.
pub open spec fn text_start(texts: Seq<String>, i: int) -> int
    decreases i,
{
    if i <= 0 {
        0
    } else {
        text_start(texts, i - 1) + texts[i - 1]@.len() + 1
    }
}

/// Texts with a blank between any two hold each of them, in order: text number `i`
/// stands behind the texts ahead of it and one blank for each, and a blank follows it
/// unless it is the last. Nothing else is there.
pub proof fn law_every_point_is_in_the_line(texts: Seq<String>, i: int)
    requires
        0 <= i < texts.len(),
    ensures
        ({
            let line = spaced(texts);
            let start = text_start(texts, i);
            let end = start + texts[i]@.len();
            &&& line.len() == total_len(texts) + texts.len() - 1
            &&& 0 <= start && end <= line.len()
            &&& line.subrange(start, end) == texts[i]@
            &&& i < texts.len() - 1 ==> end < line.len() && line[end] == ' '
            &&& i == texts.len() - 1 ==> end == line.len()
        }),
    decreases texts.len(),
{
    reveal_strlit(" ");
    let front = texts.drop_last();
    let n = front.len() as int;
    let line = spaced(texts);
    if n > 0 {
        law_every_point_is_in_the_line(front, n - 1);
        lemma_text_start(front, texts, n - 1);
        assert(line == spaced(front) + " "@ + texts.last()@);
        if i < n {
            law_every_point_is_in_the_line(front, i);
            lemma_text_start(front, texts, i);
            let start = text_start(texts, i);
            let end = start + texts[i]@.len();
            assert(front[i] == texts[i]);
            assert(line.subrange(start, end) =~= spaced(front).subrange(start, end));
        } else {
            let start = text_start(texts, n);
            assert(front[n - 1] == texts[n - 1]);
            assert(start == spaced(front).len() + 1);
            assert(line.subrange(start, line.len() as int) =~= texts.last()@);
        }
    } else {
        assert(total_len(front) == 0);
        assert(line.subrange(0, line.len() as int) =~= line);
    }
}

proof fn lemma_text_start(front: Seq<String>, texts: Seq<String>, i: int)
    requires
        0 <= i <= front.len() <= texts.len(),
        forall|k: int| 0 <= k < front.len() ==> front[k] == texts[k],
    ensures
        text_start(front, i) == text_start(texts, i),
    decreases i,
{
    if i > 0 {
        lemma_text_start(front, texts, i - 1);
    }
}

/// A line is drawn through two points or more, and holds all of them between its start
/// and its end; fewer points have none.
pub proof fn law_lines_need_two_points(points: Seq<String>)
    ensures
        points.len() < 2 ==> trajectory(points).len() == 0,
        points.len() >= 2 ==> trajectory(points).len() == LINE_OPEN@.len() + total_len(points)
            + points.len() - 1 + LINE_CLOSE@.len(),
        points.len() >= 2 ==> forall|i: int|
            0 <= i < points.len() ==> {
                let start = LINE_OPEN@.len() + text_start(points, i);
                trajectory(points).subrange(start, start + (#[trigger] points[i])@.len())
                    == points[i]@
            },
{
    if points.len() >= 2 {
        law_every_point_is_in_the_line(points, 0);
        assert forall|i: int| 0 <= i < points.len() implies {
            let start = LINE_OPEN@.len() + text_start(points, i);
            trajectory(points).subrange(start, start + (#[trigger] points[i])@.len())
                == points[i]@
        } by {
            law_every_point_is_in_the_line(points, i);
            let from = text_start(points, i);
            let start = LINE_OPEN@.len() + from;
            assert(trajectory(points).subrange(start, start + points[i]@.len()) =~= spaced(
                points,
            ).subrange(from, from + points[i]@.len()));
        }
    }
}

/// An answer starts with its head, ends with its body, and announces in between just
/// as many bytes as the body has.
pub proof fn law_answers_announce_their_length(head: Seq<char>, body: Seq<char>)
    ensures
        ({
            let r = response(head, body);
            let from = head.len() as int;
            let to = r.len() - body.len() - 4;
            &&& from < to
            &&& r.take(from) == head
            &&& r.skip(to + 4) == body
            &&& r[to] == '\r' && r[to + 1] == '\n' && r[to + 2] == '\r' && r[to + 3] == '\n'
            &&& decimal_value(r.subrange(from, to)) == encode_utf8(body).len()
        }),
{
    reveal_strlit("\r\n\r\n");
    let r = response(head, body);
    let digits = decimal(encode_utf8(body).len());
    let from = head.len() as int;
    let to = r.len() - body.len() - 4;
    law_decimal_denotes_the_number(encode_utf8(body).len());
    assert(r.take(from) =~= head);
    assert(r.skip(to + 4) =~= body);
    assert(r.subrange(from, to) =~= digits);
}

/// A chart holds the name and every number of the symbol, each between the texts that
/// belong to it.
pub proof fn law_charts_hold_every_number(name: Seq<char>, t: ChartTexts)
    ensures
        ({
            let c = chart(name, t);
            &&& holds(c, SVG_OPEN@ + name + SVG_VOLUME@)
            &&& holds(c, SVG_VOLUME@ + decimal(t.count as nat) + SVG_MEAN@)
            &&& holds(c, SVG_MEAN@ + t.mean@ + SVG_DRAWDOWN@)
            &&& holds(c, SVG_DRAWDOWN@ + t.max_drawdown@ + SVG_UPPER@)
            &&& holds(c, SVG_UPPER@ + t.upper@ + SVG_LOWER@)
            &&& holds(c, SVG_LOWER@ + t.lower@ + SVG_LINE@)
            &&& holds(c, SVG_LINE@ + trajectory(t.points@) + SVG_DOT@)
            &&& holds(c, SVG_DOT@ + t.dot_y@ + SVG_LAST_AT@)
            &&& holds(c, SVG_LAST_AT@ + t.last_y@ + SVG_LAST@)
            &&& holds(c, SVG_LAST@ + t.close@ + SVG_Z@)
            &&& holds(c, SVG_Z@ + t.z_score@ + SVG_FOOT_AT@)
            &&& holds(c, SVG_FOOT_AT@ + t.foot_y@ + SVG_CLOSE@)
        }),
{
    broadcast use lemma_holds_concat;

    let count = decimal(t.count as nat);
    let line = trajectory(t.points@);
    let a0 = Seq::<char>::empty();
    lemma_holds_label_and_value(a0, SVG_OPEN@, name, SVG_VOLUME@);
    assert(a0 + SVG_OPEN@ =~= SVG_OPEN@);
    let a1 = SVG_OPEN@ + name;
    lemma_holds_label_and_value(a1, SVG_VOLUME@, count, SVG_MEAN@);
    let a2 = a1 + SVG_VOLUME@ + count;
    lemma_holds_label_and_value(a2, SVG_MEAN@, t.mean@, SVG_DRAWDOWN@);
    let a3 = a2 + SVG_MEAN@ + t.mean@;
    lemma_holds_label_and_value(a3, SVG_DRAWDOWN@, t.max_drawdown@, SVG_UPPER@);
    let a4 = a3 + SVG_DRAWDOWN@ + t.max_drawdown@;
    lemma_holds_label_and_value(a4, SVG_UPPER@, t.upper@, SVG_LOWER@);
    let a5 = a4 + SVG_UPPER@ + t.upper@;
    lemma_holds_label_and_value(a5, SVG_LOWER@, t.lower@, SVG_LINE@);
    let a6 = a5 + SVG_LOWER@ + t.lower@;
    lemma_holds_label_and_value(a6, SVG_LINE@, line, SVG_DOT@);
    let a7 = a6 + SVG_LINE@ + line;
    lemma_holds_label_and_value(a7, SVG_DOT@, t.dot_y@, SVG_LAST_AT@);
    let a8 = a7 + SVG_DOT@ + t.dot_y@;
    lemma_holds_label_and_value(a8, SVG_LAST_AT@, t.last_y@, SVG_LAST@);
    let a9 = a8 + SVG_LAST_AT@ + t.last_y@;
    lemma_holds_label_and_value(a9, SVG_LAST@, t.close@, SVG_Z@);
    let a10 = a9 + SVG_LAST@ + t.close@;
    lemma_holds_label_and_value(a10, SVG_Z@, t.z_score@, SVG_FOOT_AT@);
    let a11 = a10 + SVG_Z@ + t.z_score@;
    lemma_holds_label_and_value(a11, SVG_FOOT_AT@, t.foot_y@, SVG_CLOSE@);
}

} // verus!
