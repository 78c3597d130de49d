//! Charts made of characters: the last prices as bars, and the last rates of a feed.
use vstd::prelude::*;
use vstd::string::StringExecFns;

use crate::terminal::{
    lemma_shown_concat, lemma_shown_escape, lemma_shown_plain, shown, RESET,
};

verus! {

pub const ROW_DARK: &'static str = "\x1B[38;2;180;110;20m";

pub const ROW_MIDDLE: &'static str = "\x1B[38;2;230;155;30m";

pub const ROW_BRIGHT: &'static str = "\x1B[38;2;255;245;150;1m";

pub const GAP_CELL: &'static str = "\x1B[38;2;255;75;75m_\x1B[0m";

pub const RATE_COLOR: &'static str = "\x1B[38;2;46;204;113m";

/// How many of the last samples are shown in `width` columns.
pub open spec fn sample_count(len: int, width: int) -> int {
    if len < width {
        len
    } else {
        width
    }
}

/// Which sample stands in column `x`; the last one stands on the right. It is
/// negative for columns that stay empty.
pub open spec fn sample_at(len: int, width: int, x: int) -> int {
    if x < width - sample_count(len, width) {
        -1
    } else {
        len - width + x
    }
}

/// The color of a row of bars: bright at the top, dark at the bottom.
pub open spec fn row_color(height: int, r: int) -> Seq<char> {
    let i = if height == 1 {
        2
    } else {
        (height - 1 - r) * 2 / (height - 1)
    };
    if i == 0 {
        ROW_DARK@
    } else if i == 1 {
        ROW_MIDDLE@
    } else {
        ROW_BRIGHT@
    }
}

/// A cell of a bar chart, in row `r` from the top and column `x`, where `filled`
/// tells how many rows each bar has.
pub open spec fn bar_cell(filled: Seq<usize>, width: int, height: int, r: int, x: int) -> char {
    let i = sample_at(filled.len() as int, width, x);
    if i >= 0 && height - r <= filled[i] {
        '█'
    } else {
        ' '
    }
}

/// A row of a bar chart.
pub open spec fn bar_row(filled: Seq<usize>, width: nat, height: int, r: int) -> Seq<char> {
    row_color(height, r) + Seq::new(
        width,
        |x: int| bar_cell(filled, width as int, height, r, x),
    ) + RESET@
}

/// Chooses the color of a row of bars.
fn choose_row_color(height: usize, r: usize) -> (s: &'static str)
    requires
        r < height,
    ensures
        s@ == row_color(height as int, r as int),
{
    if height == 1 {
        return ROW_BRIGHT;
    }
    let up: u128 = (height - 1 - r) as u128;
    let top: u128 = (height - 1) as u128;
    let i: u128 = up * 2 / top;
    if i == 0 {
        ROW_DARK
    } else if i == 1 {
        ROW_MIDDLE
    } else {
        ROW_BRIGHT
    }
}

/// Empty lines.
fn empty_lines(height: usize) -> (lines: Vec<String>)
    ensures
        lines@.len() == height,
        forall|r: int| 0 <= r < height ==> (#[trigger] lines@[r])@ == Seq::<char>::empty(),
{
    let mut lines: Vec<String> = Vec::new();
    let mut r: usize = 0;
    while r < height
        invariant
            r <= height,
            lines@.len() == r,
            forall|k: int| 0 <= k < r ==> (#[trigger] lines@[k])@ == Seq::<char>::empty(),
        decreases height - r,
    {
        lines.push(String::new());
        r += 1;
    }
    lines
}

/// Draws bars, from the top row to the bottom row. `filled` tells how many rows each
/// bar has; as many of the last bars are shown as there are columns.
pub fn render_bar_chart(filled: &[usize], width: usize, height: usize) -> (lines: Vec<String>)
    ensures
        lines@.len() == height,
        forall|r: int|
            0 <= r < height ==> (#[trigger] lines@[r])@ == (if filled@.len() == 0 || width == 0 {
                Seq::<char>::empty()
            } else {
                bar_row(filled@, width as nat, height as int, r)
            }),
{
    if filled.len() == 0 || height == 0 || width == 0 {
        return empty_lines(height);
    }
    let samples: usize = if filled.len() < width {
        filled.len()
    } else {
        width
    };
    let mut lines: Vec<String> = Vec::new();
    let mut r: usize = 0;
    while r < height
        invariant
            r <= height,
            lines@.len() == r,
            filled@.len() > 0,
            samples == sample_count(filled@.len() as int, width as int),
            forall|k: int|
                0 <= k < r ==> (#[trigger] lines@[k])@ == bar_row(
                    filled@,
                    width as nat,
                    height as int,
                    k,
                ),
        decreases height - r,
    {
        let color = choose_row_color(height, r);
        let mut line = String::from_str(color);
        let ghost cells = Seq::new(
            width as nat,
            |x: int| bar_cell(filled@, width as int, height as int, r as int, x),
        );
        let mut x: usize = 0;
        assert(line@ =~= color@ + cells.take(0));
        while x < width
            invariant
                x <= width,
                r < height,
                samples == sample_count(filled@.len() as int, width as int),
                cells == Seq::new(
                    width as nat,
                    |x: int| bar_cell(filled@, width as int, height as int, r as int, x),
                ),
                line@ == color@ + cells.take(x as int),
            decreases width - x,
        {
            let cell: char = if x >= width - samples && height - r <= filled[filled.len() - samples
                + (x - (width - samples))] {
                '█'
            } else {
                ' '
            };
            assert(cell == cells[x as int]);
            line.push(cell);
            x += 1;
            assert(line@ =~= color@ + cells.take(x as int));
        }
        assert(cells.take(x as int) =~= cells);
        line.append(RESET);
        lines.push(line);
        r += 1;
    }
    lines
}

/// How high a column of a rate chart is.
#[derive(Debug, Clone, Copy, PartialEq, Eq, Structural)]
pub struct Level {
    /// How many rows the column reaches into.
    pub fill: usize,
    /// How many eighths of its topmost row it fills.
    pub eighths: usize,
}

/// The block that fills some eighths of a cell.
pub open spec fn block(eighths: int) -> char {
    if eighths <= 1 {
        ' '
    } else if eighths == 2 {
        '▂'
    } else if eighths == 3 {
        '▃'
    } else if eighths == 4 {
        '▄'
    } else if eighths == 5 {
        '▅'
    } else if eighths == 6 {
        '▆'
    } else if eighths == 7 {
        '▇'
    } else {
        '█'
    }
}

/// Chooses the block that fills some eighths of a cell.
fn choose_block(eighths: usize) -> (c: char)
    ensures
        c == block(eighths as int),
{
    if eighths <= 1 {
        ' '
    } else if eighths == 2 {
        '▂'
    } else if eighths == 3 {
        '▃'
    } else if eighths == 4 {
        '▄'
    } else if eighths == 5 {
        '▅'
    } else if eighths == 6 {
        '▆'
    } else if eighths == 7 {
        '▇'
    } else {
        '█'
    }
}

/// A cell of a rate chart, in row `r` from the top. No rate at all is a gap, marked
/// at the bottom.
pub open spec fn rate_cell(rate: u64, level: Level, height: int, r: int) -> char {
    let up = height - 1 - r;
    if rate == 0 {
        if up == 0 {
            '_'
        } else {
            ' '
        }
    } else if up >= level.fill {
        ' '
    } else if up + 1 == level.fill {
        block(level.eighths as int)
    } else {
        '█'
    }
}

/// A cell with its color.
pub open spec fn cell_text(c: char) -> Seq<char> {
    if c == '_' {
        GAP_CELL@
    } else if c != ' ' {
        RATE_COLOR@.push(c) + RESET@
    } else {
        seq![' ']
    }
}

/// The rates that are shown in `width` columns: the last ones.
pub open spec fn shown_rates(rates: Seq<u64>, width: int) -> Seq<u64> {
    rates.skip(rates.len() - sample_count(rates.len() as int, width))
}

/// The cell of a rate chart in row `r` and column `x`. The highest rate that is shown
/// fills its column.
pub open spec fn rate_at(
    rates: Seq<u64>,
    levels: Seq<Level>,
    width: int,
    height: int,
    r: int,
    x: int,
) -> char {
    let i = sample_at(rates.len() as int, width, x);
    if i >= 0 {
        if rates[i] > 0 && rates[i] == highest(shown_rates(rates, width)) {
            '█'
        } else {
            rate_cell(rates[i], levels[i], height, r)
        }
    } else {
        ' '
    }
}

/// The first `n` columns of row `r` of a rate chart.
pub open spec fn rate_row(
    rates: Seq<u64>,
    levels: Seq<Level>,
    width: int,
    height: int,
    r: int,
    n: int,
) -> Seq<char>
    decreases n,
{
    if n <= 0 {
        Seq::empty()
    } else {
        rate_row(rates, levels, width, height, r, n - 1) + cell_text(
            rate_at(rates, levels, width, height, r, n - 1),
        )
    }
}

/// There is a gap among the last three of the rates that are shown.
pub open spec fn recent_gap(rates: Seq<u64>, width: int) -> bool {
    exists|i: int|
        {
            &&& 0 <= i < rates.len()
            &&& rates.len() - sample_count(rates.len() as int, width) <= i
            &&& rates.len() - 3 <= i
            &&& #[trigger] rates[i] == 0
        }
}

/// The highest of some rates; one, if none is higher.
pub open spec fn highest(rates: Seq<u64>) -> u64
    decreases rates.len(),
{
    if rates.len() == 0 {
        1
    } else if highest(rates.drop_last()) < rates.last() {
        rates.last()
    } else {
        highest(rates.drop_last())
    }
}

/// The rate that fills a rate chart: the highest of those that are shown.
pub fn full_rate(rates: &[u64], width: usize) -> (r: u64)
    ensures
        r == highest(shown_rates(rates@, width as int)),
        r >= 1,
        forall|i: int|
            0 <= i < rates@.len() && rates@.len() - width <= i ==> #[trigger] rates@[i] <= r,
        r == 1 || exists|i: int|
            0 <= i < rates@.len() && rates@.len() - width <= i && #[trigger] rates@[i] == r,
{
    let start: usize = if rates.len() < width {
        0
    } else {
        rates.len() - width
    };
    let ghost visible = rates@.skip(start as int);
    let mut r: u64 = 1;
    let mut i: usize = start;
    while i < rates.len()
        invariant
            start <= i <= rates@.len(),
            visible == rates@.skip(start as int),
            r == highest(visible.take(i - start)),
        decreases rates@.len() - i,
    {
        proof {
            let more = visible.take(i + 1 - start);
            assert(more.drop_last() =~= visible.take(i - start));
            assert(more.last() == rates@[i as int]);
        }
        if r < rates[i] {
            r = rates[i];
        }
        i += 1;
    }
    assert(visible.take(i - start) =~= visible);
    proof {
        lemma_highest(visible);
        assert forall|k: int| 0 <= k < rates@.len() && rates@.len() - width <= k implies (
        #[trigger] rates@[k]) <= r by {
            assert(visible[k - start] == rates@[k]);
        }
        if r != 1 {
            let k = choose|k: int| 0 <= k < visible.len() && visible[k] == r;
            assert(rates@[start + k] == r);
        }
    }
    r
}

/// Whether there is a gap among the last three of the rates that are shown.
fn find_recent_gap(rates: &[u64], width: usize) -> (r: bool)
    ensures
        r == recent_gap(rates@, width as int),
{
    let samples: usize = if rates.len() < width {
        rates.len()
    } else {
        width
    };
    let recent: usize = if samples < 3 {
        samples
    } else {
        3
    };
    let mut i: usize = rates.len() - recent;
    while i < rates.len()
        invariant
            rates@.len() - recent <= i <= rates@.len(),
            samples == sample_count(rates@.len() as int, width as int),
            recent == (if samples < 3 {
                samples
            } else {
                3
            }),
            forall|j: int| rates@.len() - recent <= j < i ==> rates@[j] != 0,
        decreases rates@.len() - i,
    {
        if rates[i] == 0 {
            return true;
        }
        i += 1;
    }
    false
}

/// Draws one row of a rate chart.
fn draw_rate_row(
    rates: &[u64],
    levels: &[Level],
    full: u64,
    width: usize,
    height: usize,
    r: usize,
) -> (line: String)
    requires
        levels@.len() == rates@.len(),
        full == highest(shown_rates(rates@, width as int)),
        r < height,
    ensures
        line@ == rate_row(rates@, levels@, width as int, height as int, r as int, width as int),
{
    let samples: usize = if rates.len() < width {
        rates.len()
    } else {
        width
    };
    let up: usize = height - 1 - r;
    let mut line = String::new();
    let mut x: usize = 0;
    while x < width
        invariant
            x <= width,
            up == height - 1 - r,
            r < height,
            levels@.len() == rates@.len(),
            full == highest(shown_rates(rates@, width as int)),
            samples == sample_count(rates@.len() as int, width as int),
            line@ == rate_row(rates@, levels@, width as int, height as int, r as int, x as int),
        decreases width - x,
    {
        let cell: char = if x >= width - samples {
            let i: usize = rates.len() - samples + (x - (width - samples));
            let level = levels[i];
            if rates[i] == 0 {
                if up == 0 {
                    '_'
                } else {
                    ' '
                }
            } else if rates[i] == full {
                '█'
            } else if up >= level.fill {
                ' '
            } else if up + 1 == level.fill {
                choose_block(level.eighths)
            } else {
                '█'
            }
        } else {
            ' '
        };
        assert(cell == rate_at(rates@, levels@, width as int, height as int, r as int, x as int));
        let ghost before = line@;
        if cell == '_' {
            line.append(GAP_CELL);
        } else if cell != ' ' {
            line.append(RATE_COLOR);
            line.push(cell);
            line.append(RESET);
        } else {
            line.push(' ');
        }
        assert(line@ =~= before + cell_text(cell));
        x += 1;
    }
    line
}

/// Draws the last rates of a feed, from the top row to the bottom row, and tells
/// whether there is a gap among the last three. `levels` tells how high each column
/// is, but for those of the highest rate, which are full.
pub fn render_ingestion_graph(
    tps_history: &[u64],
    levels: &[Level],
    width: usize,
    height: usize,
) -> (r: (Vec<String>, bool))
    requires
        levels@.len() == tps_history@.len(),
    ensures
        r.0@.len() == height,
        tps_history@.len() == 0 || height == 0 || width == 0 ==> !r.1 && forall|k: int|
            0 <= k < height ==> (#[trigger] r.0@[k])@ == Seq::<char>::empty(),
        tps_history@.len() > 0 && height > 0 && width > 0 ==> {
            &&& r.1 == recent_gap(tps_history@, width as int)
            &&& forall|k: int|
                0 <= k < height ==> (#[trigger] r.0@[k])@ == rate_row(
                    tps_history@,
                    levels@,
                    width as int,
                    height as int,
                    k,
                    width as int,
                )
        },
{
    if tps_history.len() == 0 || height == 0 || width == 0 {
        return (empty_lines(height), false);
    }
    let gap = find_recent_gap(tps_history, width);
    let full: u64 = full_rate(tps_history, width);
    let mut lines: Vec<String> = Vec::new();
    let mut k: usize = 0;
    while k < height
        invariant
            k <= height,
            lines@.len() == k,
            levels@.len() == tps_history@.len(),
            full == highest(shown_rates(tps_history@, width as int)),
            forall|i: int|
                0 <= i < k ==> (#[trigger] lines@[i])@ == rate_row(
                    tps_history@,
                    levels@,
                    width as int,
                    height as int,
                    i,
                    width as int,
                ),
        decreases height - k,
    {
        lines.push(draw_rate_row(tps_history, levels, full, width, height, k));
        k += 1;
    }
    (lines, gap)
}

/// Nothing of the colors of charts shows.
proof fn lemma_chart_colors()
    ensures
        shown(ROW_DARK@, false) == (0int, false),
        shown(ROW_MIDDLE@, false) == (0int, false),
        shown(ROW_BRIGHT@, false) == (0int, false),
        shown(RATE_COLOR@, false) == (0int, false),
        shown(RESET@, false) == (0int, false),
{
    reveal_strlit("\x1B[38;2;180;110;20m");
    reveal_strlit("\x1B[38;2;230;155;30m");
    reveal_strlit("\x1B[38;2;255;245;150;1m");
    reveal_strlit("\x1B[38;2;46;204;113m");
    reveal_strlit("\x1B[0m");
    lemma_shown_escape(ROW_DARK@, false);
    lemma_shown_escape(ROW_MIDDLE@, false);
    lemma_shown_escape(ROW_BRIGHT@, false);
    lemma_shown_escape(RATE_COLOR@, false);
    lemma_shown_escape(RESET@, false);
}

/// The mark of a gap shows as one character.
proof fn lemma_gap_cell()
    ensures
        shown(GAP_CELL@, false) == (1int, false),
{
    reveal_strlit("\x1B[38;2;255;75;75m_\x1B[0m");
    let n = GAP_CELL@.len() - 5;
    let color = GAP_CELL@.take(n);
    let mark = seq!['_'];
    let end = GAP_CELL@.skip(n + 1);
    lemma_shown_escape(color, false);
    lemma_shown_escape(end, false);
    lemma_shown_plain(mark);
    lemma_shown_concat(color, mark, false);
    lemma_shown_concat(color + mark, end, false);
    assert(GAP_CELL@ =~= color + mark + end);
}

/// A row of bars shows with exactly the width that was asked for.
pub proof fn law_bar_rows_fill_the_width(filled: Seq<usize>, width: nat, height: int, r: int)
    ensures
        shown(bar_row(filled, width, height, r), false) == (width as int, false),
{
    let color = row_color(height, r);
    let cells = Seq::new(width, |x: int| bar_cell(filled, width as int, height, r, x));
    lemma_chart_colors();
    lemma_shown_plain(cells);
    lemma_shown_concat(color, cells, false);
    lemma_shown_concat(color + cells, RESET@, false);
}

/// A row of rates shows with exactly the width that was asked for.
pub proof fn law_rate_rows_fill_the_width(
    rates: Seq<u64>,
    levels: Seq<Level>,
    width: int,
    height: int,
    r: int,
    n: int,
)
    requires
        0 <= n,
    ensures
        shown(rate_row(rates, levels, width, height, r, n), false) == (n, false),
    decreases n,
{
    if n > 0 {
        law_rate_rows_fill_the_width(rates, levels, width, height, r, n - 1);
        let front = rate_row(rates, levels, width, height, r, n - 1);
        let c = rate_at(rates, levels, width, height, r, n - 1);
        lemma_chart_colors();
        lemma_gap_cell();
        lemma_shown_plain(seq![' ']);
        lemma_shown_plain(seq![c]);
        lemma_shown_concat(RATE_COLOR@, seq![c], false);
        lemma_shown_concat(RATE_COLOR@ + seq![c], RESET@, false);
        assert(RATE_COLOR@ + seq![c] =~= RATE_COLOR@.push(c));
        lemma_shown_concat(front, cell_text(c), false);
    }
}

/// The highest rate bounds all of them, and is one of them or one.
proof fn lemma_highest(rates: Seq<u64>)
    ensures
        highest(rates) >= 1,
        forall|i: int| 0 <= i < rates.len() ==> rates[i] <= highest(rates),
        highest(rates) == 1 || rates.contains(highest(rates)),
    decreases rates.len(),
{
    if rates.len() > 0 {
        let front = rates.drop_last();
        lemma_highest(front);
        assert forall|i: int| 0 <= i < rates.len() implies rates[i] <= highest(rates) by {
            if i < front.len() {
                assert(front[i] == rates[i]);
            }
        }
        if highest(rates) != 1 {
            if highest(rates) == rates.last() {
                assert(rates[rates.len() - 1] == highest(rates));
            } else {
                let i = choose|i: int| 0 <= i < front.len() && front[i] == highest(front);
                assert(rates[i] == highest(rates));
            }
        }
    }
}

/// A rate chart depends on nothing but the last rates, as many as it has columns:
/// with the others left out, every row is the same, and so is the word on gaps.
pub proof fn law_only_shown_rates_count(
    rates: Seq<u64>,
    levels: Seq<Level>,
    width: int,
    height: int,
    r: int,
    n: int,
)
    requires
        levels.len() == rates.len(),
        0 <= n <= width,
    ensures
        ({
            let hidden = rates.len() - sample_count(rates.len() as int, width);
            &&& rate_row(rates, levels, width, height, r, n) == rate_row(
                rates.skip(hidden),
                levels.skip(hidden),
                width,
                height,
                r,
                n,
            )
            &&& recent_gap(rates, width) == recent_gap(rates.skip(hidden), width)
        }),
{
    lemma_recent_gap_shown(rates, width);
    lemma_rate_row_shown(rates, levels, width, height, r, n);
}

/// Gaps among the rates that are not shown do not count.
proof fn lemma_recent_gap_shown(rates: Seq<u64>, width: int)
    requires
        0 <= width,
    ensures
        recent_gap(rates, width) == recent_gap(shown_rates(rates, width), width),
{
    let hidden = rates.len() - sample_count(rates.len() as int, width);
    let last = shown_rates(rates, width);
    if recent_gap(rates, width) {
        let i = choose|i: int|
            {
                &&& 0 <= i < rates.len()
                &&& hidden <= i
                &&& rates.len() - 3 <= i
                &&& #[trigger] rates[i] == 0
            };
        assert(last[i - hidden] == 0);
    }
    if recent_gap(last, width) {
        let i = choose|i: int|
            {
                &&& 0 <= i < last.len()
                &&& last.len() - 3 <= i
                &&& #[trigger] last[i] == 0
            };
        assert(rates[i + hidden] == 0);
    }
}

/// A cell of a rate chart depends on nothing but the rates that are shown.
proof fn lemma_rate_at_shown(
    rates: Seq<u64>,
    levels: Seq<Level>,
    width: int,
    height: int,
    r: int,
    x: int,
)
    requires
        levels.len() == rates.len(),
        0 <= x < width,
    ensures
        ({
            let hidden = rates.len() - sample_count(rates.len() as int, width);
            rate_at(rates, levels, width, height, r, x) == rate_at(
                shown_rates(rates, width),
                levels.skip(hidden),
                width,
                height,
                r,
                x,
            )
        }),
{
    let last = shown_rates(rates, width);
    assert(shown_rates(last, width) =~= last);
}

/// A row of a rate chart depends on nothing but the rates that are shown.
proof fn lemma_rate_row_shown(
    rates: Seq<u64>,
    levels: Seq<Level>,
    width: int,
    height: int,
    r: int,
    n: int,
)
    requires
        levels.len() == rates.len(),
        0 <= n <= width,
    ensures
        ({
            let hidden = rates.len() - sample_count(rates.len() as int, width);
            rate_row(rates, levels, width, height, r, n) == rate_row(
                shown_rates(rates, width),
                levels.skip(hidden),
                width,
                height,
                r,
                n,
            )
        }),
    decreases n,
{
    if n > 0 {
        lemma_rate_row_shown(rates, levels, width, height, r, n - 1);
        lemma_rate_at_shown(rates, levels, width, height, r, n - 1);
    }
}

/// The columns of a rate chart: those to the left of the first rate are empty; a gap
/// is marked at the bottom, and nothing else is marked so; and the highest rate fills
/// its column from bottom to top.
pub proof fn law_rate_columns(
    rates: Seq<u64>,
    levels: Seq<Level>,
    width: int,
    height: int,
    x: int,
)
    requires
        levels.len() == rates.len(),
        0 <= x < width,
        height > 0,
    ensures
        ({
            let len = rates.len() as int;
            let first = width - sample_count(len, width);
            let rate = rates[len - width + x];
            &&& x < first ==> forall|r: int|
                0 <= r < height ==> rate_at(rates, levels, width, height, r, x) == ' '
            &&& x >= first ==> (rate_at(rates, levels, width, height, height - 1, x) == '_'
                <==> rate == 0)
            &&& x >= first && rate > 0 && (forall|i: int|
                0 <= i < len && len - sample_count(len, width) <= i ==> rates[i] <= rate)
                ==> forall|r: int|
                0 <= r < height ==> rate_at(rates, levels, width, height, r, x) == '█'
        }),
{
    let len = rates.len() as int;
    let shown = shown_rates(rates, width);
    lemma_highest(shown);
    if x >= width - sample_count(len, width) {
        let i = len - width + x;
        let hidden = len - sample_count(len, width);
        assert(shown[i - hidden] == rates[i]);
        if rates[i] > 0 && (forall|k: int| 0 <= k < len && hidden <= k ==> rates[k] <= rates[i]) {
            if highest(shown) != 1 {
                let k = choose|k: int| 0 <= k < shown.len() && shown[k] == highest(shown);
                assert(rates[hidden + k] == highest(shown));
            }
            assert(rates[i] == highest(shown));
        }
    }
}

/// The cells of a bar chart. The last bar stands in the last column, the one ahead of it
/// in the column ahead, and so on; columns for which there is no bar stay empty. A bar
/// takes as many rows as it fills, counted from the bottom.
pub proof fn law_bars_stand_on_the_bottom(
    filled: Seq<usize>,
    width: nat,
    height: int,
    r: int,
    x: int,
)
    requires
        0 <= r < height,
        0 <= x < width,
    ensures
        ({
            let line = bar_row(filled, width, height, r);
            let cell = line[row_color(height, r).len() + x];
            let ahead = width - 1 - x;
            let above_bottom = height - 1 - r;
            &&& line.len() == row_color(height, r).len() + width + RESET@.len()
            &&& ahead >= filled.len() ==> cell == ' '
            &&& ahead < filled.len() && above_bottom < filled[filled.len() - 1 - ahead] ==> cell
                == '█'
            &&& ahead < filled.len() && above_bottom >= filled[filled.len() - 1 - ahead] ==> cell
                == ' '
        }),
{
}

/// The top row of bars is bright, rows in the upper half are not dark, and rows below
/// the middle are dark.
pub proof fn law_rows_darken_downwards(height: int, r: int)
    requires
        0 <= r < height,
    ensures
        r == 0 ==> row_color(height, r) == ROW_BRIGHT@,
        r > 0 && 2 * r <= height - 1 ==> row_color(height, r) == ROW_MIDDLE@,
        r > 0 && 2 * r > height - 1 ==> row_color(height, r) == ROW_DARK@,
{
    if height > 1 {
        let up = (height - 1 - r) * 2;
        let top = height - 1;
        let i = up / top;
        assert(up == top * i + up % top && 0 <= up % top < top) by (nonlinear_arith)
            requires
                top > 0,
                i == up / top,
        ;
        if r == 0 {
            assert(i == 2) by (nonlinear_arith)
                requires
                    up == 2 * top,
                    top > 0,
                    i == up / top,
            ;
        } else if 2 * r <= height - 1 {
            assert(i == 1) by (nonlinear_arith)
                requires
                    top <= up < 2 * top,
                    i == up / top,
            ;
        } else {
            assert(i == 0) by (nonlinear_arith)
                requires
                    0 <= up < top,
                    i == up / top,
            ;
        }
    }
}

/// The block for two to eight eighths is that many eighths high; less shows as nothing
/// and more as a full cell.
pub proof fn law_blocks_rise_by_eighths(eighths: int)
    ensures
        eighths <= 1 ==> block(eighths) == ' ',
        2 <= eighths <= 8 ==> block(eighths) as u32 == 0x2580 + eighths,
        eighths > 8 ==> block(eighths) == '█',
{
}

/// The cells of a rate's column: full ones below, one that is filled in part on top of
/// them, and empty ones above. No rate leaves a mark at the bottom and nothing else.
pub proof fn law_rate_cells_stack_up(rate: u64, level: Level, height: int, above_bottom: int)
    requires
        0 <= above_bottom < height,
    ensures
        ({
            let cell = rate_cell(rate, level, height, height - 1 - above_bottom);
            &&& rate == 0 && above_bottom == 0 ==> cell == '_'
            &&& rate == 0 && above_bottom > 0 ==> cell == ' '
            &&& rate > 0 && above_bottom < level.fill - 1 ==> cell == '█'
            &&& rate > 0 && above_bottom == level.fill - 1 ==> cell == block(level.eighths as int)
            &&& rate > 0 && above_bottom >= level.fill ==> cell == ' '
        }),
{
}

/// A rate that is shown but is not the highest of those that are has the cells of its
/// own level.
pub proof fn law_lower_rates_have_their_level(
    rates: Seq<u64>,
    levels: Seq<Level>,
    width: int,
    height: int,
    r: int,
    ahead: int,
    higher: int,
)
    requires
        0 <= r < height,
        0 <= ahead < rates.len(),
        0 <= higher < rates.len(),
        ahead < width,
        higher < width,
        rates[rates.len() - 1 - ahead] < rates[rates.len() - 1 - higher],
    ensures
        rate_at(rates, levels, width, height, r, width - 1 - ahead) == rate_cell(
            rates[rates.len() - 1 - ahead],
            levels[rates.len() - 1 - ahead],
            height,
            r,
        ),
{
    let shown = shown_rates(rates, width);
    lemma_highest(shown);
    assert(shown[shown.len() - 1 - higher] == rates[rates.len() - 1 - higher]);
}

/// A cell shows as its own character.
pub proof fn law_cells_hold_their_character(c: char)
    ensures
        cell_text(c).contains(c),
        shown(cell_text(c), false).0 == 1 || c == '\x1B',
{
    lemma_chart_colors();
    lemma_gap_cell();
    if c == '_' {
        reveal_strlit("\x1B[38;2;255;75;75m_\x1B[0m");
        assert(GAP_CELL@[17] == '_');
    } else if c == ' ' {
        assert(seq![' '][0] == ' ');
        lemma_shown_plain(seq![' ']);
    } else {
        let k = RATE_COLOR@.len() as int;
        assert(cell_text(c)[k] == c);
        if c != '\x1B' {
            lemma_shown_plain(seq![c]);
            lemma_shown_concat(RATE_COLOR@, seq![c], false);
            assert(RATE_COLOR@ + seq![c] =~= RATE_COLOR@.push(c));
            lemma_shown_concat(RATE_COLOR@.push(c), RESET@, false);
        }
    }
}

/// There is a recent gap just if one of the last three rates is none at all, in a chart
/// that has room for three.
pub proof fn law_recent_gaps_are_among_the_last_three(rates: Seq<u64>, width: int)
    requires
        width >= 3,
    ensures
        recent_gap(rates, width) <==> {
            ||| rates.len() >= 1 && rates[rates.len() - 1] == 0
            ||| rates.len() >= 2 && rates[rates.len() - 2] == 0
            ||| rates.len() >= 3 && rates[rates.len() - 3] == 0
        },
{
    if rates.len() >= 1 && rates[rates.len() - 1] == 0 {
        assert(recent_gap(rates, width));
    }
    if rates.len() >= 2 && rates[rates.len() - 2] == 0 {
        assert(recent_gap(rates, width));
    }
    if rates.len() >= 3 && rates[rates.len() - 3] == 0 {
        assert(recent_gap(rates, width));
    }
}

/// The cell of each column stands in its row, behind the cells of the columns to its
/// left.
pub proof fn law_columns_stand_side_by_side(
    rates: Seq<u64>,
    levels: Seq<Level>,
    width: int,
    height: int,
    r: int,
    n: int,
    x: int,
)
    requires
        0 <= x < n,
    ensures
        ({
            let line = rate_row(rates, levels, width, height, r, n);
            let start = rate_row(rates, levels, width, height, r, x).len() as int;
            let cell = cell_text(rate_at(rates, levels, width, height, r, x));
            &&& start + cell.len() <= line.len()
            &&& line.subrange(start, start + cell.len()) == cell
            &&& x == n - 1 ==> start + cell.len() == line.len()
        }),
    decreases n,
{
    let line = rate_row(rates, levels, width, height, r, n);
    let front = rate_row(rates, levels, width, height, r, n - 1);
    let start = rate_row(rates, levels, width, height, r, x).len() as int;
    let cell = cell_text(rate_at(rates, levels, width, height, r, x));
    if x < n - 1 {
        law_columns_stand_side_by_side(rates, levels, width, height, r, n - 1, x);
        assert(line.subrange(start, start + cell.len()) =~= front.subrange(
            start,
            start + cell.len(),
        ));
    } else {
        assert(line.subrange(start, start + cell.len()) =~= cell);
    }
}

} // verus!
