//! Lines on a terminal: colors, framed rows, and how wide a text shows.
use vstd::prelude::*;
use vstd::string::StringExecFns;

use crate::text::{chars_of, push_repeated, repeated};

verus! {

/// How many characters fit between the borders of a row.
pub const INNER_WIDTH: usize = 74;

pub const CLR_BORDER: &'static str = "\x1B[38;2;75;85;135m";

pub const CLR_BORDER_DIM: &'static str = "\x1B[38;2;45;52;85m";

pub const CLR_TEXT_WHITE: &'static str = "\x1B[38;2;240;245;255;1m";

pub const CLR_TEXT_MUTED: &'static str = "\x1B[38;2;125;135;160m";

pub const CLR_CYAN: &'static str = "\x1B[38;2;0;225;255;1m";

pub const CLR_GREEN: &'static str = "\x1B[38;2;0;255;160;1m";

pub const CLR_RED: &'static str = "\x1B[38;2;255;75;95;1m";

pub const CLR_GOLD: &'static str = "\x1B[38;2;255;200;50;1m";

pub const CLR_PURPLE: &'static str = "\x1B[38;2;180;120;255;1m";

pub const RESET: &'static str = "\x1B[0m";

/// A character that ends an escape sequence.
pub open spec fn ends_escape(c: char) -> bool {
    c == 'm' || c == 'K' || c == 'H' || c == 'J' || c == 'h' || c == 'l'
}

/// How many characters of a text show, and whether it ends inside an escape sequence;
/// `inside` tells whether it starts inside one.
pub open spec fn shown(s: Seq<char>, inside: bool) -> (int, bool)
    decreases s.len(),
{
    if s.len() == 0 {
        (0, inside)
    } else {
        let (n, escape) = shown(s.drop_last(), inside);
        let c = s.last();
        if c == '\x1B' {
            (n, true)
        } else if escape {
            (n, !ends_escape(c))
        } else {
            (n + 1, false)
        }
    }
}

/// How many characters of a text show.
pub fn visible_len(s: &str) -> (r: usize)
    ensures
        r == shown(s@, false).0,
{
    let chars = chars_of(s);
    let mut len: usize = 0;
    let mut in_escape: bool = false;
    let mut i: usize = 0;
    assert(chars@.take(0) =~= Seq::<char>::empty());
    while i < chars.len()
        invariant
            i <= chars@.len(),
            len <= i,
            (len as int, in_escape) == shown(chars@.take(i as int), false),
        decreases chars@.len() - i,
    {
        let c = chars[i];
        assert(chars@.take(i + 1).drop_last() =~= chars@.take(i as int));
        if c == '\x1B' {
            in_escape = true;
        } else if in_escape {
            if c == 'm' || c == 'K' || c == 'H' || c == 'J' || c == 'h' || c == 'l' {
                in_escape = false;
            }
        } else {
            len += 1;
        }
        i += 1;
    }
    assert(chars@.take(i as int) =~= chars@);
    len
}

/// How many blanks fill a row up.
pub open spec fn row_fill(content: Seq<char>) -> nat {
    let n = shown(content, false).0;
    if n < INNER_WIDTH {
        (INNER_WIDTH - n) as nat
    } else {
        0
    }
}

/// A row: a text between borders, filled up with blanks.
pub open spec fn row(content: Seq<char>) -> Seq<char> {
    CLR_BORDER@ + "│"@ + RESET@ + content + repeated(' ', row_fill(content)) + CLR_BORDER@ + "│"@
        + RESET@ + "\x1B[K\n"@
}

/// Appends a row.
pub fn push_row(buf: &mut String, content: &str)
    ensures
        final(buf)@ == old(buf)@ + row(content@),
{
    let ghost before = buf@;
    let len: usize = visible_len(content);
    let mut line = String::from_str(CLR_BORDER);
    line.append("│");
    line.append(RESET);
    line.append(content);
    push_repeated(&mut line, ' ', INNER_WIDTH.saturating_sub(len));
    proof {
        lemma_shown_bounds(content@, false);
    }
    line.append(CLR_BORDER);
    line.append("│");
    line.append(RESET);
    line.append("\x1B[K\n");
    buf.append(line.as_str());
}

/// A line between rows.
pub open spec fn divider(left: char, mid: char, right: char) -> Seq<char> {
    CLR_BORDER@ + seq![left] + repeated(mid, INNER_WIDTH as nat) + seq![right] + RESET@
        + "\x1B[K\n"@
}

/// Appends a line between rows.
pub fn push_divider(buf: &mut String, left: char, mid: char, right: char)
    ensures
        final(buf)@ == old(buf)@ + divider(left, mid, right),
{
    let ghost before = buf@;
    buf.append(CLR_BORDER);
    buf.push(left);
    push_repeated(buf, mid, INNER_WIDTH);
    buf.push(right);
    buf.append(RESET);
    buf.append("\x1B[K\n");
    assert(buf@ =~= before + divider(left, mid, right));
}

proof fn lemma_shown_bounds(s: Seq<char>, inside: bool)
    ensures
        0 <= shown(s, inside).0 <= s.len(),
    decreases s.len(),
{
    if s.len() > 0 {
        lemma_shown_bounds(s.drop_last(), inside);
    }
}

/// What shows of two texts, one behind the other.
pub proof fn lemma_shown_concat(a: Seq<char>, b: Seq<char>, inside: bool)
    ensures
        shown(a + b, inside) == (
            shown(a, inside).0 + shown(b, shown(a, inside).1).0,
            shown(b, shown(a, inside).1).1,
        ),
    decreases b.len(),
{
    if b.len() == 0 {
        assert(a + b =~= a);
    } else {
        lemma_shown_concat(a, b.drop_last(), inside);
        assert((a + b).drop_last() =~= a + b.drop_last());
        assert((a + b).last() == b.last());
    }
}

/// All of a text without escape sequences shows.
pub proof fn lemma_shown_plain(s: Seq<char>)
    requires
        forall|i: int| 0 <= i < s.len() ==> s[i] != '\x1B',
    ensures
        shown(s, false) == (s.len() as int, false),
    decreases s.len(),
{
    if s.len() > 0 {
        lemma_shown_plain(s.drop_last());
    }
}

/// Nothing of an escape sequence shows, and it is over at its end.
pub proof fn lemma_shown_escape(s: Seq<char>, inside: bool)
    requires
        s.len() >= 2,
        s[0] == '\x1B',
        ends_escape(s.last()),
        forall|i: int| 0 < i < s.len() - 1 ==> !ends_escape(s[i]),
    ensures
        shown(s, inside) == (0int, false),
{
    lemma_inside_escape(s.drop_last(), inside);
}

proof fn lemma_inside_escape(s: Seq<char>, inside: bool)
    requires
        s.len() >= 1,
        s[0] == '\x1B',
        forall|i: int| 0 < i < s.len() ==> !ends_escape(s[i]),
    ensures
        shown(s, inside) == (0int, true),
    decreases s.len(),
{
    if s.len() > 1 {
        lemma_inside_escape(s.drop_last(), inside);
    } else {
        assert(s.drop_last().len() == 0);
        assert(shown(s.drop_last(), inside) == (0int, inside));
    }
}

/// Nothing of the border color and of its end shows.
proof fn lemma_border_colors()
    ensures
        forall|inside: bool| shown(CLR_BORDER@, inside) == (0int, false),
        forall|inside: bool| shown(RESET@, inside) == (0int, false),
        shown("│"@, false) == (1int, false),
        shown("\x1B[K\n"@, false) == (1int, false),
{
    reveal_strlit("\x1B[38;2;75;85;135m");
    reveal_strlit("\x1B[0m");
    reveal_strlit("│");
    reveal_strlit("\x1B[K\n");
    assert forall|inside: bool| shown(CLR_BORDER@, inside) == (0int, false) by {
        lemma_shown_escape(CLR_BORDER@, inside);
    }
    assert forall|inside: bool| shown(RESET@, inside) == (0int, false) by {
        lemma_shown_escape(RESET@, inside);
    }
    lemma_shown_plain("│"@);
    let tail = "\x1B[K\n"@;
    lemma_shown_escape(tail.drop_last(), false);
}

/// Every row shows with the same width, whatever colors it holds: the borders, the
/// room between them, and the end of the line. This holds of all texts that fit and
/// do not end inside an escape sequence.
pub proof fn law_rows_have_one_width(content: Seq<char>)
    requires
        shown(content, false).0 <= INNER_WIDTH,
        !shown(content, false).1,
    ensures
        shown(row(content), false) == (INNER_WIDTH + 3, false),
{
    let blanks = repeated(' ', row_fill(content));
    lemma_border_colors();
    lemma_shown_bounds(content, false);
    lemma_shown_plain(blanks);
    let a = CLR_BORDER@ + "│"@;
    lemma_shown_concat(CLR_BORDER@, "│"@, false);
    let b = a + RESET@;
    lemma_shown_concat(a, RESET@, false);
    let c = b + content;
    lemma_shown_concat(b, content, false);
    let d = c + blanks;
    lemma_shown_concat(c, blanks, false);
    let e = d + CLR_BORDER@;
    lemma_shown_concat(d, CLR_BORDER@, false);
    let f = e + "│"@;
    lemma_shown_concat(e, "│"@, false);
    let g = f + RESET@;
    lemma_shown_concat(f, RESET@, false);
    lemma_shown_concat(g, "\x1B[K\n"@, false);
}

/// A line between rows shows as wide as a row.
pub proof fn law_dividers_are_as_wide(left: char, mid: char, right: char)
    requires
        left != '\x1B',
        mid != '\x1B',
        right != '\x1B',
    ensures
        shown(divider(left, mid, right), false) == (INNER_WIDTH + 3, false),
{
    let bar = repeated(mid, INNER_WIDTH as nat);
    lemma_border_colors();
    lemma_shown_plain(bar);
    lemma_shown_plain(seq![left]);
    lemma_shown_plain(seq![right]);
    let a = CLR_BORDER@ + seq![left];
    lemma_shown_concat(CLR_BORDER@, seq![left], false);
    let b = a + bar;
    lemma_shown_concat(a, bar, false);
    let c = b + seq![right];
    lemma_shown_concat(b, seq![right], false);
    let d = c + RESET@;
    lemma_shown_concat(c, RESET@, false);
    lemma_shown_concat(d, "\x1B[K\n"@, false);
}

/// An escape sequence, from its first character to the letter that ends it, shows
/// nothing, and the text behind it shows as it does alone.
pub proof fn law_escape_sequences_do_not_show(body: Seq<char>, end: char, rest: Seq<char>)
    requires
        forall|i: int|
            0 <= i < body.len() ==> {
                &&& #[trigger] body[i] != 'm' && body[i] != 'K' && body[i] != 'H'
                &&& body[i] != 'J' && body[i] != 'h' && body[i] != 'l'
            },
        end == 'm' || end == 'K' || end == 'H' || end == 'J' || end == 'h' || end == 'l',
    ensures
        shown(seq!['\x1B'] + body + seq![end] + rest, false) == shown(rest, false),
{
    reveal_with_fuel(shown, 2);
    let head = seq!['\x1B'] + body;
    assert(shown(seq!['\x1B'], false) == (0int, true)) by {
        assert(seq!['\x1B'].drop_last() =~= Seq::<char>::empty());
    }
    lemma_stays_inside(body);
    lemma_shown_concat(seq!['\x1B'], body, false);
    assert(shown(seq![end], true) == (0int, false)) by {
        assert(seq![end].drop_last() =~= Seq::<char>::empty());
    }
    lemma_shown_concat(head, seq![end], false);
    lemma_shown_concat(head + seq![end], rest, false);
}

proof fn lemma_stays_inside(body: Seq<char>)
    requires
        forall|i: int| 0 <= i < body.len() ==> !ends_escape(#[trigger] body[i]),
    ensures
        shown(body, true) == (0int, true),
    decreases body.len(),
{
    if body.len() > 0 {
        let front = body.drop_last();
        assert forall|i: int| 0 <= i < front.len() implies !ends_escape(#[trigger] front[i]) by {
            assert(front[i] == body[i]);
        }
        lemma_stays_inside(front);
        assert(!ends_escape(body[body.len() - 1]));
    }
}

/// A text without escape sequences shows with all its characters.
pub proof fn law_plain_text_shows(s: Seq<char>)
    requires
        forall|i: int| 0 <= i < s.len() ==> s[i] != '\x1B',
    ensures
        shown(s, false) == (s.len() as int, false),
{
    lemma_shown_plain(s);
}

/// A row holds the text that it was made of, behind a border, whatever its length.
pub proof fn law_rows_hold_their_text(content: Seq<char>)
    ensures
        ({
            let start = (CLR_BORDER@ + "│"@ + RESET@).len() as int;
            &&& row(content).subrange(start, start + content.len()) == content
            &&& shown(content, false).0 <= 74 ==> row(content).len() == row(
                Seq::empty(),
            ).len() + content.len() - shown(content, false).0
            &&& shown(content, false).0 >= 74 ==> row(content).len() == row(
                Seq::empty(),
            ).len() + content.len() - 74
        }),
{
    lemma_shown_bounds(content, false);
    let start = (CLR_BORDER@ + "│"@ + RESET@).len() as int;
    assert(row(content).subrange(start, start + content.len()) =~= content);
}

/// A line between rows consists of its left end, 74 times its middle, and its right end,
/// in the color of borders.
pub proof fn law_dividers_have_two_ends(left: char, mid: char, right: char, i: int)
    requires
        1 <= i <= 74,
    ensures
        ({
            let line = divider(left, mid, right);
            let n = CLR_BORDER@.len() as int;
            &&& line.take(n) == CLR_BORDER@
            &&& line[n] == left
            &&& line[n + i] == mid
            &&& line[n + 75] == right
            &&& line.skip(n + 76) == RESET@ + "\x1B[K\n"@
        }),
{
    let line = divider(left, mid, right);
    let n = CLR_BORDER@.len() as int;
    assert(line.take(n) =~= CLR_BORDER@);
    assert(line.skip(n + 76) =~= RESET@ + "\x1B[K\n"@);
}

} // verus!
