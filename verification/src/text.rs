//! Text: characters, numbers and padding.
use vstd::prelude::*;
use vstd::string::{StrSliceExecFns, StringExecFns};
use vstd::utf8::{
    decode_utf8, encode_utf8, encode_utf8_decode_utf8, encode_utf8_valid_utf8, is_ascii_chars,
    is_ascii_chars_encode_utf8, valid_utf8,
};

verus! {

/// `String::push` appends one character.
pub assume_specification[ String::push ](s: &mut String, c: char)
    ensures
        final(s)@ == old(s)@.push(c),
;

/// What `String::from_utf8_lossy` makes of bytes.
pub uninterp spec fn utf8_lossy(bytes: Seq<u8>) -> Seq<char>;

/// `String::from_utf8_lossy`: valid UTF-8 is decoded as it stands. For other bytes
/// only the name `utf8_lossy` is given; which characters replace them is not said.
#[verifier::external_body]
pub(crate) fn from_utf8_lossy(bytes: &[u8]) -> (s: String)
    ensures
        s@ == utf8_lossy(bytes@),
        valid_utf8(bytes@) ==> s@ == decode_utf8(bytes@),
{
    String::from_utf8_lossy(bytes).into_owned()
}

/// The characters with the same numbers as the bytes.
pub open spec fn ascii_text(bytes: Seq<u8>) -> Seq<char> {
    Seq::new(bytes.len(), |i: int| bytes[i] as char)
}

/// Bytes below 128 are text that has one character per byte.
pub proof fn lemma_ascii(bytes: Seq<u8>)
    requires
        forall|i: int| 0 <= i < bytes.len() ==> bytes[i] < 128,
    ensures
        valid_utf8(bytes),
        decode_utf8(bytes) == ascii_text(bytes),
        encode_utf8(ascii_text(bytes)) == bytes,
{
    let chars = ascii_text(bytes);
    assert(is_ascii_chars(chars));
    is_ascii_chars_encode_utf8(chars);
    assert forall|i: int| 0 <= i < bytes.len() implies encode_utf8(chars)[i] == bytes[i] by {
        assert(chars[i] as u8 == encode_utf8(chars)[i]);
    }
    assert(encode_utf8(chars) =~= bytes);
    encode_utf8_valid_utf8(chars);
    encode_utf8_decode_utf8(chars);
}

/// The characters of a text, one by one.
pub fn chars_of(s: &str) -> (r: Vec<char>)
    ensures
        r@ == s@,
{
    let mut r: Vec<char> = Vec::new();
    for c in it: s.chars()
        invariant
            it.seq() == s@,
            r@ == s@.take(it.index() as int),
    {
        r.push(c);
    }
    r
}

/// A text made of some of the characters of another.
pub fn text_of(chars: &Vec<char>, from: usize, to: usize) -> (r: String)
    requires
        from <= to <= chars@.len(),
    ensures
        r@ == chars@.subrange(from as int, to as int),
{
    let mut r = String::new();
    let mut i: usize = from;
    while i < to
        invariant
            from <= i <= to <= chars@.len(),
            r@ == chars@.subrange(from as int, i as int),
        decreases to - i,
    {
        r.push(chars[i]);
        i += 1;
        assert(chars@.subrange(from as int, i as int) =~= chars@.subrange(
            from as int,
            i - 1,
        ).push(chars@[i - 1]));
    }
    r
}

/// The digit that stands for a number below ten.
pub open spec fn digit(d: nat) -> char {
    (48 + d) as u8 as char
}

/// A number in decimal, without leading zeros.
pub open spec fn decimal(n: nat) -> Seq<char>
    decreases n,
{
    if n < 10 {
        seq![digit(n)]
    } else {
        decimal(n / 10).push(digit(n % 10))
    }
}

/// Writes a number in decimal.
pub fn decimal_text(n: u64) -> (r: String)
    ensures
        r@ == decimal(n as nat),
    decreases n,
{
    let mut r = if n < 10 {
        String::new()
    } else {
        decimal_text(n / 10)
    };
    r.push((48 + (n % 10) as u8) as char);
    assert(n < 10 ==> r@ =~= seq![digit(n as nat)]);
    r
}

/// A text followed by blanks up to `width` characters.
pub open spec fn pad_right(s: Seq<char>, width: int) -> Seq<char> {
    s + Seq::new(
        (if s.len() < width {
            width - s.len()
        } else {
            0
        }) as nat,
        |i: int| ' ',
    )
}

/// A text behind blanks that bring it up to `width` characters.
pub open spec fn pad_left(s: Seq<char>, width: int) -> Seq<char> {
    Seq::new(
        (if s.len() < width {
            width - s.len()
        } else {
            0
        }) as nat,
        |i: int| ' ',
    ) + s
}

/// `n` copies of a character.
pub open spec fn repeated(c: char, n: nat) -> Seq<char> {
    Seq::new(n, |i: int| c)
}

/// Appends `n` copies of a character.
pub fn push_repeated(buf: &mut String, c: char, n: usize)
    ensures
        final(buf)@ == old(buf)@ + repeated(c, n as nat),
{
    let ghost before = buf@;
    let mut i: usize = 0;
    assert(buf@ =~= before + repeated(c, 0));
    while i < n
        invariant
            i <= n,
            buf@ == before + repeated(c, i as nat),
        decreases n - i,
    {
        buf.push(c);
        i += 1;
        assert(buf@ =~= before + repeated(c, i as nat));
    }
}

/// Appends a text and then blanks that bring it up to `width` characters.
pub fn push_padded_right(buf: &mut String, s: &str, width: usize)
    ensures
        final(buf)@ == old(buf)@ + pad_right(s@, width as int),
{
    let ghost before = buf@;
    let len: usize = s.unicode_len();
    buf.append(s);
    push_repeated(buf, ' ', width.saturating_sub(len));
    assert(buf@ =~= before + pad_right(s@, width as int));
}

/// Appends blanks and then a text that they bring up to `width` characters.
pub fn push_padded_left(buf: &mut String, s: &str, width: usize)
    ensures
        final(buf)@ == old(buf)@ + pad_left(s@, width as int),
{
    let ghost before = buf@;
    let len: usize = s.unicode_len();
    push_repeated(buf, ' ', width.saturating_sub(len));
    buf.append(s);
    assert(buf@ =~= before + pad_left(s@, width as int));
}

/// A character that counts as white space in Unicode.
pub open spec fn is_white(c: char) -> bool {
    ||| 9 <= c as u32 <= 13
    ||| c as u32 == 32
    ||| c as u32 == 0x85
    ||| c as u32 == 0xa0
    ||| c as u32 == 0x1680
    ||| 0x2000 <= c as u32 <= 0x200a
    ||| 0x2028 <= c as u32 <= 0x2029
    ||| c as u32 == 0x202f
    ||| c as u32 == 0x205f
    ||| c as u32 == 0x3000
}

/// Whether a character counts as white space in Unicode.
pub fn white(c: char) -> (r: bool)
    ensures
        r == is_white(c),
{
    let n: u32 = c as u32;
    (9 <= n && n <= 13) || n == 32 || n == 0x85 || n == 0xa0 || n == 0x1680 || (0x2000 <= n && n
        <= 0x200a) || (0x2028 <= n && n <= 0x2029) || n == 0x202f || n == 0x205f || n == 0x3000
}

/// How many characters that pass a test stand in front.
pub open spec fn leading(s: Seq<char>, test: spec_fn(char) -> bool) -> int
    decreases s.len(),
{
    if s.len() == 0 || !test(s[0]) {
        0
    } else {
        1 + leading(s.drop_first(), test)
    }
}

/// The characters in front end at the first one that does not pass.
pub proof fn lemma_leading(s: Seq<char>, test: spec_fn(char) -> bool, n: int)
    requires
        0 <= n <= s.len(),
        forall|i: int| 0 <= i < n ==> test(#[trigger] s[i]),
        n < s.len() ==> !test(s[n]),
    ensures
        leading(s, test) == n,
    decreases n,
{
    if n > 0 {
        let rest = s.drop_first();
        assert forall|i: int| 0 <= i < n - 1 implies test(#[trigger] rest[i]) by {
            assert(rest[i] == s[i + 1]);
        }
        assert(test(s[0]));
        lemma_leading(rest, test, n - 1);
    }
}

/// The test for white characters.
pub open spec fn white_test() -> spec_fn(char) -> bool {
    |c: char| is_white(c)
}

/// The test for characters that are not white.
pub open spec fn solid_test() -> spec_fn(char) -> bool {
    |c: char| !is_white(c)
}

/// How many white characters stand in front.
pub open spec fn white_in_front(s: Seq<char>) -> int {
    leading(s, white_test())
}

/// A text without the white characters behind it.
pub open spec fn trimmed_end(s: Seq<char>) -> Seq<char>
    decreases s.len(),
{
    if s.len() == 0 || !is_white(s.last()) {
        s
    } else {
        trimmed_end(s.drop_last())
    }
}

/// A text without the white characters in front of it and behind it.
pub open spec fn trimmed(s: Seq<char>) -> Seq<char> {
    trimmed_end(s.skip(white_in_front(s)))
}

/// Finds where a text starts and ends, leaving out the white characters in front of
/// it and behind it.
pub fn trim_chars(chars: &Vec<char>) -> (r: (usize, usize))
    ensures
        r.0 <= r.1 <= chars@.len(),
        chars@.subrange(r.0 as int, r.1 as int) == trimmed(chars@),
{
    let mut from: usize = 0;
    while from < chars.len() && white(chars[from])
        invariant
            from <= chars@.len(),
            forall|i: int| 0 <= i < from ==> is_white(chars@[i]),
        decreases chars@.len() - from,
    {
        from += 1;
    }
    proof {
        lemma_leading(chars@, white_test(), from as int);
    }
    let mut to: usize = chars.len();
    assert(chars@.subrange(from as int, to as int) =~= chars@.skip(from as int));
    while to > from && white(chars[to - 1])
        invariant
            from <= to <= chars@.len(),
            trimmed_end(chars@.subrange(from as int, to as int)) == trimmed(chars@),
        decreases to,
    {
        assert(chars@.subrange(from as int, to as int).drop_last() =~= chars@.subrange(
            from as int,
            to - 1,
        ));
        to -= 1;
    }
    (from, to)
}

/// How many characters that are not white stand in front.
pub open spec fn word_in_front(s: Seq<char>) -> int {
    leading(s, solid_test())
}

/// The first word of a text; empty if there is none.
pub open spec fn first_word(s: Seq<char>) -> Seq<char> {
    let rest = s.skip(white_in_front(s));
    rest.take(word_in_front(rest))
}

/// Where the first word starts and ends.
pub fn find_word(chars: &Vec<char>) -> (r: (usize, usize))
    ensures
        r.0 <= r.1 <= chars@.len(),
        chars@.subrange(r.0 as int, r.1 as int) == first_word(chars@),
{
    let mut from: usize = 0;
    while from < chars.len() && white(chars[from])
        invariant
            from <= chars@.len(),
            forall|i: int| 0 <= i < from ==> is_white(chars@[i]),
        decreases chars@.len() - from,
    {
        from += 1;
    }
    let mut to: usize = from;
    while to < chars.len() && !white(chars[to])
        invariant
            from <= to <= chars@.len(),
            forall|i: int| from <= i < to ==> !is_white(chars@[i]),
        decreases chars@.len() - to,
    {
        to += 1;
    }
    proof {
        let rest = chars@.skip(from as int);
        lemma_leading(chars@, white_test(), from as int);
        assert forall|i: int| 0 <= i < to - from implies !is_white(rest[i]) by {
            assert(rest[i] == chars@[from + i]);
        }
        lemma_leading(rest, solid_test(), to - from);
        assert(chars@.subrange(from as int, to as int) =~= rest.take(to - from));
    }
    (from, to)
}

/// What `str::to_uppercase` makes of a text.
pub uninterp spec fn uppercase(s: Seq<char>) -> Seq<char>;

/// A character, or the capital if it is a small ASCII letter.
pub open spec fn capital_char(c: char) -> char {
    if 97 <= c as u32 <= 122 {
        (c as u8 - 32) as u8 as char
    } else {
        c
    }
}

/// A text with its small ASCII letters made capitals.
pub open spec fn ascii_capitals(s: Seq<char>) -> Seq<char> {
    Seq::new(s.len(), |i: int| capital_char(s[i]))
}

/// Makes a small ASCII letter a capital.
pub fn make_capital(c: char) -> (r: char)
    ensures
        r == capital_char(c),
{
    let n: u32 = c as u32;
    if 97 <= n && n <= 122 {
        (c as u8 - 32) as char
    } else {
        c
    }
}

/// `str::to_uppercase`: small ASCII letters become capitals and other ASCII
/// characters stay. For other texts only the name `uppercase` is given; which
/// characters become which is not said.
#[verifier::external_body]
pub(crate) fn to_uppercase(s: &str) -> (r: String)
    ensures
        r@ == uppercase(s@),
        is_ascii_chars(s@) ==> r@ == ascii_capitals(s@),
{
    s.to_uppercase()
}

/// The number that some decimal digits denote.
pub open spec fn decimal_value(s: Seq<char>) -> int
    decreases s.len(),
{
    if s.len() == 0 {
        0
    } else {
        10 * decimal_value(s.drop_last()) + (s.last() as u32 - '0' as u32)
    }
}

/// A number in decimal consists of digits, denotes the number, and has no zero in
/// front unless it is the only digit.
pub proof fn law_decimal_denotes_the_number(n: nat)
    ensures
        decimal(n).len() > 0,
        forall|i: int| 0 <= i < decimal(n).len() ==> '0' <= #[trigger] decimal(n)[i] <= '9',
        decimal_value(decimal(n)) == n,
        n > 0 ==> decimal(n)[0] != '0',
        n == 0 ==> decimal(n).len() == 1,
    decreases n,
{
    let s = decimal(n);
    if n < 10 {
        assert(s.drop_last() =~= Seq::<char>::empty());
        assert(decimal_value(s.drop_last()) == 0);
    } else {
        law_decimal_denotes_the_number(n / 10);
        assert(s.drop_last() =~= decimal(n / 10));
        assert forall|i: int| 0 <= i < s.len() implies '0' <= #[trigger] s[i] <= '9' by {
            if i < s.len() - 1 {
                assert(s[i] == decimal(n / 10)[i]);
            }
        }
    }
}

/// Padding keeps the text, adds blanks on one side only, and stops at the width; a
/// text that is as wide already stays as it is.
pub proof fn law_padding_keeps_the_text(s: Seq<char>, width: int)
    ensures
        ({
            let n = s.len() as int;
            let left = pad_left(s, width);
            let right = pad_right(s, width);
            &&& n >= width ==> left == s && right == s
            &&& n < width ==> left.len() == width && right.len() == width
            &&& right.take(n) == s
            &&& left.skip(left.len() - n) == s
            &&& forall|i: int| n <= i < right.len() ==> right[i] == ' '
            &&& forall|i: int| 0 <= i < left.len() - n ==> left[i] == ' '
        }),
{
    let n = s.len() as int;
    let left = pad_left(s, width);
    let right = pad_right(s, width);
    assert(right.take(n) =~= s);
    assert(left.skip(left.len() - n) =~= s);
    if n >= width {
        assert(left =~= s);
        assert(right =~= s);
    }
}

proof fn lemma_trimmed_end(core: Seq<char>, back: Seq<char>)
    requires
        forall|i: int| 0 <= i < back.len() ==> is_white(#[trigger] back[i]),
        core.len() > 0 ==> !is_white(core.last()),
    ensures
        trimmed_end(core + back) == core,
    decreases back.len(),
{
    let s = core + back;
    if back.len() > 0 {
        let less = back.drop_last();
        assert forall|i: int| 0 <= i < less.len() implies is_white(#[trigger] less[i]) by {
            assert(less[i] == back[i]);
        }
        lemma_trimmed_end(core, less);
        assert(s.drop_last() =~= core + less);
        assert(s.last() == back[back.len() - 1]);
    } else {
        assert(s =~= core);
    }
}

/// Trimming takes away the white characters around a text and nothing else: what
/// starts and ends with other characters stays, with the white ones inside it.
pub proof fn law_trimming_takes_white_around(front: Seq<char>, core: Seq<char>, back: Seq<char>)
    requires
        forall|i: int| 0 <= i < front.len() ==> is_white(#[trigger] front[i]),
        forall|i: int| 0 <= i < back.len() ==> is_white(#[trigger] back[i]),
        core.len() > 0 ==> !is_white(core[0]) && !is_white(core.last()),
    ensures
        trimmed(front + core + back) == core,
{
    let s = front + core + back;
    if core.len() > 0 {
        assert forall|i: int| 0 <= i < front.len() implies white_test()(#[trigger] s[i]) by {
            assert(s[i] == front[i]);
        }
        assert(s[front.len() as int] == core[0]);
        lemma_leading(s, white_test(), front.len() as int);
        assert(s.skip(front.len() as int) =~= core + back);
        lemma_trimmed_end(core, back);
    } else {
        assert forall|i: int| 0 <= i < s.len() implies white_test()(#[trigger] s[i]) by {
            if i < front.len() {
                assert(s[i] == front[i]);
            } else {
                assert(s[i] == back[i - front.len()]);
            }
        }
        lemma_leading(s, white_test(), s.len() as int);
        assert(s.skip(s.len() as int) =~= core);
    }
}

/// The first word is what stands between the white characters in front and the next
/// white character, whatever comes behind that.
pub proof fn law_first_word_ends_at_white(front: Seq<char>, word: Seq<char>, rest: Seq<char>)
    requires
        forall|i: int| 0 <= i < front.len() ==> is_white(#[trigger] front[i]),
        forall|i: int| 0 <= i < word.len() ==> !is_white(#[trigger] word[i]),
        rest.len() > 0 ==> word.len() > 0 && is_white(rest[0]),
    ensures
        first_word(front + word + rest) == word,
{
    let s = front + word + rest;
    let n = front.len() as int;
    let m = word.len() as int;
    assert forall|i: int| 0 <= i < n implies white_test()(#[trigger] s[i]) by {
        assert(s[i] == front[i]);
    }
    if m > 0 {
        assert(s[n] == word[0]);
    }
    lemma_leading(s, white_test(), n);
    let tail = s.skip(n);
    assert forall|i: int| 0 <= i < m implies solid_test()(#[trigger] tail[i]) by {
        assert(tail[i] == word[i]);
    }
    if rest.len() > 0 {
        assert(tail[m] == rest[0]);
    }
    lemma_leading(tail, solid_test(), m);
    assert(tail.take(m) =~= word);
}

/// Small ASCII letters move up by the distance between the two alphabets; every other
/// character stays, and so does the length.
pub proof fn law_capitals(s: Seq<char>, i: int)
    requires
        0 <= i < s.len(),
    ensures
        ascii_capitals(s).len() == s.len(),
        97 <= s[i] as u32 <= 122 ==> ascii_capitals(s)[i] as u32 + 32 == s[i] as u32,
        s[i] as u32 > 122 || s[i] as u32 <= 96 ==> ascii_capitals(s)[i] == s[i],
{
    lemma_capital(s[i]);
    assert(ascii_capitals(s)[i] == capital_char(s[i]));
}

proof fn lemma_capital(c: char)
    ensures
        97 <= c as u32 <= 122 ==> capital_char(c) as u32 + 32 == c as u32,
{
}

/// A text holds another: somewhere in it, all the characters of the other stand in a
/// row.
#[verifier::opaque]
pub open spec fn holds(text: Seq<char>, part: Seq<char>) -> bool {
    exists|k: int|
        0 <= k && k + part.len() <= text.len() && #[trigger] text.subrange(k, k + part.len())
            == part
}

pub proof fn lemma_holds_itself(text: Seq<char>)
    ensures
        holds(text, text),
{
    reveal(holds);
    assert(text.subrange(0, 0 + text.len() as int) =~= text);
}

pub broadcast proof fn lemma_holds_concat(a: Seq<char>, b: Seq<char>, part: Seq<char>)
    requires
        holds(a, part) || holds(b, part),
    ensures
        #[trigger] holds(a + b, part),
{
    reveal(holds);
    if holds(a, part) {
        let k = choose|k: int|
            0 <= k && k + part.len() <= a.len() && #[trigger] a.subrange(k, k + part.len()) == part;
        assert((a + b).subrange(k, k + part.len()) =~= part);
    } else {
        let k = choose|k: int|
            0 <= k && k + part.len() <= b.len() && #[trigger] b.subrange(k, k + part.len()) == part;
        assert((a + b).subrange(a.len() + k, a.len() + k + part.len()) =~= part);
    }
}

/// A text that ends in a label, a gap and a value holds the label, the gap, and what
/// the value starts with.
pub proof fn lemma_holds_labelled(
    a: Seq<char>,
    label: Seq<char>,
    gap: Seq<char>,
    value: Seq<char>,
    start: Seq<char>,
)
    requires
        start.len() <= value.len(),
        value.take(start.len() as int) == start,
    ensures
        holds(a + label + gap + value, label + gap + start),
{
    reveal(holds);
    let s = a + label + gap + value;
    let part = label + gap + start;
    let k = a.len() as int;
    assert(value.take(start.len() as int).len() == start.len());
    assert forall|i: int| 0 <= i < start.len() implies value[i] == start[i] by {
        assert(value.take(start.len() as int)[i] == value[i]);
    }
    assert(s.subrange(k, k + part.len()) =~= part);
}

/// A text that ends in a label, a gap and a value holds them.
pub proof fn lemma_holds_label_and_value(
    a: Seq<char>,
    label: Seq<char>,
    gap: Seq<char>,
    value: Seq<char>,
)
    ensures
        holds(a + label + gap + value, label + gap + value),
{
    assert(value.take(value.len() as int) =~= value);
    lemma_holds_labelled(a, label, gap, value, value);
}

/// A text holds what stands in it at some place.
pub proof fn lemma_holds_at(text: Seq<char>, part: Seq<char>, k: int)
    requires
        0 <= k,
        k + part.len() <= text.len(),
        text.subrange(k, k + part.len()) == part,
    ensures
        holds(text, part),
{
    reveal(holds);
}

/// The white characters: tabs and line ends, blanks of all widths, and the two marks that
/// separate lines and paragraphs.
pub proof fn law_white_characters(c: char)
    ensures
        is_white(c) <==> {
            let n = c as u32;
            ||| n == 0x9 || n == 0xa || n == 0xb || n == 0xc || n == 0xd || n == 0x20
            ||| n == 0x85 || n == 0xa0 || n == 0x1680
            ||| n == 0x2000 || n == 0x2001 || n == 0x2002 || n == 0x2003 || n == 0x2004
            ||| n == 0x2005 || n == 0x2006 || n == 0x2007 || n == 0x2008 || n == 0x2009
            ||| n == 0x200a || n == 0x2028 || n == 0x2029 || n == 0x202f || n == 0x205f
            ||| n == 0x3000
        },
{
}

} // verus!
