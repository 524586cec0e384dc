//! Post markup: HTML escaping, spoilers, `>>123` links to posts, greentext.
//!
//! The rendering runs in four passes over characters: escaping, then
//! `[spoiler]...[/spoiler]` (case-insensitive, the text between may span lines,
//! the first closing tag ends it), then `&gt;&gt;` followed by one to ten decimal
//! digits (case-insensitive; digits of any script), then greentext line by line.
use vstd::prelude::*;

use crate::text::{chars_of, string_from_chars};

verus! {

// ------------------------------------------------------------------ escaping

/// The HTML form of a character.
pub open spec fn escape_char(c: char) -> Seq<char> {
    if c == '&' {
        seq!['&', 'a', 'm', 'p', ';']
    } else if c == '<' {
        seq!['&', 'l', 't', ';']
    } else if c == '>' {
        seq!['&', 'g', 't', ';']
    } else if c == '"' {
        seq!['&', 'q', 'u', 'o', 't', ';']
    } else if c == '\'' {
        seq!['&', '#', '3', '9', ';']
    } else {
        seq![c]
    }
}

/// Text with `& < > " '` written as HTML character references.
pub open spec fn spec_escape_html(s: Seq<char>) -> Seq<char>
    decreases s.len(),
{
    if s.len() == 0 {
        Seq::empty()
    } else {
        spec_escape_html(s.drop_last()) + escape_char(s.last())
    }
}

fn push_escaped(out: &mut Vec<char>, c: char)
    ensures
        final(out)@ == old(out)@ + escape_char(c),
{
    if c == '&' {
        out.push('&');
        out.push('a');
        out.push('m');
        out.push('p');
        out.push(';');
    } else if c == '<' {
        out.push('&');
        out.push('l');
        out.push('t');
        out.push(';');
    } else if c == '>' {
        out.push('&');
        out.push('g');
        out.push('t');
        out.push(';');
    } else if c == '"' {
        out.push('&');
        out.push('q');
        out.push('u');
        out.push('o');
        out.push('t');
        out.push(';');
    } else if c == '\'' {
        out.push('&');
        out.push('#');
        out.push('3');
        out.push('9');
        out.push(';');
    } else {
        out.push(c);
    }
    assert(final(out)@ =~= old(out)@ + escape_char(c));
}

fn escape_chars(s: &[char]) -> (res: Vec<char>)
    ensures
        res@ == spec_escape_html(s@),
{
    let mut out: Vec<char> = Vec::new();
    for i in 0..s.len()
        invariant
            out@ == spec_escape_html(s@.subrange(0, i as int)),
    {
        assert(s@.subrange(0, i + 1).drop_last() =~= s@.subrange(0, i as int));
        push_escaped(&mut out, s[i]);
    }
    assert(s@.subrange(0, s@.len() as int) =~= s@);
    out
}

/// Escapes `& < > " '` for HTML.
pub fn escape_html(s: &str) -> (res: String)
    ensures
        res@ == spec_escape_html(s@),
{
    let chars = chars_of(s);
    let out = escape_chars(chars.as_slice());
    string_from_chars(out.as_slice())
}

/// Escaped text holds none of `< > " '`: user text cannot open a tag or leave
/// an attribute.
pub proof fn lemma_escaped_has_no_markup(s: Seq<char>)
    ensures
        forall|i: int|
            0 <= i < spec_escape_html(s).len() ==> {
                let c = #[trigger] spec_escape_html(s)[i];
                c != '<' && c != '>' && c != '"' && c != '\''
            },
    decreases s.len(),
{
    if s.len() > 0 {
        lemma_escaped_has_no_markup(s.drop_last());
        let prev = spec_escape_html(s.drop_last());
        let tail = escape_char(s.last());
        assert(spec_escape_html(s) == prev + tail);
        assert forall|i: int| 0 <= i < spec_escape_html(s).len() implies {
            let c = #[trigger] spec_escape_html(s)[i];
            c != '<' && c != '>' && c != '"' && c != '\''
        } by {
            if i >= prev.len() {
                assert(spec_escape_html(s)[i] == tail[i - prev.len()]);
            } else {
                assert(spec_escape_html(s)[i] == prev[i]);
            }
        }
    }
}

/// Reading escaped text back, left to right: each of `&amp;` `&lt;` `&gt;`
/// `&quot;` `&#39;` becomes its character, every other character is kept.
pub open spec fn spec_unescape_html(t: Seq<char>) -> Seq<char>
    decreases t.len(),
{
    if t.len() == 0 {
        Seq::empty()
    } else if t.len() >= 5 && t.take(5) == seq!['&', 'a', 'm', 'p', ';'] {
        seq!['&'] + spec_unescape_html(t.skip(5))
    } else if t.len() >= 4 && t.take(4) == seq!['&', 'l', 't', ';'] {
        seq!['<'] + spec_unescape_html(t.skip(4))
    } else if t.len() >= 4 && t.take(4) == seq!['&', 'g', 't', ';'] {
        seq!['>'] + spec_unescape_html(t.skip(4))
    } else if t.len() >= 6 && t.take(6) == seq!['&', 'q', 'u', 'o', 't', ';'] {
        seq!['"'] + spec_unescape_html(t.skip(6))
    } else if t.len() >= 5 && t.take(5) == seq!['&', '#', '3', '9', ';'] {
        seq!['\''] + spec_unescape_html(t.skip(5))
    } else {
        seq![t[0]] + spec_unescape_html(t.skip(1))
    }
}

/// Escaping loses nothing: reading the escaped text back gives the text.
pub proof fn lemma_escape_round_trip(s: Seq<char>)
    ensures
        spec_unescape_html(spec_escape_html(s)) == s,
    decreases s.len(),
{
    if s.len() > 0 {
        let c = s[0];
        let rest = s.drop_first();
        lemma_escape_round_trip(rest);
        assert(seq![c] + rest =~= s);
        lemma_escape_append(seq![c], rest);
        assert(spec_escape_html(seq![c]) == escape_char(c)) by {
            let one = seq![c];
            assert(one.drop_last() =~= Seq::<char>::empty());
            assert(spec_escape_html(one.drop_last()) == Seq::<char>::empty());
            assert(one.last() == c);
            assert(Seq::<char>::empty() + escape_char(c) =~= escape_char(c));
        }
        let er = spec_escape_html(rest);
        let ec = escape_char(c);
        let t = ec + er;
        assert(spec_escape_html(s) == t);
        let k = ec.len() as int;
        assert(t.skip(k) =~= er);
        if c == '&' {
            assert(t.take(5) =~= seq!['&', 'a', 'm', 'p', ';']);
        } else if c == '<' {
            assert(t.take(4) =~= seq!['&', 'l', 't', ';']);
            assert(t.len() >= 5 ==> t.take(5) != seq!['&', 'a', 'm', 'p', ';']) by {
                if t.len() >= 5 {
                    assert(t.take(5)[1] == 'l');
                }
            }
        } else if c == '>' {
            assert(t.take(4) =~= seq!['&', 'g', 't', ';']);
            assert(t.len() >= 5 ==> t.take(5) != seq!['&', 'a', 'm', 'p', ';']) by {
                if t.len() >= 5 {
                    assert(t.take(5)[1] == 'g');
                }
            }
            assert(t.len() >= 4 ==> t.take(4) != seq!['&', 'l', 't', ';']) by {
                if t.len() >= 4 {
                    assert(t.take(4)[1] == 'g');
                }
            }
        } else if c == '"' {
            assert(t.take(6) =~= seq!['&', 'q', 'u', 'o', 't', ';']);
            assert(t.len() >= 5 ==> t.take(5) != seq!['&', 'a', 'm', 'p', ';']) by {
                if t.len() >= 5 {
                    assert(t.take(5)[1] == 'q');
                }
            }
            assert(t.len() >= 4 ==> t.take(4) != seq!['&', 'l', 't', ';']) by {
                if t.len() >= 4 {
                    assert(t.take(4)[1] == 'q');
                }
            }
            assert(t.len() >= 4 ==> t.take(4) != seq!['&', 'g', 't', ';']) by {
                if t.len() >= 4 {
                    assert(t.take(4)[1] == 'q');
                }
            }
        } else if c == '\'' {
            assert(t.take(5) =~= seq!['&', '#', '3', '9', ';']);
            assert(t.len() >= 5 ==> t.take(5) != seq!['&', 'a', 'm', 'p', ';']) by {
                if t.len() >= 5 {
                    assert(t.take(5)[1] == '#');
                }
            }
            assert(t.len() >= 4 ==> t.take(4) != seq!['&', 'l', 't', ';']) by {
                if t.len() >= 4 {
                    assert(t.take(4)[1] == '#');
                }
            }
            assert(t.len() >= 4 ==> t.take(4) != seq!['&', 'g', 't', ';']) by {
                if t.len() >= 4 {
                    assert(t.take(4)[1] == '#');
                }
            }
            assert(t.len() >= 6 ==> t.take(6) != seq!['&', 'q', 'u', 'o', 't', ';']) by {
                if t.len() >= 6 {
                    assert(t.take(6)[1] == '#');
                }
            }
        } else {
            assert(ec == seq![c]);
            assert(t[0] == c);
            assert(t.len() >= 5 ==> t.take(5)[0] == c);
            assert(t.len() >= 4 ==> t.take(4)[0] == c);
            assert(t.len() >= 6 ==> t.take(6)[0] == c);
            assert(t.len() >= 5 ==> t.take(5) != seq!['&', 'a', 'm', 'p', ';']);
            assert(t.len() >= 4 ==> t.take(4) != seq!['&', 'l', 't', ';']);
            assert(t.len() >= 4 ==> t.take(4) != seq!['&', 'g', 't', ';']);
            assert(t.len() >= 6 ==> t.take(6) != seq!['&', 'q', 'u', 'o', 't', ';']);
            assert(t.len() >= 5 ==> t.take(5) != seq!['&', '#', '3', '9', ';']);
        }
    }
}

// ------------------------------------------------------------------ helpers

/// Appends the characters of a string slice.
fn push_str(out: &mut Vec<char>, s: &str)
    ensures
        final(out)@ == old(out)@ + s@,
{
    let chars = chars_of(s);
    let ghost start = out@;
    for i in 0..chars.len()
        invariant
            out@ == start + chars@.subrange(0, i as int),
    {
        out.push(chars[i]);
        assert(out@ =~= start + chars@.subrange(0, i + 1));
    }
    assert(chars@.subrange(0, chars@.len() as int) =~= chars@);
}

/// Appends `s[from..to]`.
fn push_range(out: &mut Vec<char>, s: &[char], from: usize, to: usize)
    requires
        from <= to <= s@.len(),
    ensures
        final(out)@ == old(out)@ + s@.subrange(from as int, to as int),
{
    let ghost start = out@;
    let mut i = from;
    while i < to
        invariant
            from <= i <= to <= s@.len(),
            out@ == start + s@.subrange(from as int, i as int),
        decreases to - i,
    {
        out.push(s[i]);
        i = i + 1;
        assert(out@ =~= start + s@.subrange(from as int, i as int));
    }
}

// ------------------------------------------------------------------ spoilers

/// `c` matches the letter `s` case-insensitively (Unicode simple case folding
/// adds the long s, U+017F).
pub open spec fn is_s(c: char) -> bool {
    c == 's' || c == 'S' || c == '\u{17F}'
}

/// `c` matches the ASCII letter `lower` case-insensitively.
pub open spec fn is_letter(c: char, lower: char, upper: char) -> bool {
    c == lower || c == upper
}

/// The letters `spoiler]` start at `p` (case-insensitive).
pub open spec fn spoiler_word_at(s: Seq<char>, p: int) -> bool {
    &&& 0 <= p && p + 8 <= s.len()
    &&& is_s(s[p])
    &&& is_letter(s[p + 1], 'p', 'P')
    &&& is_letter(s[p + 2], 'o', 'O')
    &&& is_letter(s[p + 3], 'i', 'I')
    &&& is_letter(s[p + 4], 'l', 'L')
    &&& is_letter(s[p + 5], 'e', 'E')
    &&& is_letter(s[p + 6], 'r', 'R')
    &&& s[p + 7] == ']'
}

/// `[spoiler]` starts at `i`.
pub open spec fn open_tag_at(s: Seq<char>, i: int) -> bool {
    0 <= i && i + 9 <= s.len() && s[i] == '[' && spoiler_word_at(s, i + 1)
}

/// `[/spoiler]` starts at `k`.
pub open spec fn close_tag_at(s: Seq<char>, k: int) -> bool {
    0 <= k && k + 10 <= s.len() && s[k] == '[' && s[k + 1] == '/' && spoiler_word_at(s, k + 2)
}

/// `k` is the first `[/spoiler]` at or after `from`.
pub open spec fn is_first_close(s: Seq<char>, from: int, k: int) -> bool {
    &&& from <= k
    &&& close_tag_at(s, k)
    &&& forall|j: int| from <= j < k ==> !close_tag_at(s, j)
}

/// The spoiler pass from position `i` on: each `[spoiler]` with a later
/// `[/spoiler]` becomes a spoiler span around the text up to the first such tag.
pub open spec fn spoilers_from(s: Seq<char>, i: int) -> Seq<char>
    decreases s.len() - i,
{
    if i < 0 || i >= s.len() {
        Seq::empty()
    } else if open_tag_at(s, i) && exists|k: int| #[trigger] is_first_close(s, i + 9, k) {
        let k = choose|k: int| #[trigger] is_first_close(s, i + 9, k);
        "<span class=\"spoiler\">"@ + s.subrange(i + 9, k) + "</span>"@ + spoilers_from(s, k + 10)
    } else {
        seq![s[i]] + spoilers_from(s, i + 1)
    }
}

fn is_s_char(c: char) -> (b: bool)
    ensures
        b == is_s(c),
{
    c == 's' || c == 'S' || c == '\u{17F}'
}

fn spoiler_word(s: &[char], p: usize) -> (b: bool)
    ensures
        b == spoiler_word_at(s@, p as int),
{
    p <= s.len() && s.len() - p >= 8 && is_s_char(s[p]) && (s[p + 1] == 'p' || s[p + 1] == 'P') && (s[p + 2] == 'o'
        || s[p + 2] == 'O') && (s[p + 3] == 'i' || s[p + 3] == 'I') && (s[p + 4] == 'l' || s[p
        + 4] == 'L') && (s[p + 5] == 'e' || s[p + 5] == 'E') && (s[p + 6] == 'r' || s[p + 6]
        == 'R') && s[p + 7] == ']'
}

fn open_tag(s: &[char], i: usize) -> (b: bool)
    ensures
        b == open_tag_at(s@, i as int),
{
    i < s.len() && s[i] == '[' && spoiler_word(s, i + 1)
}

fn close_tag(s: &[char], k: usize) -> (b: bool)
    ensures
        b == close_tag_at(s@, k as int),
{
    k < s.len() && s.len() - k > 1 && s[k] == '[' && s[k + 1] == '/' && spoiler_word(s, k + 2)
}

/// The first `[/spoiler]` at or after `from`.
fn find_close(s: &[char], from: usize) -> (res: Option<usize>)
    ensures
        match res {
            Some(k) => is_first_close(s@, from as int, k as int),
            None => !exists|k: int| #[trigger] is_first_close(s@, from as int, k),
        },
{
    let mut k = from;
    while k < s.len()
        invariant
            from <= k,
            forall|j: int| from <= j < k ==> !close_tag_at(s@, j),
        decreases s@.len() - k,
    {
        if close_tag(s, k) {
            return Some(k);
        }
        k = k + 1;
    }
    proof {
        assert forall|k2: int| !is_first_close(s@, from as int, k2) by {
            if is_first_close(s@, from as int, k2) {
                assert(close_tag_at(s@, k2));
            }
        }
    }
    None
}

fn spoiler_pass(s: &[char]) -> (res: Vec<char>)
    ensures
        res@ == spoilers_from(s@, 0),
{
    let mut out: Vec<char> = Vec::new();
    let mut i: usize = 0;
    while i < s.len()
        invariant
            i <= s@.len(),
            spoilers_from(s@, 0) == out@ + spoilers_from(s@, i as int),
        decreases s@.len() - i,
    {
        let ghost rest = spoilers_from(s@, i as int);
        if open_tag(s, i) {
            match find_close(s, i + 9) {
                Some(k) => {
                    proof {
                        let c = choose|k2: int| #[trigger] is_first_close(s@, i + 9, k2);
                        assert(c == k) by {
                            if c < k {
                                assert(!close_tag_at(s@, c));
                            } else if c > k {
                                assert(!close_tag_at(s@, k as int));
                            }
                        }
                    }
                    let ghost before = out@;
                    push_str(&mut out, "<span class=\"spoiler\">");
                    push_range(&mut out, s, i + 9, k);
                    push_str(&mut out, "</span>");
                    assert(out@ + spoilers_from(s@, k + 10) =~= before + rest);
                    i = k + 10;
                    continue;
                },
                None => {},
            }
        }
        out.push(s[i]);
        i = i + 1;
    }
    out
}

// ------------------------------------------------------------------ post links

/// Start and end (inclusive) of the Unicode `Nd` ranges: the decimal digits of
/// all scripts (Unicode 16), what `\d` matches.
pub const DECIMAL_RANGES: [u32; 142] = [
    0x30, 0x39, 0x660, 0x669, 0x6F0, 0x6F9, 0x7C0, 0x7C9, 0x966, 0x96F, 0x9E6, 0x9EF, 0xA66,
    0xA6F, 0xAE6, 0xAEF, 0xB66, 0xB6F, 0xBE6, 0xBEF, 0xC66, 0xC6F, 0xCE6, 0xCEF, 0xD66, 0xD6F,
    0xDE6, 0xDEF, 0xE50, 0xE59, 0xED0, 0xED9, 0xF20, 0xF29, 0x1040, 0x1049, 0x1090, 0x1099,
    0x17E0, 0x17E9, 0x1810, 0x1819, 0x1946, 0x194F, 0x19D0, 0x19D9, 0x1A80, 0x1A89, 0x1A90,
    0x1A99, 0x1B50, 0x1B59, 0x1BB0, 0x1BB9, 0x1C40, 0x1C49, 0x1C50, 0x1C59, 0xA620, 0xA629,
    0xA8D0, 0xA8D9, 0xA900, 0xA909, 0xA9D0, 0xA9D9, 0xA9F0, 0xA9F9, 0xAA50, 0xAA59, 0xABF0,
    0xABF9, 0xFF10, 0xFF19, 0x104A0, 0x104A9, 0x10D30, 0x10D39, 0x10D40, 0x10D49, 0x11066,
    0x1106F, 0x110F0, 0x110F9, 0x11136, 0x1113F, 0x111D0, 0x111D9, 0x112F0, 0x112F9, 0x11450,
    0x11459, 0x114D0, 0x114D9, 0x11650, 0x11659, 0x116C0, 0x116C9, 0x116D0, 0x116E3, 0x11730,
    0x11739, 0x118E0, 0x118E9, 0x11950, 0x11959, 0x11BF0, 0x11BF9, 0x11C50, 0x11C59, 0x11D50,
    0x11D59, 0x11DA0, 0x11DA9, 0x11F50, 0x11F59, 0x16130, 0x16139, 0x16A60, 0x16A69, 0x16AC0,
    0x16AC9, 0x16B50, 0x16B59, 0x16D70, 0x16D79, 0x1CCF0, 0x1CCF9, 0x1D7CE, 0x1D7FF, 0x1E140,
    0x1E149, 0x1E2F0, 0x1E2F9, 0x1E4F0, 0x1E4F9, 0x1E5F1, 0x1E5FA, 0x1E950, 0x1E959, 0x1FBF0,
    0x1FBF9,
];

/// `c` is a decimal digit of some script.
pub open spec fn is_decimal_digit(c: char) -> bool {
    exists|r: int|
        0 <= r < 71 && DECIMAL_RANGES[2 * r] <= (c as u32) && (c as u32) <= #[trigger] DECIMAL_RANGES[2
            * r + 1]
}

fn decimal_digit(c: char) -> (b: bool)
    ensures
        b == is_decimal_digit(c),
{
    let u = c as u32;
    for r in 0..71
        invariant
            u == c as u32,
            forall|q: int|
                0 <= q < r ==> !(DECIMAL_RANGES[2 * q] <= u && u <= #[trigger] DECIMAL_RANGES[2 * q
                    + 1]),
    {
        if DECIMAL_RANGES[2 * r] <= u && u <= DECIMAL_RANGES[2 * r + 1] {
            return true;
        }
    }
    false
}

/// `&gt;&gt;` (case-insensitive) starts at `i`.
pub open spec fn gtgt_at(s: Seq<char>, i: int) -> bool {
    &&& 0 <= i && i + 8 <= s.len()
    &&& s[i] == '&' && is_letter(s[i + 1], 'g', 'G') && is_letter(s[i + 2], 't', 'T') && s[i + 3]
        == ';'
    &&& s[i + 4] == '&' && is_letter(s[i + 5], 'g', 'G') && is_letter(s[i + 6], 't', 'T')
        && s[i + 7] == ';'
}

/// A post link starts at `i`: `&gt;&gt;` and a digit.
pub open spec fn quote_at(s: Seq<char>, i: int) -> bool {
    gtgt_at(s, i) && i + 8 < s.len() && is_decimal_digit(s[i + 8])
}

/// How many digits start at `p`, at most `cap`.
pub open spec fn digit_run(s: Seq<char>, p: int, cap: int) -> int
    decreases cap,
{
    if cap <= 0 || p < 0 || p >= s.len() || !is_decimal_digit(s[p]) {
        0
    } else {
        1 + digit_run(s, p + 1, cap - 1)
    }
}

/// The link that replaces `&gt;&gt;` and the digits `d`.
pub open spec fn quote_link(d: Seq<char>) -> Seq<char> {
    "<a href=\"#p"@ + d + "\" class=\"ref\" data-ref=\""@ + d + "\">&gt;&gt;"@ + d + "</a>"@
}

/// The post-link pass from position `i` on: each `&gt;&gt;` followed by digits
/// becomes a link to the post numbered by up to ten of the digits.
pub open spec fn quotes_from(s: Seq<char>, i: int) -> Seq<char>
    decreases s.len() - i,
{
    if i < 0 || i >= s.len() {
        Seq::empty()
    } else if quote_at(s, i) {
        let d = digit_run(s, i + 8, 10);
        proof {
            lemma_digit_run_bounds(s, i + 8, 10);
        }
        quote_link(s.subrange(i + 8, i + 8 + d)) + quotes_from(s, i + 8 + d)
    } else {
        seq![s[i]] + quotes_from(s, i + 1)
    }
}

/// A digit run is between none and `cap` digits, inside the text, and at least
/// one digit long where a digit starts it.
pub proof fn lemma_digit_run_bounds(s: Seq<char>, p: int, cap: int)
    ensures
        0 <= digit_run(s, p, cap),
        cap >= 0 ==> digit_run(s, p, cap) <= cap,
        0 <= p ==> p + digit_run(s, p, cap) <= s.len() || digit_run(s, p, cap) == 0,
        0 <= p <= s.len() ==> p + digit_run(s, p, cap) <= s.len(),
        0 <= p < s.len() && cap > 0 && is_decimal_digit(s[p]) ==> digit_run(s, p, cap) >= 1,
    decreases cap,
{
    if !(cap <= 0 || p < 0 || p >= s.len() || !is_decimal_digit(s[p])) {
        lemma_digit_run_bounds(s, p + 1, cap - 1);
    }
}

fn gtgt(s: &[char], i: usize) -> (b: bool)
    ensures
        b == gtgt_at(s@, i as int),
{
    i <= s.len() && s.len() - i >= 8 && s[i] == '&' && (s[i + 1] == 'g' || s[i + 1] == 'G') && (s[i + 2] == 't'
        || s[i + 2] == 'T') && s[i + 3] == ';' && s[i + 4] == '&' && (s[i + 5] == 'g' || s[i + 5]
        == 'G') && (s[i + 6] == 't' || s[i + 6] == 'T') && s[i + 7] == ';'
}

/// Digits starting at `p`, at most ten.
fn count_digits(s: &[char], p: usize) -> (n: usize)
    requires
        p <= s@.len(),
    ensures
        n == digit_run(s@, p as int, 10),
{
    let mut n: usize = 0;
    while n < 10 && n < s.len() - p && decimal_digit(s[p + n])
        invariant
            p <= s@.len(),
            n <= 10,
            p + n <= s@.len(),
            digit_run(s@, p as int, 10) == n + digit_run(s@, p + n, 10 - n),
        decreases 10 - n,
    {
        n = n + 1;
    }
    n
}

fn quote_pass(s: &[char]) -> (res: Vec<char>)
    ensures
        res@ == quotes_from(s@, 0),
{
    let mut out: Vec<char> = Vec::new();
    let mut i: usize = 0;
    while i < s.len()
        invariant
            i <= s@.len(),
            quotes_from(s@, 0) == out@ + quotes_from(s@, i as int),
        decreases s@.len() - i,
    {
        if gtgt(s, i) && s.len() - i > 8 && decimal_digit(s[i + 8]) {
            let d = count_digits(s, i + 8);
            proof {
                lemma_digit_run_bounds(s@, i + 8, 10);
            }
            let ghost before = out@;
            let ghost rest = quotes_from(s@, i as int);
            let digits = crate::text::copy_range(s, i + 8, i + 8 + d);
            let text = string_from_chars(digits.as_slice());
            push_str(&mut out, "<a href=\"#p");
            push_str(&mut out, text.as_str());
            push_str(&mut out, "\" class=\"ref\" data-ref=\"");
            push_str(&mut out, text.as_str());
            push_str(&mut out, "\">&gt;&gt;");
            push_str(&mut out, text.as_str());
            push_str(&mut out, "</a>");
            assert(out@ + quotes_from(s@, i + 8 + d) =~= before + rest);
            i = i + 8 + d;
        } else {
            out.push(s[i]);
            i = i + 1;
        }
    }
    out
}

// ------------------------------------------------------------------ greentext

/// `l` starts with `&gt;` (exactly).
pub open spec fn starts_gt(l: Seq<char>, at: int) -> bool {
    at + 4 <= l.len() && l[at] == '&' && l[at + 1] == 'g' && l[at + 2] == 't' && l[at + 3] == ';'
}

/// A line as shown: quoted when it starts with `&gt;` but not `&gt;&gt;`.
pub open spec fn render_line(l: Seq<char>) -> Seq<char> {
    if starts_gt(l, 0) && !starts_gt(l, 4) {
        "<span class=\"quote\">"@ + l + "</span>\n"@
    } else {
        l + seq!['\n']
    }
}

/// A line without the carriage return of a `\r\n` ending.
pub open spec fn strip_cr(l: Seq<char>) -> Seq<char> {
    if l.len() > 0 && l.last() == '\r' {
        l.drop_last()
    } else {
        l
    }
}

/// `p` is the first newline at or after `i`.
pub open spec fn is_first_newline(s: Seq<char>, i: int, p: int) -> bool {
    &&& i <= p < s.len()
    &&& s[p] == '\n'
    &&& forall|j: int| i <= j < p ==> s[j] != '\n'
}

/// The greentext pass from position `i` on, line by line (as `str::lines` splits:
/// at `\n`, dropping the `\r` of `\r\n`, no empty line after a final newline).
pub open spec fn greentext_from(s: Seq<char>, i: int) -> Seq<char>
    decreases s.len() - i,
{
    if i < 0 || i >= s.len() {
        Seq::empty()
    } else if exists|p: int| #[trigger] is_first_newline(s, i, p) {
        let p = choose|p: int| #[trigger] is_first_newline(s, i, p);
        render_line(strip_cr(s.subrange(i, p))) + greentext_from(s, p + 1)
    } else {
        render_line(s.subrange(i, s.len() as int))
    }
}

fn push_line(out: &mut Vec<char>, s: &[char], from: usize, to: usize)
    requires
        from <= to <= s@.len(),
    ensures
        final(out)@ == old(out)@ + render_line(s@.subrange(from as int, to as int)),
{
    let ghost l = s@.subrange(from as int, to as int);
    let quoted = to - from >= 4 && s[from] == '&' && s[from + 1] == 'g' && s[from + 2] == 't'
        && s[from + 3] == ';' && !(to - from >= 8 && s[from + 4] == '&' && s[from + 5] == 'g'
        && s[from + 6] == 't' && s[from + 7] == ';');
    assert(quoted == (starts_gt(l, 0) && !starts_gt(l, 4)));
    if quoted {
        push_str(out, "<span class=\"quote\">");
        push_range(out, s, from, to);
        push_str(out, "</span>\n");
    } else {
        push_range(out, s, from, to);
        out.push('\n');
    }
}

fn greentext_pass(s: &[char]) -> (res: Vec<char>)
    ensures
        res@ == greentext_from(s@, 0),
{
    let mut out: Vec<char> = Vec::new();
    let mut i: usize = 0;
    while i < s.len()
        invariant
            i <= s@.len(),
            greentext_from(s@, 0) == out@ + greentext_from(s@, i as int),
        decreases s@.len() - i,
    {
        let ghost before = out@;
        let ghost rest = greentext_from(s@, i as int);
        let mut p = i;
        while p < s.len() && s[p] != '\n'
            invariant
                i <= p <= s@.len(),
                forall|j: int| i <= j < p ==> s@[j] != '\n',
            decreases s@.len() - p,
        {
            p = p + 1;
        }
        if p < s.len() {
            proof {
                let c = choose|q: int| #[trigger] is_first_newline(s@, i as int, q);
                assert(is_first_newline(s@, i as int, p as int));
                assert(c == p) by {
                    if c < p {
                        assert(s@[c] != '\n');
                    } else if c > p {
                        assert(s@[p as int] != '\n');
                    }
                }
            }
            let end = if p > i && s[p - 1] == '\r' {
                p - 1
            } else {
                p
            };
            assert(s@.subrange(i as int, end as int) =~= strip_cr(s@.subrange(i as int, p as int)));
            push_line(&mut out, s, i, end);
            i = p + 1;
        } else {
            assert(!exists|q: int| #[trigger] is_first_newline(s@, i as int, q));
            push_line(&mut out, s, i, p);
            i = p;
        }
    }
    out
}

// ------------------------------------------------------------------ rendering

/// The HTML of a post body: escaped, then spoilers, post links, greentext.
pub open spec fn spec_render_body(text: Seq<char>) -> Seq<char> {
    greentext_from(quotes_from(spoilers_from(spec_escape_html(text), 0), 0), 0)
}

/// Renders a post body to HTML, to be output as it is.
pub fn render_body(text: &str) -> (res: String)
    ensures
        res@ == spec_render_body(text@),
{
    let chars = chars_of(text);
    let escaped = escape_chars(chars.as_slice());
    let with_spoilers = spoiler_pass(escaped.as_slice());
    let with_quotes = quote_pass(with_spoilers.as_slice());
    let out = greentext_pass(with_quotes.as_slice());
    string_from_chars(out.as_slice())
}

/// A character that plays no part in any markup: nothing to escape, no
/// spoiler tag, no line break.
pub open spec fn is_plain_char(c: char) -> bool {
    c != '&' && c != '<' && c != '>' && c != '"' && c != '\'' && c != '[' && c != '\n'
}

/// Plain text, one line without markup characters, is shown as it is, ended by
/// a newline.
pub proof fn lemma_plain_text_unchanged(text: Seq<char>)
    requires
        text.len() > 0,
        forall|i: int| 0 <= i < text.len() ==> is_plain_char(#[trigger] text[i]),
    ensures
        spec_render_body(text) == text + seq!['\n'],
{
    assert forall|i: int| 0 <= i < text.len() implies is_unescaped_char(#[trigger] text[i]) by {
        assert(is_plain_char(text[i]));
    }
    lemma_escape_plain(text);
    lemma_spoilers_plain(text, 0);
    lemma_quotes_plain(text, 0);
    assert(text.subrange(0, text.len() as int) =~= text);
    assert(!exists|p: int| #[trigger] is_first_newline(text, 0, p)) by {
        if exists|p: int| #[trigger] is_first_newline(text, 0, p) {
            let p = choose|p: int| #[trigger] is_first_newline(text, 0, p);
            assert(is_plain_char(text[p]));
        }
    }
    assert(is_plain_char(text[0]));
}

/// A character that escaping leaves as it is.
pub open spec fn is_unescaped_char(c: char) -> bool {
    c != '&' && c != '<' && c != '>' && c != '"' && c != '\''
}

proof fn lemma_escape_plain(s: Seq<char>)
    requires
        forall|i: int| 0 <= i < s.len() ==> is_unescaped_char(#[trigger] s[i]),
    ensures
        spec_escape_html(s) == s,
    decreases s.len(),
{
    if s.len() > 0 {
        let t = s.drop_last();
        assert forall|i: int| 0 <= i < t.len() implies is_unescaped_char(#[trigger] t[i]) by {
            assert(t[i] == s[i]);
        }
        lemma_escape_plain(t);
        assert(is_unescaped_char(s[s.len() - 1]));
        assert(t + seq![s.last()] =~= s);
    }
}

proof fn lemma_spoilers_plain(s: Seq<char>, i: int)
    requires
        0 <= i <= s.len(),
        forall|j: int| 0 <= j < s.len() ==> is_plain_char(#[trigger] s[j]),
    ensures
        spoilers_from(s, i) == s.subrange(i, s.len() as int),
    decreases s.len() - i,
{
    if i < s.len() {
        assert(is_plain_char(s[i]));
        lemma_spoilers_plain(s, i + 1);
        assert(seq![s[i]] + s.subrange(i + 1, s.len() as int) =~= s.subrange(i, s.len() as int));
    } else {
        assert(s.subrange(i, s.len() as int) =~= Seq::<char>::empty());
    }
}

proof fn lemma_quotes_plain(s: Seq<char>, i: int)
    requires
        0 <= i <= s.len(),
        forall|j: int| 0 <= j < s.len() ==> is_plain_char(#[trigger] s[j]),
    ensures
        quotes_from(s, i) == s.subrange(i, s.len() as int),
    decreases s.len() - i,
{
    if i < s.len() {
        assert(is_plain_char(s[i]));
        lemma_quotes_plain(s, i + 1);
        assert(seq![s[i]] + s.subrange(i + 1, s.len() as int) =~= s.subrange(i, s.len() as int));
    } else {
        assert(s.subrange(i, s.len() as int) =~= Seq::<char>::empty());
    }
}

/// A line that starts with `>` (not `>>`) and is otherwise plain is shown as a
/// greentext quote.
pub proof fn lemma_greentext_line(rest: Seq<char>)
    requires
        forall|i: int| 0 <= i < rest.len() ==> is_plain_char(#[trigger] rest[i]),
    ensures
        spec_render_body(seq!['>'] + rest) == "<span class=\"quote\">"@ + "&gt;"@ + rest
            + "</span>\n"@,
{
    let text = seq!['>'] + rest;
    let gt = seq!['&', 'g', 't', ';'];
    lemma_escape_gt();
    assert forall|i: int| 0 <= i < rest.len() implies is_unescaped_char(#[trigger] rest[i]) by {
        assert(is_plain_char(rest[i]));
    }
    lemma_escape_plain(rest);
    lemma_escape_append(seq!['>'], rest);
    let e = gt + rest;
    assert(spec_escape_html(text) == e);
    assert forall|j: int| 0 <= j < e.len() && e[j] == '&' implies j == 0 by {
        if j >= 4 {
            assert(e[j] == rest[j - 4]);
            assert(is_plain_char(rest[j - 4]));
        }
    }
    assert forall|j: int| 0 <= j < e.len() implies e[j] != '[' && e[j] != '\n' by {
        if j >= 4 {
            assert(e[j] == rest[j - 4]);
            assert(is_plain_char(rest[j - 4]));
        }
    }
    lemma_spoilers_without_open(e, 0);
    assert(e.subrange(0, e.len() as int) =~= e);
    assert forall|j: int| 0 <= j < e.len() implies !quote_at(e, j) by {
        if quote_at(e, j) {
            assert(e[j] == '&');
            assert(e[j + 4] == '&');
        }
    }
    lemma_quotes_without_link(e, 0);
    assert(!exists|p: int| #[trigger] is_first_newline(e, 0, p)) by {
        if exists|p: int| #[trigger] is_first_newline(e, 0, p) {
            let p = choose|p: int| #[trigger] is_first_newline(e, 0, p);
            assert(e[p] != '\n');
        }
    }
    assert(starts_gt(e, 0));
    assert(!starts_gt(e, 4)) by {
        if starts_gt(e, 4) {
            assert(e[4] == '&');
        }
    }
    assert("&gt;"@ =~= gt) by {
        reveal_strlit("&gt;");
    }
    assert("<span class=\"quote\">"@ + e + "</span>\n"@ =~= "<span class=\"quote\">"@ + "&gt;"@
        + rest + "</span>\n"@);
}

proof fn lemma_escape_append(a: Seq<char>, b: Seq<char>)
    ensures
        spec_escape_html(a + b) == spec_escape_html(a) + spec_escape_html(b),
    decreases b.len(),
{
    if b.len() > 0 {
        lemma_escape_append(a, b.drop_last());
        assert((a + b).drop_last() =~= a + b.drop_last());
        assert((a + b).last() == b.last());
    } else {
        assert(a + b =~= a);
    }
}

proof fn lemma_spoilers_without_open(s: Seq<char>, i: int)
    requires
        0 <= i <= s.len(),
        forall|j: int| 0 <= j < s.len() ==> #[trigger] s[j] != '[',
    ensures
        spoilers_from(s, i) == s.subrange(i, s.len() as int),
    decreases s.len() - i,
{
    if i < s.len() {
        lemma_spoilers_without_open(s, i + 1);
        assert(seq![s[i]] + s.subrange(i + 1, s.len() as int) =~= s.subrange(i, s.len() as int));
    } else {
        assert(s.subrange(i, s.len() as int) =~= Seq::<char>::empty());
    }
}

proof fn lemma_quotes_without_link(s: Seq<char>, i: int)
    requires
        0 <= i <= s.len(),
        forall|j: int| 0 <= j < s.len() ==> !#[trigger] quote_at(s, j),
    ensures
        quotes_from(s, i) == s.subrange(i, s.len() as int),
    decreases s.len() - i,
{
    if i < s.len() {
        lemma_quotes_without_link(s, i + 1);
        assert(seq![s[i]] + s.subrange(i + 1, s.len() as int) =~= s.subrange(i, s.len() as int));
    } else {
        assert(s.subrange(i, s.len() as int) =~= Seq::<char>::empty());
    }
}

/// `>>` and one to ten ASCII digits, alone, is a link to the post with that
/// number.
pub proof fn lemma_post_link(d: Seq<char>)
    requires
        1 <= d.len() <= 10,
        forall|i: int| 0 <= i < d.len() ==> '0' <= #[trigger] d[i] <= '9',
    ensures
        spec_render_body(seq!['>', '>'] + d) == quote_link(d) + seq!['\n'],
{
    let gt = seq!['&', 'g', 't', ';'];
    let gtgt = gt + gt;
    let two = seq!['>', '>'];
    assert(spec_escape_html(two) == gtgt) by {
        assert(two.drop_last() =~= seq!['>']);
        lemma_escape_gt();
        assert(two.last() == '>');
        assert(escape_char('>') == gt);
    }
    assert forall|i: int| 0 <= i < d.len() implies is_unescaped_char(#[trigger] d[i]) by {}
    lemma_escape_plain(d);
    lemma_escape_append(two, d);
    let e = gtgt + d;
    assert(spec_escape_html(two + d) == e);
    assert forall|j: int| 0 <= j < e.len() implies #[trigger] e[j] != '[' by {
        if j >= 8 {
            assert(e[j] == d[j - 8]);
        }
    }
    lemma_spoilers_without_open(e, 0);
    assert(e.subrange(0, e.len() as int) =~= e);
    assert(is_decimal_digit(e[8])) by {
        assert(e[8] == d[0]);
        lemma_ascii_digit(e[8]);
    }
    assert(quote_at(e, 0));
    lemma_digit_run_to_end(e, d.len() as int, 0);
    assert(e.subrange(8, 8 + d.len() as int) =~= d);
    assert(quotes_from(e, 8 + d.len() as int) == Seq::<char>::empty());
    let q = quote_link(d);
    assert(quotes_from(e, 0) == q + Seq::<char>::empty());
    assert(q + Seq::<char>::empty() =~= q);
    lemma_link_has_no_newline(d);
    assert(!exists|p: int| #[trigger] is_first_newline(q, 0, p)) by {
        if exists|p: int| #[trigger] is_first_newline(q, 0, p) {
            let p = choose|p: int| #[trigger] is_first_newline(q, 0, p);
            assert(q[p] != '\n');
        }
    }
    assert(q[0] == '<') by {
        reveal_strlit("<a href=\"#p");
    }
    assert(q.subrange(0, q.len() as int) =~= q);
}

/// `>` escapes to `&gt;`.
proof fn lemma_escape_gt()
    ensures
        spec_escape_html(seq!['>']) == seq!['&', 'g', 't', ';'],
{
    let one = seq!['>'];
    let gt = seq!['&', 'g', 't', ';'];
    assert(one.drop_last() =~= Seq::<char>::empty());
    assert(spec_escape_html(one.drop_last()) == Seq::<char>::empty());
    assert(one.last() == '>');
    assert(escape_char('>') == gt);
    assert(Seq::<char>::empty() + gt =~= gt);
}

/// An ASCII digit is a decimal digit.
proof fn lemma_ascii_digit(c: char)
    requires
        '0' <= c <= '9',
    ensures
        is_decimal_digit(c),
{
    let r = 0int;
    assert(DECIMAL_RANGES[2 * r] <= (c as u32) <= DECIMAL_RANGES[2 * r + 1]);
}

/// From the `k`-th digit on, the run covers the rest of the digits.
proof fn lemma_digit_run_to_end(e: Seq<char>, n: int, k: int)
    requires
        1 <= n <= 10,
        e.len() == 8 + n,
        0 <= k <= n,
        forall|i: int| 8 <= i < e.len() ==> '0' <= #[trigger] e[i] <= '9',
    ensures
        digit_run(e, 8 + k, 10 - k) == n - k,
    decreases n - k,
{
    if k < n {
        lemma_digit_run_to_end(e, n, k + 1);
        lemma_ascii_digit(e[8 + k]);
    }
}

/// A post link holds no line break where its number holds none.
proof fn lemma_link_has_no_newline(d: Seq<char>)
    requires
        forall|i: int| 0 <= i < d.len() ==> '0' <= #[trigger] d[i] <= '9',
    ensures
        forall|i: int| 0 <= i < quote_link(d).len() ==> #[trigger] quote_link(d)[i] != '\n',
{
    reveal_strlit("<a href=\"#p");
    reveal_strlit("\" class=\"ref\" data-ref=\"");
    reveal_strlit("\">&gt;&gt;");
    reveal_strlit("</a>");
    let a = "<a href=\"#p"@;
    let b = "\" class=\"ref\" data-ref=\""@;
    let c = "\">&gt;&gt;"@;
    let z = "</a>"@;
    let q = quote_link(d);
    assert(q == a + d + b + d + c + d + z);
    assert forall|i: int| 0 <= i < q.len() implies #[trigger] q[i] != '\n' by {
        let l1 = a.len() as int;
        let l2 = l1 + d.len();
        let l3 = l2 + b.len();
        let l4 = l3 + d.len();
        let l5 = l4 + c.len();
        let l6 = l5 + d.len();
        if i < l1 {
            assert(q[i] == a[i]);
        } else if i < l2 {
            assert(q[i] == d[i - l1]);
        } else if i < l3 {
            assert(q[i] == b[i - l2]);
        } else if i < l4 {
            assert(q[i] == d[i - l3]);
        } else if i < l5 {
            assert(q[i] == c[i - l4]);
        } else if i < l6 {
            assert(q[i] == d[i - l5]);
        } else {
            assert(q[i] == z[i - l6]);
        }
    }
}

/// Plain text between `[spoiler]` and `[/spoiler]`, alone, is shown as a
/// spoiler.
pub proof fn lemma_spoiler_span(x: Seq<char>)
    requires
        forall|i: int| 0 <= i < x.len() ==> is_plain_char(#[trigger] x[i]),
    ensures
        spec_render_body("[spoiler]"@ + x + "[/spoiler]"@) == "<span class=\"spoiler\">"@ + x
            + "</span>"@ + seq!['\n'],
{
    reveal_strlit("[spoiler]");
    reveal_strlit("[/spoiler]");
    reveal_strlit("<span class=\"spoiler\">");
    reveal_strlit("</span>");
    let open = "[spoiler]"@;
    let close = "[/spoiler]"@;
    let span_open = "<span class=\"spoiler\">"@;
    let span_close = "</span>"@;
    let text = open + x + close;
    let n = x.len() as int;
    let k = 9 + n;
    // Escaping leaves the text as it is.
    assert forall|i: int| 0 <= i < text.len() implies is_unescaped_char(#[trigger] text[i]) by {
        if i < 9 {
            assert(text[i] == open[i]);
        } else if i < k {
            assert(text[i] == x[i - 9]);
            assert(is_plain_char(x[i - 9]));
        } else {
            assert(text[i] == close[i - k]);
        }
    }
    lemma_escape_plain(text);
    // The spoiler pass: the only `[/spoiler]` after the opening tag ends at the end.
    assert(open_tag_at(text, 0)) by {
        assert(text[0] == '[' && text[1] == 's' && text[2] == 'p' && text[3] == 'o' && text[4]
            == 'i' && text[5] == 'l' && text[6] == 'e' && text[7] == 'r' && text[8] == ']');
    }
    assert(close_tag_at(text, k)) by {
        assert(text[k] == '[' && text[k + 1] == '/' && text[k + 2] == 's' && text[k + 3] == 'p'
            && text[k + 4] == 'o' && text[k + 5] == 'i' && text[k + 6] == 'l' && text[k + 7] == 'e'
            && text[k + 8] == 'r' && text[k + 9] == ']');
    }
    assert forall|j: int| 9 <= j < k implies !close_tag_at(text, j) by {
        assert(text[j] == x[j - 9]);
        assert(is_plain_char(x[j - 9]));
    }
    assert(is_first_close(text, 9, k));
    let c = choose|c: int| #[trigger] is_first_close(text, 9, c);
    assert(c == k) by {
        if c < k {
            assert(text[c] == x[c - 9]);
            assert(is_plain_char(x[c - 9]));
        } else if c > k {
            assert(!close_tag_at(text, k));
        }
    }
    assert(text.subrange(9, k) =~= x);
    assert(spoilers_from(text, k + 10) == Seq::<char>::empty());
    let q = span_open + x + span_close;
    assert(spoilers_from(text, 0) == q + Seq::<char>::empty());
    assert(q + Seq::<char>::empty() =~= q);
    // No post links: there is no `&` at all.
    let m = span_open.len() as int;
    assert forall|j: int| 0 <= j < q.len() implies #[trigger] q[j] != '&' && q[j] != '\n' by {
        if j < m {
            assert(q[j] == span_open[j]);
        } else if j < m + n {
            assert(q[j] == x[j - m]);
            assert(is_plain_char(x[j - m]));
        } else {
            assert(q[j] == span_close[j - m - n]);
        }
    }
    assert forall|j: int| 0 <= j < q.len() implies !#[trigger] quote_at(q, j) by {
        if quote_at(q, j) {
            assert(q[j] == '&');
        }
    }
    lemma_quotes_without_link(q, 0);
    assert(q.subrange(0, q.len() as int) =~= q);
    // One line, not greentext.
    assert(!exists|p: int| #[trigger] is_first_newline(q, 0, p)) by {
        if exists|p: int| #[trigger] is_first_newline(q, 0, p) {
            let p = choose|p: int| #[trigger] is_first_newline(q, 0, p);
            assert(q[p] != '\n');
        }
    }
    assert(q[0] == '<');
}

/// There is one first closing tag from a position on.
proof fn lemma_first_close_unique(s: Seq<char>, from: int, k1: int, k2: int)
    requires
        is_first_close(s, from, k1),
        is_first_close(s, from, k2),
    ensures
        k1 == k2,
{
    if k1 < k2 {
        assert(!close_tag_at(s, k1));
    } else if k2 < k1 {
        assert(!close_tag_at(s, k2));
    }
}

/// The spoiler pass of a text after some prefix is the pass of the text alone.
proof fn lemma_spoilers_shift(a: Seq<char>, b: Seq<char>, j: int)
    requires
        0 <= j <= b.len(),
    ensures
        spoilers_from(a + b, a.len() + j) == spoilers_from(b, j),
    decreases b.len() - j,
{
    let s = a + b;
    let n = a.len() as int;
    if j < b.len() {
        assert(s[n + j] == b[j]);
        assert(open_tag_at(s, n + j) == open_tag_at(b, j));
        assert forall|k: int| 0 <= k implies #[trigger] close_tag_at(s, n + k) == close_tag_at(
            b,
            k,
        ) by {}
        let has_b = exists|k: int| #[trigger] is_first_close(b, j + 9, k);
        let has_s = exists|k: int| #[trigger] is_first_close(s, n + j + 9, k);
        if has_b {
            let kb = choose|k: int| #[trigger] is_first_close(b, j + 9, k);
            assert(is_first_close(s, n + j + 9, n + kb)) by {
                assert(close_tag_at(s, n + kb) == close_tag_at(b, kb));
                assert forall|q: int| n + j + 9 <= q < n + kb implies !close_tag_at(s, q) by {
                    assert(close_tag_at(s, n + (q - n)) == close_tag_at(b, q - n));
                }
            }
        }
        if has_s {
            let ks = choose|k: int| #[trigger] is_first_close(s, n + j + 9, k);
            assert(is_first_close(b, j + 9, ks - n)) by {
                assert(close_tag_at(s, n + (ks - n)) == close_tag_at(b, ks - n));
                assert forall|q: int| j + 9 <= q < ks - n implies !close_tag_at(b, q) by {
                    assert(close_tag_at(s, n + q) == close_tag_at(b, q));
                }
            }
        }
        if open_tag_at(b, j) && has_b {
            let kb = choose|k: int| #[trigger] is_first_close(b, j + 9, k);
            let ks = choose|k: int| #[trigger] is_first_close(s, n + j + 9, k);
            lemma_first_close_unique(s, n + j + 9, ks, n + kb);
            lemma_spoilers_shift(a, b, kb + 10);
            assert(s.subrange(n + j + 9, ks) =~= b.subrange(j + 9, kb));
        } else {
            lemma_spoilers_shift(a, b, j + 1);
        }
    } else {
        assert(spoilers_from(s, n + j) == Seq::<char>::empty());
    }
}

/// No `[spoiler]` starts inside or across a `[/spoiler]` that closes the text.
proof fn lemma_no_open_near_end(s: Seq<char>, k: int, i: int)
    requires
        close_tag_at(s, k),
        k - 9 < i < k + 10,
    ensures
        !open_tag_at(s, i),
{
    if open_tag_at(s, i) {
        if i > k {
            assert(s[i] == '[');
        } else if i == k {
            assert(is_s(s[k + 1]));
        } else {
            let d = k - i;
            assert(s[k] == '[');
            assert(1 <= d <= 8);
            if d == 8 {
                assert(s[i + 8] == ']');
            } else {
                assert(spoiler_word_at(s, i + 1));
                assert(s[i + 1 + (d - 1)] == s[k]);
            }
        }
    }
}

/// The spoiler pass restarts after each closing tag: where a text ends with a
/// `[/spoiler]`, the pass over it followed by more text is the pass over it
/// followed by the pass over the rest. So every `[spoiler]`…`[/spoiler]` pair
/// is hidden, however many came before.
pub proof fn lemma_spoilers_restart(a: Seq<char>, b: Seq<char>)
    requires
        a.len() >= 10,
        close_tag_at(a, a.len() - 10),
    ensures
        spoilers_from(a + b, 0) == spoilers_from(a, 0) + spoilers_from(b, 0),
{
    lemma_spoilers_restart_from(a, b, 0);
}

proof fn lemma_spoilers_restart_from(a: Seq<char>, b: Seq<char>, i: int)
    requires
        a.len() >= 10,
        close_tag_at(a, a.len() - 10),
        0 <= i <= a.len(),
    ensures
        spoilers_from(a + b, i) == spoilers_from(a, i) + spoilers_from(b, 0),
    decreases a.len() - i,
{
    let s = a + b;
    let n = a.len() as int;
    let k = n - 10;
    assert(close_tag_at(s, k));
    if i == n {
        lemma_spoilers_shift(a, b, 0);
        assert(spoilers_from(a, n) == Seq::<char>::empty());
        assert(Seq::<char>::empty() + spoilers_from(b, 0) =~= spoilers_from(b, 0));
    } else {
        assert(s[i] == a[i]);
        // Tags that end inside `a` read the same in `a` and in `s`.
        assert forall|q: int| 0 <= q && q + 10 <= n implies #[trigger] close_tag_at(s, q)
            == close_tag_at(a, q) by {}
        if i + 9 > k {
            lemma_no_open_near_end(s, k, i);
            lemma_no_open_near_end(a, k, i);
        } else {
            assert(open_tag_at(s, i) == open_tag_at(a, i));
        }
        if open_tag_at(a, i) {
            // The closing tag that ends `a` is a first close candidate in both.
            assert(exists|q: int| #[trigger] is_first_close(a, i + 9, q)) by {
                lemma_first_close_exists(a, i + 9, k);
            }
            let ka = choose|q: int| #[trigger] is_first_close(a, i + 9, q);
            assert(ka <= k);
            assert(is_first_close(s, i + 9, ka)) by {
                assert(close_tag_at(s, ka) == close_tag_at(a, ka));
                assert forall|q: int| i + 9 <= q < ka implies !close_tag_at(s, q) by {
                    assert(close_tag_at(s, q) == close_tag_at(a, q));
                }
            }
            let ks = choose|q: int| #[trigger] is_first_close(s, i + 9, q);
            lemma_first_close_unique(s, i + 9, ks, ka);
            lemma_spoilers_restart_from(a, b, ka + 10);
            assert(s.subrange(i + 9, ka) =~= a.subrange(i + 9, ka));
            let span = "<span class=\"spoiler\">"@ + a.subrange(i + 9, ka) + "</span>"@;
            assert(span + (spoilers_from(a, ka + 10) + spoilers_from(b, 0)) =~= (span
                + spoilers_from(a, ka + 10)) + spoilers_from(b, 0));
        } else {
            lemma_spoilers_restart_from(a, b, i + 1);
            assert(seq![a[i]] + (spoilers_from(a, i + 1) + spoilers_from(b, 0)) =~= (seq![a[i]]
                + spoilers_from(a, i + 1)) + spoilers_from(b, 0));
        }
    }
}

/// Where some closing tag lies at or after `from`, a first one does.
proof fn lemma_first_close_exists(s: Seq<char>, from: int, k: int)
    requires
        from <= k,
        close_tag_at(s, k),
    ensures
        exists|q: int| #[trigger] is_first_close(s, from, q),
    decreases k - from,
{
    if forall|j: int| from <= j < k ==> !close_tag_at(s, j) {
        assert(is_first_close(s, from, k));
    } else {
        let j = choose|j: int| from <= j < k && close_tag_at(s, j);
        lemma_first_close_exists(s, from, j);
    }
}

/// The greentext pass over a text after some prefix is the pass over the text.
proof fn lemma_greentext_shift(a: Seq<char>, b: Seq<char>, j: int)
    requires
        0 <= j <= b.len(),
    ensures
        greentext_from(a + b, a.len() + j) == greentext_from(b, j),
    decreases b.len() - j,
{
    let s = a + b;
    let n = a.len() as int;
    if j < b.len() {
        let has_b = exists|p: int| #[trigger] is_first_newline(b, j, p);
        let has_s = exists|p: int| #[trigger] is_first_newline(s, n + j, p);
        if has_b {
            let pb = choose|p: int| #[trigger] is_first_newline(b, j, p);
            assert(is_first_newline(s, n + j, n + pb)) by {
                assert forall|q: int| n + j <= q < n + pb implies s[q] != '\n' by {
                    assert(s[q] == b[q - n]);
                }
            }
            let ps = choose|p: int| #[trigger] is_first_newline(s, n + j, p);
            assert(ps == n + pb) by {
                if ps < n + pb {
                    assert(s[ps] == b[ps - n]);
                } else if ps > n + pb {
                    assert(s[n + pb] != '\n');
                }
            }
            lemma_greentext_shift(a, b, pb + 1);
            assert(s.subrange(n + j, ps) =~= b.subrange(j, pb));
        } else {
            assert(!has_s) by {
                if has_s {
                    let ps = choose|p: int| #[trigger] is_first_newline(s, n + j, p);
                    assert(is_first_newline(b, j, ps - n)) by {
                        assert forall|q: int| j <= q < ps - n implies b[q] != '\n' by {
                            assert(s[n + q] == b[q]);
                        }
                    }
                }
            }
            assert(s.subrange(n + j, s.len() as int) =~= b.subrange(j, b.len() as int));
        }
    }
}

/// Greentext goes line by line: a line and a newline followed by more text show
/// as that line, then the rest shown on its own, so every line starting with `>`
/// (not `>>`) is quoted, wherever it stands.
pub proof fn lemma_greentext_per_line(l: Seq<char>, r: Seq<char>)
    requires
        forall|i: int| 0 <= i < l.len() ==> l[i] != '\n',
    ensures
        greentext_from(l + seq!['\n'] + r, 0) == render_line(strip_cr(l)) + greentext_from(r, 0),
{
    let head = l + seq!['\n'];
    let s = head + r;
    let n = l.len() as int;
    assert(s[n] == '\n');
    assert(is_first_newline(s, 0, n)) by {
        assert forall|q: int| 0 <= q < n implies s[q] != '\n' by {
            assert(s[q] == l[q]);
        }
    }
    let p = choose|p: int| #[trigger] is_first_newline(s, 0, p);
    assert(p == n) by {
        if p < n {
            assert(s[p] == l[p]);
        } else if p > n {
            assert(s[n] != '\n');
        }
    }
    assert(s.subrange(0, n) =~= l);
    lemma_greentext_shift(head, r, 0);
    assert(l + seq!['\n'] + r == s);
}

/// A character that no post link can hold: neither a letter of `&gt;&gt;` nor
/// a decimal digit.
pub open spec fn ends_links(c: char) -> bool {
    c != '&' && c != 'g' && c != 'G' && c != 't' && c != 'T' && c != ';' && !is_decimal_digit(c)
}

proof fn lemma_digit_run_shift(a: Seq<char>, b: Seq<char>, p: int, cap: int)
    requires
        0 <= p,
    ensures
        digit_run(a + b, a.len() + p, cap) == digit_run(b, p, cap),
    decreases cap,
{
    if cap > 0 && p < b.len() && is_decimal_digit(b[p]) {
        lemma_digit_run_shift(a, b, p + 1, cap - 1);
    }
}

proof fn lemma_digit_run_within(a: Seq<char>, b: Seq<char>, p: int, cap: int)
    requires
        a.len() > 0,
        ends_links(a.last()),
        0 <= p <= a.len() - 1,
    ensures
        digit_run(a + b, p, cap) == digit_run(a, p, cap),
        p + digit_run(a, p, cap) <= a.len() - 1,
    decreases cap,
{
    let s = a + b;
    assert(s[p] == a[p]);
    if cap > 0 && is_decimal_digit(a[p]) {
        assert(p < a.len() - 1);
        lemma_digit_run_within(a, b, p + 1, cap - 1);
    }
}

/// The post-link pass over a text after some prefix is the pass over the text.
proof fn lemma_quotes_shift(a: Seq<char>, b: Seq<char>, j: int)
    requires
        0 <= j <= b.len(),
    ensures
        quotes_from(a + b, a.len() + j) == quotes_from(b, j),
    decreases b.len() - j,
{
    let s = a + b;
    let n = a.len() as int;
    if j < b.len() {
        assert(quote_at(s, n + j) == quote_at(b, j));
        if quote_at(b, j) {
            lemma_digit_run_shift(a, b, j + 8, 10);
            let d = digit_run(b, j + 8, 10);
            lemma_digit_run_bounds(b, j + 8, 10);
            lemma_quotes_shift(a, b, j + 8 + d);
            assert(s.subrange(n + j + 8, n + j + 8 + d) =~= b.subrange(j + 8, j + 8 + d));
        } else {
            lemma_quotes_shift(a, b, j + 1);
        }
    }
}

/// Post links are found all through a text: where a text ends in a character
/// no link can hold, the pass over it followed by more text is the pass over it
/// followed by the pass over the rest. So every `>>N` is linked, however many
/// came before.
pub proof fn lemma_quotes_restart(a: Seq<char>, b: Seq<char>)
    requires
        a.len() > 0,
        ends_links(a.last()),
    ensures
        quotes_from(a + b, 0) == quotes_from(a, 0) + quotes_from(b, 0),
{
    lemma_quotes_restart_from(a, b, 0);
}

proof fn lemma_quotes_restart_from(a: Seq<char>, b: Seq<char>, i: int)
    requires
        a.len() > 0,
        ends_links(a.last()),
        0 <= i <= a.len(),
    ensures
        quotes_from(a + b, i) == quotes_from(a, i) + quotes_from(b, 0),
    decreases a.len() - i,
{
    let s = a + b;
    let n = a.len() as int;
    if i == n {
        lemma_quotes_shift(a, b, 0);
        assert(Seq::<char>::empty() + quotes_from(b, 0) =~= quotes_from(b, 0));
    } else {
        assert(s[i] == a[i]);
        let last = a[n - 1];
        assert(s[n - 1] == last);
        // A link starting in `a` ends before its last character.
        assert(quote_at(s, i) ==> i + 8 < n - 1) by {
            if quote_at(s, i) && i + 8 >= n - 1 {
                let d = n - 1 - i;
                assert(0 <= d <= 8);
                assert(s[i + d] == last);
            }
        }
        assert(quote_at(a, i) ==> i + 8 < n - 1) by {
            if quote_at(a, i) && i + 8 >= n - 1 {
                let d = n - 1 - i;
                assert(a[i + d] == last);
            }
        }
        assert(quote_at(s, i) == quote_at(a, i));
        if quote_at(a, i) {
            lemma_digit_run_within(a, b, i + 8, 10);
            let d = digit_run(a, i + 8, 10);
            lemma_digit_run_bounds(a, i + 8, 10);
            lemma_quotes_restart_from(a, b, i + 8 + d);
            assert(s.subrange(i + 8, i + 8 + d) =~= a.subrange(i + 8, i + 8 + d));
            let link = quote_link(a.subrange(i + 8, i + 8 + d));
            assert(link + (quotes_from(a, i + 8 + d) + quotes_from(b, 0)) =~= (link + quotes_from(
                a,
                i + 8 + d,
            )) + quotes_from(b, 0));
        } else {
            lemma_quotes_restart_from(a, b, i + 1);
            assert(seq![a[i]] + (quotes_from(a, i + 1) + quotes_from(b, 0)) =~= (seq![a[i]]
                + quotes_from(a, i + 1)) + quotes_from(b, 0));
        }
    }
}

} // verus!
