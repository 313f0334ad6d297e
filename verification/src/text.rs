//! Characters, lines and surrounding whitespace.

use vstd::prelude::*;

verus! {

/// Whether `c` is an uppercase ASCII letter.
pub open spec fn is_upper(c: char) -> bool {
    'A' <= c && c <= 'Z'
}

/// Whether `c` is white space: a character with the Unicode property `White_Space`.
pub open spec fn is_whitespace(c: char) -> bool {
    ||| '\u{9}' <= c <= '\u{d}'
    ||| c == ' '
    ||| c == '\u{85}'
    ||| c == '\u{a0}'
    ||| c == '\u{1680}'
    ||| '\u{2000}' <= c <= '\u{200a}'
    ||| c == '\u{2028}'
    ||| c == '\u{2029}'
    ||| c == '\u{202f}'
    ||| c == '\u{205f}'
    ||| c == '\u{3000}'
}

/// Whether `c` is ASCII white space: space, tab, line feed, form feed or carriage return.
pub open spec fn is_ascii_whitespace(c: char) -> bool {
    c == ' ' || c == '\u{9}' || c == '\u{a}' || c == '\u{c}' || c == '\u{d}'
}

/// Whether `c` counts as white space: among the ASCII characters only, or among all.
pub open spec fn is_space(c: char, ascii: bool) -> bool {
    if ascii {
        is_ascii_whitespace(c)
    } else {
        is_whitespace(c)
    }
}

/// The first position at or after `from` that holds no white space, or the length
/// of `s` if there is none.
pub open spec fn skip_whitespace(s: Seq<char>, from: int, ascii: bool) -> int
    decreases s.len() - from,
{
    if from < 0 || from >= s.len() || !is_space(s[from], ascii) {
        from
    } else {
        skip_whitespace(s, from + 1, ascii)
    }
}

/// The end of what is left of `s[from..to]` when the white space at its end is
/// taken away.
pub open spec fn skip_whitespace_back(s: Seq<char>, from: int, to: int, ascii: bool) -> int
    decreases to - from,
{
    if to <= from || to > s.len() || !is_space(s[to - 1], ascii) {
        to
    } else {
        skip_whitespace_back(s, from, to - 1, ascii)
    }
}

/// `s` without the white space at its two ends; with `ascii`, without the ASCII
/// white space there.
pub open spec fn trim(s: Seq<char>, ascii: bool) -> Seq<char> {
    let start = skip_whitespace(s, 0, ascii);
    s.subrange(start, skip_whitespace_back(s, start, s.len() as int, ascii))
}

/// What is left of an input text: the text without the ASCII white space at its
/// ends and without any `!`, which stands for the empty string.
pub open spec fn normalize(text: Seq<char>) -> Seq<char> {
    trim(text, true).filter(|c: char| c != '!')
}

/// The lines of `text`: the stretches between line feeds. A text of `n` line feeds
/// has `n + 1` lines, the last of them empty where the text ends in a line feed.
pub open spec fn split_lines(text: Seq<char>) -> Seq<Seq<char>>
    decreases text.len(),
{
    if text.len() == 0 {
        seq![Seq::empty()]
    } else {
        let before = split_lines(text.drop_last());
        if text.last() == '\n' {
            before.push(Seq::empty())
        } else {
            before.drop_last().push(before.last().push(text.last()))
        }
    }
}

/// Skipping white space stays within the text.
pub proof fn lemma_skip_whitespace(s: Seq<char>, from: int, to: int, ascii: bool)
    requires
        0 <= from <= to <= s.len(),
    ensures
        from <= skip_whitespace(s, from, ascii) <= s.len(),
        from <= skip_whitespace_back(s, from, to, ascii) <= to,
    decreases s.len() - from, to - from,
{
    if from < s.len() && is_space(s[from], ascii) {
        lemma_skip_whitespace(s, from + 1, s.len() as int, ascii);
    }
    if from < to && is_space(s[to - 1], ascii) {
        lemma_skip_whitespace(s, from, to - 1, ascii);
    }
}

/// What is left of an input text is no longer than the text: a text of at most
/// `isize::MAX / 2` characters leaves an input that can be decided.
pub proof fn lemma_normalize_len(text: Seq<char>)
    ensures
        normalize(text).len() <= text.len(),
{
    let start = skip_whitespace(text, 0, true);
    lemma_skip_whitespace(text, 0, text.len() as int, true);
    lemma_skip_whitespace(text, start, text.len() as int, true);
    trim(text, true).lemma_filter_len(|c: char| c != '!');
}

/// The characters of `s`.
pub fn to_chars(s: &str) -> (chars: Vec<char>)
    ensures
        chars@ == s@,
{
    let mut chars: Vec<char> = Vec::new();
    for c in it: s.chars()
        invariant
            it.seq() == s@,
            chars@ == s@.take(it.index() as int),
    {
        chars.push(c);
    }
    chars
}

/// Whether `c` is an uppercase ASCII letter.
pub fn is_ascii_uppercase(c: char) -> (b: bool)
    ensures
        b == is_upper(c),
{
    'A' <= c && c <= 'Z'
}

/// Whether `c` is white space.
pub fn char_is_whitespace(c: char) -> (b: bool)
    ensures
        b == is_whitespace(c),
{
    ('\u{9}' <= c && c <= '\u{d}') || c == ' ' || c == '\u{85}' || c == '\u{a0}' || c
        == '\u{1680}' || ('\u{2000}' <= c && c <= '\u{200a}') || c == '\u{2028}' || c
        == '\u{2029}' || c == '\u{202f}' || c == '\u{205f}' || c == '\u{3000}'
}

/// Whether `c` is ASCII white space.
pub fn char_is_ascii_whitespace(c: char) -> (b: bool)
    ensures
        b == is_ascii_whitespace(c),
{
    c == ' ' || c == '\u{9}' || c == '\u{a}' || c == '\u{c}' || c == '\u{d}'
}

/// The lines of `text`.
pub fn lines_of(text: &Vec<char>) -> (lines: Vec<Vec<char>>)
    ensures
        lines.deep_view() == split_lines(text@),
        lines.len() >= 1,
{
    let mut lines: Vec<Vec<char>> = Vec::new();
    let mut current: Vec<char> = Vec::new();
    let mut i: usize = 0;
    while i < text.len()
        invariant
            i <= text.len(),
            split_lines(text@.take(i as int)) == lines.deep_view().push(current@),
        decreases text.len() - i,
    {
        let ghost done = lines.deep_view();
        let ghost line = current@;
        assert(text@.take(i + 1).drop_last() =~= text@.take(i as int));
        let c = text[i];
        if c == '\n' {
            lines.push(current);
            current = Vec::new();
            assert(lines.deep_view() =~~= done.push(line));
        } else {
            current.push(c);
        }
        i += 1;
    }
    assert(text@.take(i as int) =~= text@);
    let ghost done = lines.deep_view();
    let ghost last = current@;
    lines.push(current);
    assert(lines.deep_view() =~~= done.push(last));
    lines
}

/// Whether `c` counts as white space: among the ASCII characters only, or among all.
pub fn char_is_space(c: char, ascii: bool) -> (b: bool)
    ensures
        b == is_space(c, ascii),
{
    if ascii {
        char_is_ascii_whitespace(c)
    } else {
        char_is_whitespace(c)
    }
}

/// A copy of `s` without the white space at its two ends; with `ascii`, without
/// the ASCII white space there.
pub fn trimmed(s: &Vec<char>, ascii: bool) -> (res: Vec<char>)
    ensures
        res@ == trim(s@, ascii),
{
    let mut start: usize = 0;
    while start < s.len() && char_is_space(s[start], ascii)
        invariant
            start <= s.len(),
            skip_whitespace(s@, 0, ascii) == skip_whitespace(s@, start as int, ascii),
        decreases s.len() - start,
    {
        start += 1;
    }
    let mut end: usize = s.len();
    while end > start && char_is_space(s[end - 1], ascii)
        invariant
            start <= end <= s.len(),
            skip_whitespace_back(s@, start as int, s.len() as int, ascii) == skip_whitespace_back(
                s@,
                start as int,
                end as int,
                ascii,
            ),
        decreases end - start,
    {
        end -= 1;
    }
    let mut res: Vec<char> = Vec::new();
    let mut i: usize = start;
    while i < end
        invariant
            start <= i <= end <= s.len(),
            res@ == s@.subrange(start as int, i as int),
        decreases end - i,
    {
        res.push(s[i]);
        i += 1;
    }
    res
}

/// `String::push`: the string with the character `c` added at its end.
pub assume_specification[ String::push ](s: &mut String, c: char)
    ensures
        final(s)@ == old(s)@.push(c),
;

/// The string that holds the one character `c`.
pub fn char_to_string(c: char) -> (s: String)
    ensures
        s@ == seq![c],
{
    let mut s = String::new();
    s.push(c);
    s
}

/// The string of the characters of `chars`.
pub fn to_string(chars: &Vec<char>) -> (s: String)
    ensures
        s@ == chars@,
{
    let mut s = String::new();
    let mut i: usize = 0;
    while i < chars.len()
        invariant
            i <= chars.len(),
            s@ == chars@.take(i as int),
        decreases chars.len() - i,
    {
        s.push(chars[i]);
        i += 1;
    }
    s
}

/// What is left of an input text: the text without the ASCII white space at its
/// ends and without any `!`.
pub fn normalize_input(text: &str) -> (input: String)
    ensures
        input@ == normalize(text@),
{
    let chars = to_chars(text);
    let kept = trimmed(&chars, true);
    let ghost pred = |c: char| c != '!';
    let mut res: Vec<char> = Vec::new();
    let mut i: usize = 0;
    while i < kept.len()
        invariant
            i <= kept.len(),
            pred == (|c: char| c != '!'),
            res@ == kept@.take(i as int).filter(pred),
        decreases kept.len() - i,
    {
        proof {
            reveal(Seq::filter);
            assert(kept@.take(i + 1).drop_last() =~= kept@.take(i as int));
        }
        if kept[i] != '!' {
            res.push(kept[i]);
        }
        i += 1;
    }
    assert(kept@.take(i as int) =~= kept@);
    to_string(&res)
}

} // verus!
