//! Character-level helpers: white space, words, and comparison of text.
use vstd::prelude::*;

verus! {

/// The characters with Unicode's White_Space property.
pub open spec fn is_white(c: char) -> bool {
    ('\u{9}' <= c && c <= '\u{d}') || c == ' ' || c == '\u{85}' || c == '\u{a0}' || c == '\u{1680}'
        || ('\u{2000}' <= c && c <= '\u{200a}') || c == '\u{2028}' || c == '\u{2029}' || c
        == '\u{202f}' || c == '\u{205f}' || c == '\u{3000}'
}

/// Whether `c` is white space.
pub fn is_white_char(c: char) -> (r: bool)
    ensures
        r == is_white(c),
{
    ('\u{9}' <= c && c <= '\u{d}') || c == ' ' || c == '\u{85}' || c == '\u{a0}' || c == '\u{1680}'
        || ('\u{2000}' <= c && c <= '\u{200a}') || c == '\u{2028}' || c == '\u{2029}' || c
        == '\u{202f}' || c == '\u{205f}' || c == '\u{3000}'
}

/// The words of `s[i..]`, where a word has begun at `start`.
pub open spec fn words_from(s: Seq<char>, i: int, start: int) -> Seq<Seq<char>>
    decreases s.len() - i,
{
    if i >= s.len() {
        if start < i {
            seq![s.subrange(start, s.len() as int)]
        } else {
            seq![]
        }
    } else if is_white(s[i]) {
        (if start < i {
            seq![s.subrange(start, i)]
        } else {
            seq![]
        }) + words_from(s, i + 1, i + 1)
    } else {
        words_from(s, i + 1, start)
    }
}

/// The maximal runs of characters that are not white space, in order.
pub open spec fn words(s: Seq<char>) -> Seq<Seq<char>> {
    words_from(s, 0, 0)
}

/// The words of `s`, split at runs of white space.
pub fn split_words(s: &str) -> (r: Vec<String>)
    ensures
        r@.map_values(|w: String| w@) == words(s@),
{
    let n = s.unicode_len();
    let mut acc: Vec<String> = Vec::new();
    let mut i: usize = 0;
    let mut start: usize = 0;
    while i < n
        invariant
            n == s@.len(),
            start <= i <= n,
            acc@.map_values(|w: String| w@) + words_from(s@, i as int, start as int) == words(s@),
        decreases n - i,
    {
        let c = s.get_char(i);
        if is_white_char(c) {
            if start < i {
                let ghost before = acc@;
                let w = String::from_str(s.substring_char(start, i));
                acc.push(w);
                assert(acc@.map_values(|w: String| w@) =~= before.map_values(|w: String| w@) + seq![
                    s@.subrange(start as int, i as int),
                ]);
            } else {
                assert(seq![] + words_from(s@, i + 1, i + 1) =~= words_from(s@, i + 1, i + 1));
            }
            start = i + 1;
        }
        i = i + 1;
    }
    if start < n {
        let ghost before = acc@;
        let w = String::from_str(s.substring_char(start, n));
        acc.push(w);
        assert(acc@.map_values(|w: String| w@) =~= before.map_values(|w: String| w@) + seq![
            s@.subrange(start as int, n as int),
        ]);
    } else {
        assert(acc@.map_values(|w: String| w@) + seq![] =~= acc@.map_values(|w: String| w@));
    }
    acc
}

/// The lines of `s[i..]`, where the current line began at `start`.
pub open spec fn lines_from(s: Seq<char>, i: int, start: int) -> Seq<Seq<char>>
    decreases s.len() - i,
{
    if i >= s.len() {
        seq![s.subrange(start, s.len() as int)]
    } else if s[i] == '\n' {
        seq![s.subrange(start, i)] + lines_from(s, i + 1, i + 1)
    } else {
        lines_from(s, i + 1, start)
    }
}

/// The pieces of `s` between newline characters, empty ones included.
pub open spec fn lines(s: Seq<char>) -> Seq<Seq<char>> {
    lines_from(s, 0, 0)
}

/// `s` split at each newline character, keeping empty pieces.
pub fn split_lines(s: &str) -> (r: Vec<String>)
    ensures
        r@.map_values(|w: String| w@) == lines(s@),
{
    let n = s.unicode_len();
    let mut acc: Vec<String> = Vec::new();
    let mut i: usize = 0;
    let mut start: usize = 0;
    while i < n
        invariant
            n == s@.len(),
            start <= i <= n,
            acc@.map_values(|w: String| w@) + lines_from(s@, i as int, start as int) == lines(s@),
        decreases n - i,
    {
        if s.get_char(i) == '\n' {
            let ghost before = acc@;
            let w = String::from_str(s.substring_char(start, i));
            acc.push(w);
            assert(acc@.map_values(|w: String| w@) =~= before.map_values(|w: String| w@) + seq![
                s@.subrange(start as int, i as int),
            ]);
            start = i + 1;
        }
        i = i + 1;
    }
    let ghost before = acc@;
    let w = String::from_str(s.substring_char(start, n));
    acc.push(w);
    assert(acc@.map_values(|w: String| w@) =~= before.map_values(|w: String| w@) + seq![
        s@.subrange(start as int, n as int),
    ]);
    acc
}

/// Whether two texts hold the same characters.
pub fn same_text(a: &str, b: &str) -> (r: bool)
    ensures
        r == (a@ == b@),
{
    let n = a.unicode_len();
    if n != b.unicode_len() {
        return false;
    }
    let mut i: usize = 0;
    while i < n
        invariant
            n == a@.len() == b@.len(),
            i <= n,
            a@.take(i as int) == b@.take(i as int),
        decreases n - i,
    {
        if a.get_char(i) != b.get_char(i) {
            return false;
        }
        assert(a@.take(i + 1) =~= a@.take(i as int).push(a@[i as int]));
        assert(b@.take(i + 1) =~= b@.take(i as int).push(b@[i as int]));
        i = i + 1;
    }
    assert(a@ =~= a@.take(n as int));
    assert(b@ =~= b@.take(n as int));
    true
}

} // verus!
