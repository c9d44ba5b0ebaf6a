//! Plain text helpers: decimal numerals, string comparison, white space and
//! line splitting.

use vstd::prelude::*;

verus! {

/// The character of a decimal digit.
pub open spec fn digit_char(d: nat) -> char {
    if d == 0 {
        '0'
    } else if d == 1 {
        '1'
    } else if d == 2 {
        '2'
    } else if d == 3 {
        '3'
    } else if d == 4 {
        '4'
    } else if d == 5 {
        '5'
    } else if d == 6 {
        '6'
    } else if d == 7 {
        '7'
    } else if d == 8 {
        '8'
    } else {
        '9'
    }
}

/// The decimal numeral of `n`, without sign or leading zeros.
pub open spec fn decimal_of(n: nat) -> Seq<char>
    decreases n,
{
    if n < 10 {
        seq![digit_char(n)]
    } else {
        decimal_of(n / 10).push(digit_char(n % 10))
    }
}

fn digit_str(d: usize) -> (r: &'static str)
    requires
        d < 10,
    ensures
        r@ == seq![digit_char(d as nat)],
{
    proof {
        reveal_strlit("0");
        reveal_strlit("1");
        reveal_strlit("2");
        reveal_strlit("3");
        reveal_strlit("4");
        reveal_strlit("5");
        reveal_strlit("6");
        reveal_strlit("7");
        reveal_strlit("8");
        reveal_strlit("9");
    }
    if d == 0 {
        "0"
    } else if d == 1 {
        "1"
    } else if d == 2 {
        "2"
    } else if d == 3 {
        "3"
    } else if d == 4 {
        "4"
    } else if d == 5 {
        "5"
    } else if d == 6 {
        "6"
    } else if d == 7 {
        "7"
    } else if d == 8 {
        "8"
    } else {
        "9"
    }
}

/// Writes `n` in decimal.
pub fn decimal(n: usize) -> (r: String)
    ensures
        r@ == decimal_of(n as nat),
    decreases n,
{
    if n < 10 {
        String::from_str(digit_str(n))
    } else {
        let mut s = decimal(n / 10);
        s.append(digit_str(n % 10));
        s
    }
}

/// Whether two strings hold the same characters.
pub fn same_text(a: &str, b: &str) -> (r: bool)
    ensures
        r == (a@ == b@),
{
    let n = a.unicode_len();
    if n != b.unicode_len() {
        return false;
    }
    let mut i: usize = 0;
    while i < n
        invariant
            n == a@.len(),
            n == b@.len(),
            i <= n,
            a@.take(i as int) == b@.take(i as int),
        decreases n - i,
    {
        if a.get_char(i) != b.get_char(i) {
            assert(a@[i as int] != b@[i as int]);
            return false;
        }
        assert(a@.take(i + 1) == a@.take(i as int).push(a@[i as int]));
        assert(b@.take(i + 1) == b@.take(i as int).push(b@[i as int]));
        i = i + 1;
    }
    assert(a@ == a@.take(n as int));
    assert(b@ == b@.take(n as int));
    true
}

/// Whether `c` has the Unicode `White_Space` property, the set of
/// characters that `str::trim` removes.
pub open spec fn is_space(c: char) -> bool {
    ('\u{9}' <= c && c <= '\u{d}') || c == ' ' || c == '\u{85}' || c == '\u{a0}'
        || c == '\u{1680}' || ('\u{2000}' <= c && c <= '\u{200a}') || c == '\u{2028}'
        || c == '\u{2029}' || c == '\u{202f}' || c == '\u{205f}' || c == '\u{3000}'
}

/// A text that is empty once surrounding white space is trimmed.
pub open spec fn is_blank_text(s: Seq<char>) -> bool {
    forall|k: int| 0 <= k < s.len() ==> is_space(#[trigger] s[k])
}

fn space(c: char) -> (r: bool)
    ensures
        r == is_space(c),
{
    ('\u{9}' <= c && c <= '\u{d}') || c == ' ' || c == '\u{85}' || c == '\u{a0}' || c
        == '\u{1680}' || ('\u{2000}' <= c && c <= '\u{200a}') || c == '\u{2028}' || c
        == '\u{2029}' || c == '\u{202f}' || c == '\u{205f}' || c == '\u{3000}'
}

/// Whether `s` holds nothing but white space.
pub fn is_blank(s: &str) -> (r: bool)
    ensures
        r == is_blank_text(s@),
{
    let n = s.unicode_len();
    let mut i: usize = 0;
    while i < n
        invariant
            n == s@.len(),
            i <= n,
            forall|k: int| 0 <= k < i ==> is_space(#[trigger] s@[k]),
        decreases n - i,
    {
        if !space(s.get_char(i)) {
            return false;
        }
        i = i + 1;
    }
    true
}

/// The characters of each string of a sequence.
pub open spec fn views(v: Seq<String>) -> Seq<Seq<char>> {
    v.map_values(|s: String| s@)
}

/// A line without the carriage return that may end it.
pub open spec fn strip_cr(l: Seq<char>) -> Seq<char> {
    if l.len() > 0 && l.last() == '\r' {
        l.drop_last()
    } else {
        l
    }
}

/// The position of the first line feed of `s`, or its length if it has none.
pub open spec fn line_end(s: Seq<char>) -> nat
    decreases s.len(),
{
    if s.len() == 0 {
        0
    } else if s[0] == '\n' {
        0
    } else {
        1 + line_end(s.drop_first())
    }
}

/// The lines of a text: split at each line feed, each without a carriage
/// return before it; a final line feed opens no empty last line.
pub open spec fn lines_of(s: Seq<char>) -> Seq<Seq<char>>
    decreases s.len(),
{
    if s.len() == 0 {
        Seq::empty()
    } else {
        let e = line_end(s);
        if e < s.len() {
            seq![strip_cr(s.take(e as int))] + lines_of(s.skip(e + 1 as int))
        } else {
            seq![strip_cr(s)]
        }
    }
}

/// The first line feed of `s` stands at `m` when none comes before it.
pub proof fn lemma_line_end_at(s: Seq<char>, m: int)
    requires
        0 <= m < s.len(),
        forall|k: int| 0 <= k < m ==> s[k] != '\n',
        s[m] == '\n',
    ensures
        line_end(s) == m,
{
    lemma_line_end(s, m);
}

proof fn lemma_line_end(s: Seq<char>, m: int)
    requires
        0 <= m <= s.len(),
        forall|k: int| 0 <= k < m ==> s[k] != '\n',
        m == s.len() || s[m] == '\n',
    ensures
        line_end(s) == m,
    decreases m,
{
    if s.len() > 0 && m > 0 {
        lemma_line_end(s.drop_first(), m - 1);
    }
}

fn without_cr(l: &str) -> (r: String)
    ensures
        r@ == strip_cr(l@),
{
    let n = l.unicode_len();
    if n > 0 && l.get_char(n - 1) == '\r' {
        let r = String::from_str(l.substring_char(0, n - 1));
        assert(r@ =~= l@.drop_last());
        r
    } else {
        String::from_str(l)
    }
}

/// Splits a text into its lines.
pub fn split_lines(s: &str) -> (r: Vec<String>)
    ensures
        views(r@) == lines_of(s@),
{
    let n = s.unicode_len();
    let mut r: Vec<String> = Vec::new();
    let mut start: usize = 0;
    let mut j: usize = 0;
    assert(s@.skip(0) =~= s@);
    assert(views(r@) =~= Seq::<Seq<char>>::empty());
    while j < n
        invariant
            n == s@.len(),
            start <= j <= n,
            forall|k: int| start <= k < j ==> s@[k] != '\n',
            views(r@) + lines_of(s@.skip(start as int)) == lines_of(s@),
        decreases n - j,
    {
        if s.get_char(j) == '\n' {
            let line = without_cr(s.substring_char(start, j));
            proof {
                let t = s@.skip(start as int);
                lemma_line_end(t, j - start);
                assert(t.take(j - start) =~= s@.subrange(start as int, j as int));
                assert(t.skip(j - start + 1) =~= s@.skip(j + 1));
                assert(views(r@.push(line)) =~= views(r@).push(line@));
                assert(views(r@) + lines_of(t) =~= views(r@).push(line@) + lines_of(
                    s@.skip(j + 1),
                ));
            }
            r.push(line);
            start = j + 1;
        }
        j = j + 1;
    }
    if start < n {
        let line = without_cr(s.substring_char(start, n));
        proof {
            let t = s@.skip(start as int);
            lemma_line_end(t, n - start);
            assert(t =~= s@.subrange(start as int, n as int));
            assert(views(r@.push(line)) =~= views(r@).push(line@));
            assert(views(r@) + lines_of(t) =~= views(r@).push(line@));
        }
        r.push(line);
    } else {
        assert(s@.skip(start as int) =~= Seq::<char>::empty());
        assert(views(r@) + lines_of(s@.skip(start as int)) =~= views(r@));
    }
    r
}

} // verus!
