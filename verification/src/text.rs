//! Character-level scanning primitives the request grammar is built on:
//! first-occurrence searches, whitespace classes, trimming, string equality,
//! and decimal rendering of lengths.
use vstd::prelude::*;

verus! {

/// ASCII whitespace, the separator class of the request line
/// (`char::is_ascii_whitespace`'s set).
pub open spec fn is_ascii_ws(c: char) -> bool {
    c == ' ' || c == '\t' || c == '\n' || c == '\r' || c == '\u{c}'
}

/// Unicode whitespace as Rust's `char::is_whitespace` defines it (the
/// `White_Space` property); header names and values are trimmed of these.
pub open spec fn is_unicode_ws(c: char) -> bool {
    ||| c == ' ' || c == '\t' || c == '\n' || c == '\r' || c == '\u{b}' || c == '\u{c}'
    ||| c == '\u{85}' || c == '\u{a0}' || c == '\u{1680}'
    ||| c == '\u{2000}' || c == '\u{2001}' || c == '\u{2002}' || c == '\u{2003}'
    ||| c == '\u{2004}' || c == '\u{2005}' || c == '\u{2006}' || c == '\u{2007}'
    ||| c == '\u{2008}' || c == '\u{2009}' || c == '\u{200a}'
    ||| c == '\u{2028}' || c == '\u{2029}' || c == '\u{202f}' || c == '\u{205f}'
    ||| c == '\u{3000}'
}

pub fn ascii_ws_char(c: char) -> (r: bool)
    ensures
        r == is_ascii_ws(c),
{
    c == ' ' || c == '\t' || c == '\n' || c == '\r' || c == '\u{c}'
}

pub fn unicode_ws_char(c: char) -> (r: bool)
    ensures
        r == is_unicode_ws(c),
{
    c == ' ' || c == '\t' || c == '\n' || c == '\r' || c == '\u{b}' || c == '\u{c}'
        || c == '\u{85}' || c == '\u{a0}' || c == '\u{1680}' || c == '\u{2000}' || c == '\u{2001}'
        || c == '\u{2002}' || c == '\u{2003}' || c == '\u{2004}' || c == '\u{2005}'
        || c == '\u{2006}' || c == '\u{2007}' || c == '\u{2008}' || c == '\u{2009}'
        || c == '\u{200a}' || c == '\u{2028}' || c == '\u{2029}' || c == '\u{202f}'
        || c == '\u{205f}' || c == '\u{3000}'
}

/// Index of the first CRLF pair at or after `i`, if any.
pub open spec fn find_crlf_at(s: Seq<char>, i: int) -> Option<int>
    decreases s.len() - i,
    when 0 <= i
{
    if i + 2 > s.len() {
        None
    } else if s[i] == '\r' && s[i + 1] == '\n' {
        Some(i)
    } else {
        find_crlf_at(s, i + 1)
    }
}

/// Index of the first blank-line boundary (CRLF CRLF) at or after `i`, if any.
pub open spec fn find_blank_at(s: Seq<char>, i: int) -> Option<int>
    decreases s.len() - i,
    when 0 <= i
{
    if i + 4 > s.len() {
        None
    } else if s[i] == '\r' && s[i + 1] == '\n' && s[i + 2] == '\r' && s[i + 3] == '\n' {
        Some(i)
    } else {
        find_blank_at(s, i + 1)
    }
}

/// Index of the first occurrence of `c` at or after `i`, if any.
pub open spec fn find_char_at(s: Seq<char>, c: char, i: int) -> Option<int>
    decreases s.len() - i,
    when 0 <= i
{
    if i >= s.len() {
        None
    } else if s[i] == c {
        Some(i)
    } else {
        find_char_at(s, c, i + 1)
    }
}

/// A CRLF at `e` with none between `i` and `e` is the first one found.
pub proof fn lemma_find_crlf_at_first(s: Seq<char>, i: int, e: int)
    requires
        0 <= i <= e,
        e + 2 <= s.len(),
        s[e] == '\r' && s[e + 1] == '\n',
        forall|j: int| i <= j < e ==> !(#[trigger] s[j] == '\r' && s[j + 1] == '\n'),
    ensures
        find_crlf_at(s, i) == Some(e),
    decreases e - i,
{
    if i < e {
        lemma_find_crlf_at_first(s, i + 1, e);
    }
}

/// An occurrence of `c` at `e` with none between `i` and `e` is the first
/// one found.
pub proof fn lemma_find_char_at_first(s: Seq<char>, c: char, i: int, e: int)
    requires
        0 <= i <= e,
        e < s.len(),
        s[e] == c,
        forall|j: int| i <= j < e ==> s[j] != c,
    ensures
        find_char_at(s, c, i) == Some(e),
    decreases e - i,
{
    if i < e {
        lemma_find_char_at_first(s, c, i + 1, e);
    }
}

pub fn find_crlf(s: &str, from: usize) -> (r: Option<usize>)
    requires
        from <= s@.len(),
    ensures
        match r {
            Some(i) => find_crlf_at(s@, from as int) == Some(i as int),
            None => find_crlf_at(s@, from as int) is None,
        },
{
    let len: usize = s.unicode_len();
    let mut i: usize = from;
    while i < len && len - i >= 2
        invariant
            from <= i <= len,
            len == s@.len(),
            find_crlf_at(s@, from as int) == find_crlf_at(s@, i as int),
        decreases len - i,
    {
        if s.get_char(i) == '\r' && s.get_char(i + 1) == '\n' {
            return Some(i);
        }
        i = i + 1;
    }
    None
}

pub fn find_blank(s: &str, from: usize) -> (r: Option<usize>)
    requires
        from <= s@.len(),
    ensures
        match r {
            Some(i) => find_blank_at(s@, from as int) == Some(i as int),
            None => find_blank_at(s@, from as int) is None,
        },
{
    let len: usize = s.unicode_len();
    let mut i: usize = from;
    while i < len && len - i >= 4
        invariant
            from <= i <= len,
            len == s@.len(),
            find_blank_at(s@, from as int) == find_blank_at(s@, i as int),
        decreases len - i,
    {
        if s.get_char(i) == '\r' && s.get_char(i + 1) == '\n' && s.get_char(i + 2) == '\r'
            && s.get_char(i + 3) == '\n' {
            return Some(i);
        }
        i = i + 1;
    }
    None
}

pub fn find_char(s: &str, c: char, from: usize) -> (r: Option<usize>)
    requires
        from <= s@.len(),
    ensures
        match r {
            Some(i) => find_char_at(s@, c, from as int) == Some(i as int),
            None => find_char_at(s@, c, from as int) is None,
        },
{
    let len: usize = s.unicode_len();
    let mut i: usize = from;
    while i < len
        invariant
            from <= i <= len,
            len == s@.len(),
            find_char_at(s@, c, from as int) == find_char_at(s@, c, i as int),
        decreases len - i,
    {
        if s.get_char(i) == c {
            return Some(i);
        }
        i = i + 1;
    }
    None
}

/// First index at or after `i` that does not carry unicode whitespace.
pub open spec fn trim_start_idx(s: Seq<char>, i: int) -> int
    decreases s.len() - i,
    when 0 <= i <= s.len()
{
    if i >= s.len() || !is_unicode_ws(s[i]) {
        i
    } else {
        trim_start_idx(s, i + 1)
    }
}

/// Last index at or before `i` such that no unicode whitespace stands right
/// before it.
pub open spec fn trim_end_idx(s: Seq<char>, i: int) -> int
    decreases i,
    when 0 <= i <= s.len()
{
    if i <= 0 || !is_unicode_ws(s[i - 1]) {
        i
    } else {
        trim_end_idx(s, i - 1)
    }
}

/// `s` with unicode whitespace removed from both ends, as `str::trim` does.
pub open spec fn trim_of(s: Seq<char>) -> Seq<char> {
    let a = trim_start_idx(s, 0);
    let b = trim_end_idx(s, s.len() as int);
    if a <= b {
        s.subrange(a, b)
    } else {
        Seq::empty()
    }
}

pub fn trim_str(s: &str) -> (r: String)
    ensures
        r@ == trim_of(s@),
{
    let len: usize = s.unicode_len();
    let mut a: usize = 0;
    while a < len && unicode_ws_char(s.get_char(a))
        invariant
            0 <= a <= len,
            len == s@.len(),
            trim_start_idx(s@, 0) == trim_start_idx(s@, a as int),
        decreases len - a,
    {
        a = a + 1;
    }
    let mut b: usize = len;
    while b > 0 && unicode_ws_char(s.get_char(b - 1))
        invariant
            0 <= b <= len,
            len == s@.len(),
            trim_end_idx(s@, len as int) == trim_end_idx(s@, b as int),
        decreases b,
    {
        b = b - 1;
    }
    if a <= b {
        s.substring_char(a, b).to_owned()
    } else {
        String::new()
    }
}

/// End of the ASCII-whitespace-delimited token that starts at `i`: the first
/// index at or after `i` holding ASCII whitespace, or the end of `s`.
pub open spec fn token_end_at(s: Seq<char>, i: int) -> int
    decreases s.len() - i,
    when 0 <= i <= s.len()
{
    if i >= s.len() || is_ascii_ws(s[i]) {
        i
    } else {
        token_end_at(s, i + 1)
    }
}

pub fn token_end(s: &str, from: usize) -> (r: usize)
    requires
        from <= s@.len(),
    ensures
        r == token_end_at(s@, from as int),
        from <= r <= s@.len(),
{
    let len: usize = s.unicode_len();
    let mut i: usize = from;
    while i < len && !ascii_ws_char(s.get_char(i))
        invariant
            from <= i <= len,
            len == s@.len(),
            token_end_at(s@, from as int) == token_end_at(s@, i as int),
        decreases len - i,
    {
        i = i + 1;
    }
    i
}

/// The decimal digit character for `d` in `0 ..= 9`.
pub open spec fn dec_digit(d: int) -> char {
    if d == 0 {
        '0'
    } else if d == 1 {
        '1'
    } else if d == 2 {
        '2'
    } else if d == 3 {
        '3'
    } else if d == 4 {
        '4'
    } else if d == 5 {
        '5'
    } else if d == 6 {
        '6'
    } else if d == 7 {
        '7'
    } else if d == 8 {
        '8'
    } else {
        '9'
    }
}

/// The decimal rendering of `n`, without sign or leading zeros.
pub open spec fn dec_str(n: int) -> Seq<char>
    decreases n,
    when n >= 0
{
    if n < 10 {
        seq![dec_digit(n)]
    } else {
        dec_str(n / 10).push(dec_digit(n % 10))
    }
}

fn digit_str(d: usize) -> (r: &'static str)
    requires
        d < 10,
    ensures
        r@ =~= seq![dec_digit(d as int)],
{
    let r: &'static str = if d == 0 {
        "0"
    } else if d == 1 {
        "1"
    } else if d == 2 {
        "2"
    } else if d == 3 {
        "3"
    } else if d == 4 {
        "4"
    } else if d == 5 {
        "5"
    } else if d == 6 {
        "6"
    } else if d == 7 {
        "7"
    } else if d == 8 {
        "8"
    } else {
        "9"
    };
    proof {
        reveal_strlit("0");
        reveal_strlit("1");
        reveal_strlit("2");
        reveal_strlit("3");
        reveal_strlit("4");
        reveal_strlit("5");
        reveal_strlit("6");
        reveal_strlit("7");
        reveal_strlit("8");
        reveal_strlit("9");
    }
    r
}

pub fn usize_to_dec(n: usize) -> (r: String)
    ensures
        r@ == dec_str(n as int),
    decreases n,
{
    let d: usize = n % 10;
    let ds: &'static str = digit_str(d);
    if n < 10 {
        ds.to_owned()
    } else {
        let prefix: String = usize_to_dec(n / 10);
        let r = prefix.concat(ds);
        proof {
            assert(r@ =~= dec_str(n as int / 10).push(dec_digit(n as int % 10)));
        }
        r
    }
}

pub fn str_eq(a: &str, b: &str) -> (r: bool)
    ensures
        r == (a@ == b@),
{
    let alen: usize = a.unicode_len();
    let blen: usize = b.unicode_len();
    if alen != blen {
        return false;
    }
    let mut i: usize = 0;
    while i < alen
        invariant
            0 <= i <= alen,
            alen == a@.len(),
            alen == b@.len(),
            forall|j: int| 0 <= j < i ==> a@[j] == b@[j],
        decreases alen - i,
    {
        if a.get_char(i) != b.get_char(i) {
            return false;
        }
        i = i + 1;
    }
    proof {
        assert(a@ =~= b@);
    }
    true
}

} // verus!
