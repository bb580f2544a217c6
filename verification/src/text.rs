//! Character-level text helpers shared by the parsers: conversion between
//! `str` and character vectors, Unicode trimming, line splitting and number
//! formatting.

use vstd::prelude::*;

verus! {

/// Appends one character to a string.
/// Trusted: calls `String::push`, which std documents as appending the
/// given `char` to the end of the string.
#[verifier::external_body]
pub(crate) fn push_char(s: &mut String, c: char)
    ensures
        final(s)@ == old(s)@.push(c),
{
    s.push(c);
}

/// The characters of `s`, in order.
pub fn chars_of(s: &str) -> (v: Vec<char>)
    ensures
        v@ == s@,
{
    let mut v: Vec<char> = Vec::new();
    for c in iter: s.chars()
        invariant
            v@ == iter.seq().take(iter.index()),
            iter.seq() == s@,
    {
        v.push(c);
    }
    v
}


/// A string holding exactly the characters of `v`.
pub fn string_of(v: &[char]) -> (s: String)
    ensures
        s@ == v@,
{
    let mut s = String::new();
    let mut i: usize = 0;
    while i < v.len()
        invariant
            i <= v@.len(),
            s@ == v@.take(i as int),
        decreases v@.len() - i,
    {
        push_char(&mut s, v[i]);
        assert(v@.take(i + 1) =~= v@.take(i as int).push(v@[i as int]));
        i = i + 1;
    }
    assert(v@.take(v@.len() as int) =~= v@);
    s
}

/// A copy of the characters `s[from..to]`.
pub fn sub_chars(s: &[char], from: usize, to: usize) -> (v: Vec<char>)
    requires
        from <= to <= s@.len(),
    ensures
        v@ == s@.subrange(from as int, to as int),
{
    let mut v: Vec<char> = Vec::new();
    let mut i: usize = from;
    while i < to
        invariant
            from <= i <= to <= s@.len(),
            v@ == s@.subrange(from as int, i as int),
        decreases to - i,
    {
        v.push(s[i]);
        assert(s@.subrange(from as int, i + 1) =~= s@.subrange(from as int, i as int).push(
            s@[i as int],
        ));
        i = i + 1;
    }
    v
}

/// `char::is_whitespace`: the characters with the Unicode `White_Space`
/// property, which is what `str::trim` removes.
pub open spec fn is_unicode_whitespace(c: char) -> bool {
    ||| c == '\t'
    ||| c == '\n'
    ||| c == '\u{0B}'
    ||| c == '\u{0C}'
    ||| c == '\r'
    ||| c == ' '
    ||| c == '\u{85}'
    ||| c == '\u{A0}'
    ||| c == '\u{1680}'
    ||| ('\u{2000}' <= c && c <= '\u{200A}')
    ||| c == '\u{2028}'
    ||| c == '\u{2029}'
    ||| c == '\u{202F}'
    ||| c == '\u{205F}'
    ||| c == '\u{3000}'
}

pub fn is_whitespace_char(c: char) -> (b: bool)
    ensures
        b == is_unicode_whitespace(c),
{
    c == '\t' || c == '\n' || c == '\u{0B}' || c == '\u{0C}' || c == '\r' || c == ' '
        || c == '\u{85}' || c == '\u{A0}' || c == '\u{1680}' || ('\u{2000}' <= c && c
        <= '\u{200A}') || c == '\u{2028}' || c == '\u{2029}' || c == '\u{202F}' || c
        == '\u{205F}' || c == '\u{3000}'
}

/// `s` without its leading whitespace.
pub open spec fn trim_start(s: Seq<char>) -> Seq<char>
    decreases s.len(),
{
    if s.len() > 0 && is_unicode_whitespace(s[0]) {
        trim_start(s.drop_first())
    } else {
        s
    }
}

/// `s` without its trailing whitespace.
pub open spec fn trim_end(s: Seq<char>) -> Seq<char>
    decreases s.len(),
{
    if s.len() > 0 && is_unicode_whitespace(s.last()) {
        trim_end(s.drop_last())
    } else {
        s
    }
}

/// `str::trim`: `s` without leading and trailing whitespace.
pub open spec fn trim(s: Seq<char>) -> Seq<char> {
    trim_end(trim_start(s))
}

/// Where `trim_start` cuts: the whitespace before `k` goes, and `s[k]`, if
/// any, is not whitespace.
pub proof fn lemma_trim_start_shape(s: Seq<char>) -> (k: int)
    ensures
        0 <= k <= s.len(),
        trim_start(s) == s.skip(k),
        k < s.len() ==> !is_unicode_whitespace(s[k]),
        forall|j: int| 0 <= j < k ==> is_unicode_whitespace(#[trigger] s[j]),
    decreases s.len(),
{
    if s.len() > 0 && is_unicode_whitespace(s[0]) {
        let t = s.drop_first();
        let k = lemma_trim_start_shape(t);
        assert(t.skip(k) =~= s.skip(k + 1));
        assert forall|j: int| 0 <= j < k + 1 implies is_unicode_whitespace(#[trigger] s[j]) by {
            if j > 0 {
                assert(s[j] == t[j - 1]);
            }
        }
        k + 1
    } else {
        assert(s.skip(0) =~= s);
        0
    }
}

/// Where `trim_end` cuts: the whitespace from `m` on goes, and `s[m - 1]`,
/// if any, is not whitespace.
pub proof fn lemma_trim_end_shape(s: Seq<char>) -> (m: int)
    ensures
        0 <= m <= s.len(),
        trim_end(s) == s.take(m),
        m > 0 ==> !is_unicode_whitespace(s[m - 1]),
        forall|j: int| m <= j < s.len() ==> is_unicode_whitespace(#[trigger] s[j]),
    decreases s.len(),
{
    if s.len() > 0 && is_unicode_whitespace(s.last()) {
        let t = s.drop_last();
        let m = lemma_trim_end_shape(t);
        assert(t.take(m) =~= s.take(m));
        assert forall|j: int| m <= j < s.len() implies is_unicode_whitespace(#[trigger] s[j]) by {
            if j < s.len() - 1 {
                assert(s[j] == t[j]);
            }
        }
        m
    } else {
        assert(s.take(s.len() as int) =~= s);
        s.len() as int
    }
}

/// Trimming cuts whitespace off both ends and nothing else: the trimmed
/// text is a stretch `s[k..m]` of `s`, everything outside it is whitespace,
/// and when it is not empty it neither starts nor ends with whitespace.
pub proof fn lemma_trim_cuts_only_whitespace(s: Seq<char>) -> (km: (int, int))
    ensures
        0 <= km.0 <= km.1 <= s.len(),
        trim(s) == s.subrange(km.0, km.1),
        forall|j: int| 0 <= j < km.0 ==> is_unicode_whitespace(#[trigger] s[j]),
        forall|j: int| km.1 <= j < s.len() ==> is_unicode_whitespace(#[trigger] s[j]),
        km.0 < km.1 ==> !is_unicode_whitespace(s[km.0]) && !is_unicode_whitespace(s[km.1 - 1]),
{
    let k = lemma_trim_start_shape(s);
    let u = s.skip(k);
    let m = lemma_trim_end_shape(u);
    assert(u.take(m) =~= s.subrange(k, k + m));
    assert forall|j: int| k + m <= j < s.len() implies is_unicode_whitespace(#[trigger] s[j]) by {
        assert(s[j] == u[j - k]);
    }
    if m > 0 {
        assert(s[k + m - 1] == u[m - 1]);
    }
    (k, k + m)
}

/// The characters of `s` without leading and trailing whitespace.
pub fn trim_chars(s: &[char]) -> (t: Vec<char>)
    ensures
        t@ == trim(s@),
{
    let n = s.len();
    let mut i: usize = 0;
    assert(s@.skip(0) =~= s@);
    while i < n && is_whitespace_char(s[i])
        invariant
            i <= n == s@.len(),
            trim_start(s@) == trim_start(s@.skip(i as int)),
        decreases n - i,
    {
        assert(s@.skip(i as int).drop_first() =~= s@.skip(i + 1));
        i = i + 1;
    }
    assert(trim_start(s@) == s@.subrange(i as int, n as int)) by {
        assert(s@.skip(i as int) =~= s@.subrange(i as int, n as int));
    }
    let mut j: usize = n;
    while j > i && is_whitespace_char(s[j - 1])
        invariant
            i <= j <= n == s@.len(),
            trim(s@) == trim_end(s@.subrange(i as int, j as int)),
        decreases j,
    {
        assert(s@.subrange(i as int, j as int).drop_last() =~= s@.subrange(
            i as int,
            j - 1,
        ));
        j = j - 1;
    }
    sub_chars(s, i, j)
}


/// The length of the first line of `s`: the index of its first `'\n'`, or
/// its length when it has none.
pub open spec fn line_break(s: Seq<char>) -> nat
    decreases s.len(),
{
    if s.len() == 0 {
        0
    } else if s[0] == '\n' {
        0
    } else {
        1 + line_break(s.drop_first())
    }
}

/// A line without the `'\r'` of a `"\r\n"` ending.
pub open spec fn strip_cr(line: Seq<char>) -> Seq<char> {
    if line.len() > 0 && line.last() == '\r' {
        line.drop_last()
    } else {
        line
    }
}

/// `str::lines`: the pieces of `s` between `'\n'` characters, each without
/// a `'\r'` just before its `'\n'`; a final piece with no `'\n'` after it is
/// kept as it is, and an empty final piece is dropped.
pub open spec fn lines(s: Seq<char>) -> Seq<Seq<char>>
    decreases s.len(),
{
    if s.len() == 0 {
        seq![]
    } else {
        let k = line_break(s) as int;
        if k < s.len() {
            seq![strip_cr(s.take(k))] + lines(s.skip(k + 1))
        } else {
            seq![s]
        }
    }
}

proof fn lemma_line_break(s: Seq<char>, k: int)
    requires
        0 <= k <= s.len(),
        forall|j: int| 0 <= j < k ==> s[j] != '\n',
        k == s.len() || s[k] == '\n',
    ensures
        line_break(s) == k,
    decreases k,
{
    if k > 0 {
        lemma_line_break(s.drop_first(), k - 1);
    }
}

/// The views of a vector of character vectors.
pub open spec fn views_of(v: Seq<Vec<char>>) -> Seq<Seq<char>> {
    v.map_values(|l: Vec<char>| l@)
}

/// The lines of `s`, as `str::lines` splits them.
pub fn split_lines(s: &[char]) -> (out: Vec<Vec<char>>)
    ensures
        views_of(out@) == lines(s@),
{
    let n = s.len();
    let mut out: Vec<Vec<char>> = Vec::new();
    let mut start: usize = 0;
    let mut i: usize = 0;
    assert(s@.skip(0) =~= s@);
    while i < n
        invariant
            start <= i <= n == s@.len(),
            lines(s@) == views_of(out@) + lines(s@.skip(start as int)),
            forall|j: int| start <= j < i ==> s@[j] != '\n',
        decreases n - i,
    {
        if s[i] == '\n' {
            let ghost rest = s@.skip(start as int);
            proof {
                lemma_line_break(rest, i - start);
                assert(rest.take(i - start) =~= s@.subrange(start as int, i as int));
                assert(rest.skip(i - start + 1) =~= s@.skip(i + 1));
            }
            let mut line = sub_chars(s, start, i);
            if line.len() > 0 && line[line.len() - 1] == '\r' {
                line.pop();
            }
            let ghost before = out@;
            out.push(line);
            assert(views_of(out@) =~= views_of(before) + seq![line@]);
            start = i + 1;
        }
        i = i + 1;
    }
    if start < n {
        let ghost rest = s@.skip(start as int);
        proof {
            lemma_line_break(rest, rest.len() as int);
            assert(rest =~= s@.subrange(start as int, n as int));
        }
        let line = sub_chars(s, start, n);
        let ghost before = out@;
        out.push(line);
        assert(views_of(out@) =~= views_of(before) + seq![line@]);
        assert(lines(s@.skip(start as int)) =~= seq![line@]);
    } else {
        assert(s@.skip(start as int) =~= Seq::<char>::empty());
    }
    assert(lines(s@) =~= views_of(out@));
    out
}

/// The index of the first `c` in `s`, if any.
pub open spec fn first_index_of(s: Seq<char>, c: char) -> Option<nat>
    decreases s.len(),
{
    if s.len() == 0 {
        None
    } else if s[0] == c {
        Some(0)
    } else {
        match first_index_of(s.drop_first(), c) {
            Some(k) => Some(k + 1),
            None => None,
        }
    }
}

pub proof fn lemma_first_index_of(s: Seq<char>, c: char, k: int)
    requires
        0 <= k <= s.len(),
        forall|j: int| 0 <= j < k ==> s[j] != c,
    ensures
        k < s.len() && s[k] == c ==> first_index_of(s, c) == Some(k as nat),
        k == s.len() ==> first_index_of(s, c) is None,
    decreases k,
{
    if k > 0 {
        lemma_first_index_of(s.drop_first(), c, k - 1);
    }
}

/// The first `c` of `s` is at `k` when `s[k]` is `c` and none comes before.
pub proof fn lemma_first_index_is(s: Seq<char>, c: char, k: int)
    requires
        0 <= k < s.len(),
        s[k] == c,
        forall|j: int| 0 <= j < k ==> s[j] != c,
    ensures
        first_index_of(s, c) == Some(k as nat),
{
    lemma_first_index_of(s, c, k);
}

pub proof fn lemma_first_index_in_bounds(s: Seq<char>, c: char)
    ensures
        first_index_of(s, c) matches Some(j) ==> j < s.len() && s[j as int] == c,
    decreases s.len(),
{
    if s.len() > 0 {
        lemma_first_index_in_bounds(s.drop_first(), c);
    }
}

/// The position of the first `c` in `s`.
pub fn find_char(s: &[char], c: char) -> (r: Option<usize>)
    ensures
        match first_index_of(s@, c) {
            Some(k) => r == Some(k as usize) && k < s@.len(),
            None => r is None,
        },
        r matches Some(k) ==> first_index_of(s@, c) == Some(k as nat),
{
    let mut i: usize = 0;
    while i < s.len()
        invariant
            i <= s@.len(),
            forall|j: int| 0 <= j < i ==> s@[j] != c,
        decreases s@.len() - i,
    {
        if s[i] == c {
            proof {
                lemma_first_index_of(s@, c, i as int);
                lemma_first_index_in_bounds(s@, c);
            }
            return Some(i);
        }
        i = i + 1;
    }
    proof {
        lemma_first_index_of(s@, c, i as int);
    }
    None
}

/// `str::split_once(c)`: the text before and after the first `c`.
pub open spec fn split_once(s: Seq<char>, c: char) -> Option<(Seq<char>, Seq<char>)> {
    match first_index_of(s, c) {
        Some(k) => Some((s.take(k as int), s.skip(k as int + 1))),
        None => None,
    }
}

/// `split_once` cuts at the first `c`: the two parts with `c` between them
/// give back `s`, and the first part holds no `c`. It finds nothing exactly
/// when `s` holds no `c`.
pub proof fn lemma_split_once_at_first(s: Seq<char>, c: char)
    ensures
        split_once(s, c) matches Some((a, b)) ==> a + seq![c] + b == s && forall|j: int|
            0 <= j < a.len() ==> #[trigger] a[j] != c,
        split_once(s, c) is None <==> forall|j: int| 0 <= j < s.len() ==> #[trigger] s[j] != c,
{
    lemma_first_index_none_before(s, c);
    lemma_first_index_in_bounds(s, c);
    if let Some(i) = first_index_of(s, c) {
        assert(s.take(i as int) + seq![c] + s.skip(i as int + 1) =~= s);
        assert(s[i as int] == c);
    }
}

/// The character of a digit below ten.
pub open spec fn digit_char(d: nat) -> char {
    if d == 0 {
        '0'
    } else if d == 1 {
        '1'
    } else if d == 2 {
        '2'
    } else if d == 3 {
        '3'
    } else if d == 4 {
        '4'
    } else if d == 5 {
        '5'
    } else if d == 6 {
        '6'
    } else if d == 7 {
        '7'
    } else if d == 8 {
        '8'
    } else {
        '9'
    }
}

fn digit_of(d: u64) -> (c: char)
    requires
        d < 10,
    ensures
        c == digit_char(d as nat),
{
    if d == 0 {
        '0'
    } else if d == 1 {
        '1'
    } else if d == 2 {
        '2'
    } else if d == 3 {
        '3'
    } else if d == 4 {
        '4'
    } else if d == 5 {
        '5'
    } else if d == 6 {
        '6'
    } else if d == 7 {
        '7'
    } else if d == 8 {
        '8'
    } else {
        '9'
    }
}

/// The decimal digits of `n`, as `format!("{n}")` writes them.
pub open spec fn decimal(n: nat) -> Seq<char>
    decreases n,
{
    if n < 10 {
        seq![digit_char(n)]
    } else {
        decimal(n / 10).push(digit_char(n % 10))
    }
}

/// The octal digits of `n`, as `format!("{n:o}")` writes them.
pub open spec fn octal(n: nat) -> Seq<char>
    decreases n,
{
    if n < 8 {
        seq![digit_char(n)]
    } else {
        octal(n / 8).push(digit_char(n % 8))
    }
}

/// The number that the digits of `s` write in base `base`, each digit
/// counted by its distance from `'0'`.
pub open spec fn numeral_value(s: Seq<char>, base: nat) -> int
    decreases s.len(),
{
    if s.len() == 0 {
        0
    } else {
        numeral_value(s.drop_last(), base) * base + ((s.last() as int) - ('0' as int))
    }
}

proof fn lemma_digit_char_value(d: nat)
    requires
        d < 10,
    ensures
        (digit_char(d) as int) - ('0' as int) == d,
{
}

/// `decimal(n)` writes `n`: decimal digits only, no leading zero, and
/// read back in base ten they give `n`.
pub proof fn lemma_decimal_writes_n(n: nat)
    ensures
        decimal(n).len() >= 1,
        forall|i: int| 0 <= i < decimal(n).len() ==> '0' <= #[trigger] decimal(n)[i] <= '9',
        decimal(n)[0] == '0' ==> n == 0,
        numeral_value(decimal(n), 10) == n,
    decreases n,
{
    if n < 10 {
        lemma_digit_char_value(n);
        assert(decimal(n).drop_last() =~= Seq::<char>::empty());
        assert(numeral_value(Seq::<char>::empty(), 10) == 0);
    } else {
        lemma_decimal_writes_n(n / 10);
        lemma_digit_char_value(n % 10);
        let d = decimal(n);
        assert(d.drop_last() =~= decimal(n / 10));
        assert(numeral_value(d, 10) == numeral_value(decimal(n / 10), 10) * 10 + ((n % 10) as int));
        assert((n / 10) * 10 + n % 10 == n);
        assert forall|i: int| 0 <= i < d.len() implies '0' <= #[trigger] d[i] <= '9' by {
            if i < d.len() - 1 {
                assert(d[i] == decimal(n / 10)[i]);
            }
        }
    }
}

/// `octal(n)` writes `n`: octal digits only, no leading zero, and read
/// back in base eight they give `n`.
pub proof fn lemma_octal_writes_n(n: nat)
    ensures
        octal(n).len() >= 1,
        forall|i: int| 0 <= i < octal(n).len() ==> '0' <= #[trigger] octal(n)[i] <= '7',
        octal(n)[0] == '0' ==> n == 0,
        numeral_value(octal(n), 8) == n,
    decreases n,
{
    if n < 8 {
        lemma_digit_char_value(n);
        assert(octal(n).drop_last() =~= Seq::<char>::empty());
        assert(numeral_value(Seq::<char>::empty(), 8) == 0);
    } else {
        lemma_octal_writes_n(n / 8);
        lemma_digit_char_value(n % 8);
        let d = octal(n);
        assert(d.drop_last() =~= octal(n / 8));
        assert(numeral_value(d, 8) == numeral_value(octal(n / 8), 8) * 8 + ((n % 8) as int));
        assert((n / 8) * 8 + n % 8 == n);
        assert forall|i: int| 0 <= i < d.len() implies '0' <= #[trigger] d[i] <= '7' by {
            if i < d.len() - 1 {
                assert(d[i] == octal(n / 8)[i]);
            }
        }
    }
}

/// Appends the decimal digits of `n`.
pub fn push_decimal(s: &mut String, n: u64)
    ensures
        final(s)@ == old(s)@ + decimal(n as nat),
    decreases n,
{
    if n >= 10 {
        push_decimal(s, n / 10);
    }
    push_char(s, digit_of(n % 10));
    assert(final(s)@ =~= old(s)@ + decimal(n as nat)) by {
        if n >= 10 {
            assert((old(s)@ + decimal((n / 10) as nat)).push(digit_char((n % 10) as nat))
                =~= old(s)@ + decimal((n / 10) as nat).push(digit_char((n % 10) as nat)));
        }
    }
}

/// Appends the octal digits of `n`.
pub fn push_octal(s: &mut String, n: u64)
    ensures
        final(s)@ == old(s)@ + octal(n as nat),
    decreases n,
{
    if n >= 8 {
        push_octal(s, n / 8);
    }
    push_char(s, digit_of(n % 8));
    assert(final(s)@ =~= old(s)@ + octal(n as nat)) by {
        if n >= 8 {
            assert((old(s)@ + octal((n / 8) as nat)).push(digit_char((n % 8) as nat))
                =~= old(s)@ + octal((n / 8) as nat).push(digit_char((n % 8) as nat)));
        }
    }
}


/// `char::to_ascii_lowercase`.
pub open spec fn ascii_lower_char(c: char) -> char {
    if 'A' <= c && c <= 'Z' {
        ((c as u32) + 32) as char
    } else {
        c
    }
}

/// `str::to_ascii_lowercase`, character by character.
pub open spec fn ascii_lowercase(s: Seq<char>) -> Seq<char> {
    s.map_values(|c: char| ascii_lower_char(c))
}

/// Lower-casing changes only the ASCII capitals `A`..`Z`, each into the
/// letter 32 code points above it (`a`..`z`), and keeps the length.
pub proof fn lemma_ascii_lowercase_changes_only_capitals(s: Seq<char>)
    ensures
        ascii_lowercase(s).len() == s.len(),
        forall|i: int|
            0 <= i < s.len() ==> if 'A' <= s[i] && s[i] <= 'Z' {
                (#[trigger] ascii_lowercase(s)[i]) as u32 == (s[i] as u32) + 32 && 'a'
                    <= ascii_lowercase(s)[i] && ascii_lowercase(s)[i] <= 'z'
            } else {
                ascii_lowercase(s)[i] == s[i]
            },
{
}

pub fn ascii_lower_of(c: char) -> (r: char)
    ensures
        r == ascii_lower_char(c),
{
    if 'A' <= c && c <= 'Z' {
        ((c as u8) + 32) as char
    } else {
        c
    }
}

/// The characters of `s` with ASCII capitals made small.
pub fn ascii_lowercase_chars(s: &[char]) -> (v: Vec<char>)
    ensures
        v@ == ascii_lowercase(s@),
{
    let mut v: Vec<char> = Vec::new();
    let mut i: usize = 0;
    while i < s.len()
        invariant
            i <= s@.len(),
            v@ == ascii_lowercase(s@.take(i as int)),
        decreases s@.len() - i,
    {
        v.push(ascii_lower_of(s[i]));
        assert(ascii_lowercase(s@.take(i + 1)) =~= ascii_lowercase(s@.take(i as int)).push(
            ascii_lower_char(s@[i as int]),
        ));
        i = i + 1;
    }
    assert(s@.take(s@.len() as int) =~= s@);
    v
}

/// Whether two character sequences are equal.
pub fn chars_equal(a: &[char], b: &[char]) -> (r: bool)
    ensures
        r == (a@ == b@),
{
    if a.len() != b.len() {
        return false;
    }
    let mut i: usize = 0;
    while i < a.len()
        invariant
            i <= a@.len() == b@.len(),
            forall|j: int| 0 <= j < i ==> a@[j] == b@[j],
        decreases a@.len() - i,
    {
        if a[i] != b[i] {
            return false;
        }
        i = i + 1;
    }
    assert(a@ =~= b@);
    true
}

/// Whether `s` begins with `prefix`.
pub open spec fn has_prefix(s: Seq<char>, prefix: Seq<char>) -> bool {
    prefix.len() <= s.len() && s.take(prefix.len() as int) == prefix
}

pub fn starts_with_chars(s: &[char], prefix: &[char]) -> (r: bool)
    ensures
        r == has_prefix(s@, prefix@),
{
    if prefix.len() > s.len() {
        return false;
    }
    let mut i: usize = 0;
    while i < prefix.len()
        invariant
            i <= prefix@.len() <= s@.len(),
            forall|j: int| 0 <= j < i ==> s@[j] == prefix@[j],
        decreases prefix@.len() - i,
    {
        if s[i] != prefix[i] {
            assert(s@.take(prefix@.len() as int)[i as int] != prefix@[i as int]);
            return false;
        }
        i = i + 1;
    }
    assert(s@.take(prefix@.len() as int) =~= prefix@);
    true
}


/// Lexicographic order by code point, the order of `str`'s `Ord` (UTF-8
/// preserves the order of code points byte by byte).
pub open spec fn seq_lt(a: Seq<char>, b: Seq<char>) -> bool
    decreases a.len(),
{
    if a.len() == 0 {
        b.len() > 0
    } else if b.len() == 0 {
        false
    } else if a[0] != b[0] {
        a[0] < b[0]
    } else {
        seq_lt(a.drop_first(), b.drop_first())
    }
}

pub proof fn lemma_seq_lt_irreflexive(a: Seq<char>)
    ensures
        !seq_lt(a, a),
    decreases a.len(),
{
    if a.len() > 0 {
        lemma_seq_lt_irreflexive(a.drop_first());
    }
}

pub proof fn lemma_seq_lt_transitive(a: Seq<char>, b: Seq<char>, c: Seq<char>)
    requires
        seq_lt(a, b),
        seq_lt(b, c),
    ensures
        seq_lt(a, c),
    decreases a.len(),
{
    if a.len() > 0 && b.len() > 0 && c.len() > 0 {
        if a[0] == b[0] && b[0] == c[0] {
            lemma_seq_lt_transitive(a.drop_first(), b.drop_first(), c.drop_first());
        }
    }
}

pub proof fn lemma_seq_lt_total(a: Seq<char>, b: Seq<char>)
    ensures
        seq_lt(a, b) || seq_lt(b, a) || a == b,
    decreases a.len(),
{
    if a.len() > 0 && b.len() > 0 {
        if a[0] == b[0] {
            lemma_seq_lt_total(a.drop_first(), b.drop_first());
            if a.drop_first() == b.drop_first() {
                assert(a =~= seq![a[0]] + a.drop_first());
                assert(b =~= seq![b[0]] + b.drop_first());
            }
        }
    } else if a.len() == 0 && b.len() == 0 {
        assert(a =~= b);
    }
}

/// Whether `a` comes before `b`.
pub fn chars_less(a: &[char], b: &[char]) -> (r: bool)
    ensures
        r == seq_lt(a@, b@),
{
    let mut i: usize = 0;
    assert(a@.skip(0) =~= a@ && b@.skip(0) =~= b@);
    while i < a.len() && i < b.len() && a[i] == b[i]
        invariant
            i <= a@.len(),
            i <= b@.len(),
            seq_lt(a@, b@) == seq_lt(a@.skip(i as int), b@.skip(i as int)),
        decreases a@.len() - i,
    {
        assert(a@.skip(i as int).drop_first() =~= a@.skip(i + 1));
        assert(b@.skip(i as int).drop_first() =~= b@.skip(i + 1));
        i = i + 1;
    }
    if i == a.len() {
        i < b.len()
    } else if i == b.len() {
        false
    } else {
        a[i] < b[i]
    }
}

/// `str::split(c)`: the pieces of `s` between the occurrences of `c`; there
/// is always at least one piece.
pub open spec fn split_on(s: Seq<char>, c: char) -> Seq<Seq<char>>
    decreases s.len(),
{
    match first_index_of(s, c) {
        Some(i) => {
            proof {
                lemma_first_index_in_bounds(s, c);
            }
            seq![s.take(i as int)] + split_on(s.skip(i as int + 1), c)
        },
        None => seq![s],
    }
}

/// The pieces joined back into one text, with `c` between each two.
pub open spec fn join_with(pieces: Seq<Seq<char>>, c: char) -> Seq<char>
    decreases pieces.len(),
{
    if pieces.len() == 0 {
        seq![]
    } else if pieces.len() == 1 {
        pieces[0]
    } else {
        pieces[0] + seq![c] + join_with(pieces.drop_first(), c)
    }
}

/// The first `c` of `s` has no `c` before it, and a text without `c` has
/// no first `c`.
proof fn lemma_first_index_none_before(s: Seq<char>, c: char)
    ensures
        first_index_of(s, c) matches Some(i) ==> forall|j: int| 0 <= j < i ==> s[j] != c,
        first_index_of(s, c) is None ==> forall|j: int| 0 <= j < s.len() ==> s[j] != c,
    decreases s.len(),
{
    if s.len() > 0 && s[0] != c {
        let t = s.drop_first();
        lemma_first_index_none_before(t, c);
        lemma_first_index_in_bounds(t, c);
        match first_index_of(t, c) {
            Some(k) => {
                assert forall|j: int| 0 <= j < k + 1 implies s[j] != c by {
                    if j > 0 {
                        assert(s[j] == t[j - 1]);
                    }
                }
            },
            None => {
                assert forall|j: int| 0 <= j < s.len() implies s[j] != c by {
                    if j > 0 {
                        assert(s[j] == t[j - 1]);
                    }
                }
            },
        }
    }
}

/// Splitting at `c` loses nothing and cuts at every `c`: no piece holds a
/// `c`, and the pieces joined with `c` give back the text. So there is one
/// piece more than there are `c`s in the text.
pub proof fn lemma_split_on_joins_back(s: Seq<char>, c: char)
    ensures
        split_on(s, c).len() >= 1,
        forall|k: int, j: int|
            0 <= k < split_on(s, c).len() && 0 <= j < split_on(s, c)[k].len() ==> #[trigger] split_on(
                s,
                c,
            )[k][j] != c,
        join_with(split_on(s, c), c) == s,
    decreases s.len(),
{
    lemma_first_index_none_before(s, c);
    lemma_first_index_in_bounds(s, c);
    match first_index_of(s, c) {
        Some(i) => {
            let rest = s.skip(i as int + 1);
            lemma_split_on_joins_back(rest, c);
            let pieces = split_on(s, c);
            assert(pieces == seq![s.take(i as int)] + split_on(rest, c));
            assert(pieces.drop_first() =~= split_on(rest, c));
            assert forall|k: int, j: int|
                0 <= k < pieces.len() && 0 <= j < pieces[k].len() implies #[trigger] pieces[k][j]
                != c by {
                if k > 0 {
                    assert(pieces[k] == split_on(rest, c)[k - 1]);
                }
            }
            assert(s.take(i as int) + seq![c] + rest =~= s);
        },
        None => {},
    }
}

/// The views of a vector of strings.
pub open spec fn string_views(v: Seq<String>) -> Seq<Seq<char>> {
    v.map_values(|s: String| s@)
}

/// The pieces of `s` between the occurrences of `c`, as `str::split` gives
/// them.
pub fn split_chars(s: &[char], c: char) -> (out: Vec<String>)
    ensures
        string_views(out@) == split_on(s@, c),
{
    let n = s.len();
    let mut out: Vec<String> = Vec::new();
    let mut start: usize = 0;
    let mut i: usize = 0;
    assert(s@.skip(0) =~= s@);
    assert(string_views(out@) + split_on(s@, c) =~= split_on(s@, c));
    while i < n
        invariant
            start <= i <= n == s@.len(),
            split_on(s@, c) == string_views(out@) + split_on(s@.skip(start as int), c),
            forall|j: int| start <= j < i ==> s@[j] != c,
        decreases n - i,
    {
        if s[i] == c {
            let ghost rest = s@.skip(start as int);
            proof {
                lemma_first_index_of(rest, c, i - start);
                assert(rest.take(i - start) =~= s@.subrange(start as int, i as int));
                assert(rest.skip(i - start + 1) =~= s@.skip(i + 1));
            }
            let piece = sub_chars(s, start, i);
            let ghost before = out@;
            out.push(string_of(&piece));
            assert(string_views(out@) =~= string_views(before) + seq![piece@]);
            start = i + 1;
        }
        i = i + 1;
    }
    let ghost rest = s@.skip(start as int);
    proof {
        lemma_first_index_of(rest, c, rest.len() as int);
        assert(rest =~= s@.subrange(start as int, n as int));
    }
    let piece = sub_chars(s, start, n);
    let ghost before = out@;
    out.push(string_of(&piece));
    assert(string_views(out@) =~= string_views(before) + seq![piece@]);
    assert(split_on(s@, c) =~= string_views(out@));
    out
}

} // verus!
