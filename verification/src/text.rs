//! Character-level helpers: conversions between `String` and `Vec<char>`,
//! Unicode whitespace, trimming, line splitting and terminal column widths.

use vstd::prelude::*;

verus! {

// ---------------------------------------------------------------------------
// Conversions
// ---------------------------------------------------------------------------

/// Calls `str::chars` and collects the characters.
/// The claim: the vector holds exactly the characters of `s`, in order.
#[verifier::external_body]
pub(crate) fn chars_of(s: &str) -> (r: Vec<char>)
    ensures
        r@ == s@,
{
    s.chars().collect()
}

/// Collects characters into a `String` (`FromIterator<&char> for String`).
/// The claim: the string holds exactly the given characters, in order.
#[verifier::external_body]
pub(crate) fn string_from_chars(v: &[char]) -> (r: String)
    ensures
        r@ == v@,
{
    v.iter().collect()
}

/// The characters of each string of a sequence.
pub open spec fn strings_view(v: Seq<String>) -> Seq<Seq<char>> {
    v.map_values(|s: String| s@)
}

/// The characters of each vector of a sequence.
pub open spec fn lines_view(v: Seq<Vec<char>>) -> Seq<Seq<char>> {
    v.map_values(|x: Vec<char>| x@)
}

/// Turns a list of character vectors into a list of strings.
pub fn strings_from_lines(lines: &Vec<Vec<char>>) -> (r: Vec<String>)
    ensures
        strings_view(r@) == lines_view(lines@),
{
    let mut out: Vec<String> = Vec::new();
    let mut i: usize = 0;
    while i < lines.len()
        invariant
            i <= lines.len(),
            out@.len() == i,
            forall|k: int| 0 <= k < i ==> #[trigger] out@[k]@ == lines@[k]@,
        decreases lines.len() - i,
    {
        let s = string_from_chars(lines[i].as_slice());
        out.push(s);
        i = i + 1;
    }
    assert(strings_view(out@) =~= lines_view(lines@));
    out
}

/// Appends the characters of `s` to `v`.
pub fn push_all(v: &mut Vec<char>, s: &[char])
    ensures
        final(v)@ == old(v)@ + s@,
{
    let mut i: usize = 0;
    while i < s.len()
        invariant
            i <= s.len(),
            v@ == old(v)@ + s@.take(i as int),
        decreases s.len() - i,
    {
        v.push(s[i]);
        i = i + 1;
        assert(s@.take(i as int) =~= s@.take((i - 1) as int).push(s@[i - 1]));
    }
    assert(s@.take(s.len() as int) =~= s@);
}

// ---------------------------------------------------------------------------
// Column widths
// ---------------------------------------------------------------------------

/// Displayed column width of a character as the `unicode-width` crate reports it
/// (`None` for control characters).
pub uninterp spec fn spec_char_width(c: char) -> Option<usize>;

/// Column width of one character, with control characters counted as zero
/// columns (the `unwrap_or(0)` convention used throughout the layout code).
pub open spec fn col_width(c: char) -> nat {
    match spec_char_width(c) {
        Some(w) => w as nat,
        None => 0,
    }
}

/// Sum of the column widths of the characters of `s`.
pub open spec fn seq_width(s: Seq<char>) -> nat
    decreases s.len(),
{
    if s.len() == 0 {
        0
    } else {
        seq_width(s.drop_last()) + col_width(s.last())
    }
}

/// Calls `UnicodeWidthChar::width` from `unicode-width`.
/// The claim: the result is the named function of the character; control
/// characters (below U+0020 and U+007F..U+009F) give `None`, printable ASCII
/// gives one column, and no character is wider than three columns (the widest
/// entry of the crate's tables).
#[verifier::external_body]
pub(crate) fn char_width(c: char) -> (r: Option<usize>)
    ensures
        r == spec_char_width(c),
        r is None <==> ((c as u32) < 0x20 || (0x7f <= (c as u32) && (c as u32) < 0xa0)),
        (0x20 <= (c as u32) && (c as u32) < 0x7f) ==> r == Some(1usize),
        r matches Some(w) ==> w <= 3,
{
    unicode_width::UnicodeWidthChar::width(c)
}

/// Column width of a character, control characters counting zero.
pub fn col_width_of(c: char) -> (r: usize)
    ensures
        r == col_width(c),
        r <= 3,
{
    match char_width(c) {
        Some(w) => w,
        None => 0,
    }
}

/// Displayed width of a whole string as the `unicode-width` crate reports it.
/// This is not in general the sum of the character widths: the crate treats
/// some character sequences (emoji presentation, `\r\n`, ...) as a unit.
pub uninterp spec fn spec_str_width(s: Seq<char>) -> usize;

/// Calls `UnicodeWidthStr::width` from `unicode-width`.
/// The claim: the result is the named function of the characters of the
/// string, and a string of printable ASCII characters (U+0020..U+007E) is as
/// wide as it is long (each such character counts one column and starts no
/// special sequence).
#[verifier::external_body]
pub(crate) fn str_width(s: &str) -> (r: usize)
    ensures
        r == spec_str_width(s@),
        (forall|i: int| 0 <= i < s@.len() ==> 0x20 <= #[trigger] (s@[i] as u32) && (s@[i] as u32) < 0x7f)
            ==> r == s@.len(),
{
    unicode_width::UnicodeWidthStr::width(s)
}

// ---------------------------------------------------------------------------
// Whitespace and trimming
// ---------------------------------------------------------------------------

/// Unicode `White_Space` property, which is what `char::is_whitespace` tests.
pub open spec fn is_ws(c: char) -> bool {
    let u = c as u32;
    ||| (0x09 <= u && u <= 0x0d)
    ||| u == 0x20
    ||| u == 0x85
    ||| u == 0xa0
    ||| u == 0x1680
    ||| (0x2000 <= u && u <= 0x200a)
    ||| u == 0x2028
    ||| u == 0x2029
    ||| u == 0x202f
    ||| u == 0x205f
    ||| u == 0x3000
}

/// Whether a character is Unicode whitespace.
pub fn is_whitespace(c: char) -> (b: bool)
    ensures
        b == is_ws(c),
{
    let u = c as u32;
    (0x09 <= u && u <= 0x0d) || u == 0x20 || u == 0x85 || u == 0xa0 || u == 0x1680 || (0x2000
        <= u && u <= 0x200a) || u == 0x2028 || u == 0x2029 || u == 0x202f || u == 0x205f || u
        == 0x3000
}

/// `s` without its leading whitespace.
pub open spec fn trim_start(s: Seq<char>) -> Seq<char>
    decreases s.len(),
{
    if s.len() > 0 && is_ws(s[0]) {
        trim_start(s.drop_first())
    } else {
        s
    }
}

/// `s` without its trailing whitespace.
pub open spec fn trim_end(s: Seq<char>) -> Seq<char>
    decreases s.len(),
{
    if s.len() > 0 && is_ws(s.last()) {
        trim_end(s.drop_last())
    } else {
        s
    }
}

/// `s` without leading and trailing whitespace (`str::trim`).
pub open spec fn trim(s: Seq<char>) -> Seq<char> {
    trim_end(trim_start(s))
}

/// Bounds `(lo, hi)` such that `s[lo..hi]` is `s` trimmed of whitespace.
pub fn trim_bounds(s: &[char]) -> (r: (usize, usize))
    ensures
        r.0 <= r.1 <= s@.len(),
        s@.subrange(r.0 as int, r.1 as int) == trim(s@),
        r.0 == r.1 <==> trim(s@).len() == 0,
{
    let mut lo: usize = 0;
    assert(s@.skip(0) =~= s@);
    while lo < s.len() && is_whitespace(s[lo])
        invariant
            lo <= s.len(),
            trim_start(s@) == trim_start(s@.skip(lo as int)),
        decreases s.len() - lo,
    {
        assert(s@.skip(lo as int).drop_first() =~= s@.skip(lo + 1));
        lo = lo + 1;
    }
    assert(trim_start(s@) == s@.skip(lo as int));
    let mut hi: usize = s.len();
    assert(s@.skip(lo as int) =~= s@.subrange(lo as int, hi as int));
    while hi > lo && is_whitespace(s[hi - 1])
        invariant
            lo <= hi <= s.len(),
            trim(s@) == trim_end(s@.subrange(lo as int, hi as int)),
        decreases hi,
    {
        assert(s@.subrange(lo as int, hi as int).drop_last() =~= s@.subrange(
            lo as int,
            hi - 1,
        ));
        hi = hi - 1;
    }
    proof {
        if lo < hi {
            assert(!is_ws(s@[lo as int]));
        }
    }
    (lo, hi)
}

/// `s` trimmed of surrounding whitespace.
pub fn trimmed(s: &[char]) -> (r: Vec<char>)
    ensures
        r@ == trim(s@),
{
    let (lo, hi) = trim_bounds(s);
    slice_range(s, lo, hi)
}

/// A copy of `s[lo..hi]`.
pub fn slice_range(s: &[char], lo: usize, hi: usize) -> (r: Vec<char>)
    requires
        lo <= hi <= s@.len(),
    ensures
        r@ == s@.subrange(lo as int, hi as int),
{
    let mut out: Vec<char> = Vec::new();
    let mut i = lo;
    while i < hi
        invariant
            lo <= i <= hi,
            hi <= s@.len(),
            out@ == s@.subrange(lo as int, i as int),
        decreases hi - i,
    {
        out.push(s[i]);
        i = i + 1;
        assert(out@ =~= s@.subrange(lo as int, i as int));
    }
    out
}

// ---------------------------------------------------------------------------
// Splitting at newlines
// ---------------------------------------------------------------------------

/// Scanning state of [`split_newlines`]: the finished lines and the line in progress.
pub open spec fn split_state(s: Seq<char>) -> (Seq<Seq<char>>, Seq<char>)
    decreases s.len(),
{
    if s.len() == 0 {
        (seq![], seq![])
    } else {
        let (done, cur) = split_state(s.drop_last());
        if s.last() == '\n' {
            (done.push(cur), seq![])
        } else {
            (done, cur.push(s.last()))
        }
    }
}

/// The lines of `s`, split at `'\n'`; a final newline does not start an
/// empty line and the empty text has no lines (as `str::lines`, except that a
/// `'\r'` before the newline is kept: every caller trims lines afterwards).
pub open spec fn split_newlines(s: Seq<char>) -> Seq<Seq<char>> {
    let (done, cur) = split_state(s);
    if cur.len() > 0 {
        done.push(cur)
    } else {
        done
    }
}

/// Splits `s` into lines at `'\n'`.
pub fn split_lines(s: &[char]) -> (r: Vec<Vec<char>>)
    ensures
        lines_view(r@) == split_newlines(s@),
{
    let mut done: Vec<Vec<char>> = Vec::new();
    let mut cur: Vec<char> = Vec::new();
    let mut i: usize = 0;
    while i < s.len()
        invariant
            i <= s.len(),
            (lines_view(done@), cur@) == split_state(s@.take(i as int)),
        decreases s.len() - i,
    {
        assert(s@.take(i + 1).drop_last() =~= s@.take(i as int));
        let c = s[i];
        if c == '\n' {
            let finished = cur;
            cur = Vec::new();
            done.push(finished);
            assert(lines_view(done@) =~= split_state(s@.take(i as int)).0.push(finished@));
        } else {
            cur.push(c);
        }
        i = i + 1;
    }
    assert(s@.take(s.len() as int) =~= s@);
    if cur.len() > 0 {
        let last = cur;
        done.push(last);
        assert(lines_view(done@) =~= split_state(s@).0.push(last@));
    }
    done
}

} // verus!

verus! {

/// Calls `String::push`. The claim: the character is appended.
#[verifier::external_body]
pub(crate) fn string_push(s: &mut String, c: char)
    ensures
        final(s)@ == old(s)@.push(c),
{
    s.push(c);
}

/// Calls `String::push_str`. The claim: the characters of `t` are appended.
#[verifier::external_body]
pub(crate) fn string_push_str(s: &mut String, t: &str)
    ensures
        final(s)@ == old(s)@ + t@,
{
    s.push_str(t);
}

/// The decimal digit `d` as a character.
pub open spec fn digit_char(d: nat) -> char {
    if d == 0 {
        '0'
    } else if d == 1 {
        '1'
    } else if d == 2 {
        '2'
    } else if d == 3 {
        '3'
    } else if d == 4 {
        '4'
    } else if d == 5 {
        '5'
    } else if d == 6 {
        '6'
    } else if d == 7 {
        '7'
    } else if d == 8 {
        '8'
    } else {
        '9'
    }
}

/// The decimal notation of `n`, without leading zeros.
pub open spec fn decimal(n: nat) -> Seq<char>
    decreases n,
{
    if n < 10 {
        seq![digit_char(n)]
    } else {
        decimal(n / 10).push(digit_char(n % 10))
    }
}

fn digit_of(d: u128) -> (r: char)
    requires
        d < 10,
    ensures
        r == digit_char(d as nat),
{
    if d == 0 {
        '0'
    } else if d == 1 {
        '1'
    } else if d == 2 {
        '2'
    } else if d == 3 {
        '3'
    } else if d == 4 {
        '4'
    } else if d == 5 {
        '5'
    } else if d == 6 {
        '6'
    } else if d == 7 {
        '7'
    } else if d == 8 {
        '8'
    } else {
        '9'
    }
}

/// Appends the decimal notation of `n`.
pub fn push_decimal(s: &mut String, n: u128)
    ensures
        final(s)@ == old(s)@ + decimal(n as nat),
    decreases n,
{
    if n >= 10 {
        push_decimal(s, n / 10);
    }
    string_push(s, digit_of(n % 10));
    assert(s@ =~= old(s)@ + decimal(n as nat));
}

/// A string of `n` copies of `c`.
pub open spec fn repeat_char(c: char, n: nat) -> Seq<char> {
    Seq::new(n, |i: int| c)
}

/// Appends `n` copies of `c` to `s`.
pub fn push_repeated(s: &mut String, c: char, n: usize)
    ensures
        final(s)@ == old(s)@ + repeat_char(c, n as nat),
{
    let mut i: usize = 0;
    while i < n
        invariant
            i <= n,
            s@ == old(s)@ + repeat_char(c, i as nat),
        decreases n - i,
    {
        string_push(s, c);
        i = i + 1;
        assert(s@ =~= old(s)@ + repeat_char(c, i as nat));
    }
}

} // verus!

verus! {

/// Whether two character sequences are equal.
pub fn chars_eq(a: &[char], b: &[char]) -> (r: bool)
    ensures
        r == (a@ == b@),
{
    if a.len() != b.len() {
        return false;
    }
    let mut i: usize = 0;
    while i < a.len()
        invariant
            i <= a.len(),
            a@.len() == b@.len(),
            forall|k: int| 0 <= k < i ==> a@[k] == b@[k],
        decreases a.len() - i,
    {
        if a[i] != b[i] {
            return false;
        }
        i = i + 1;
    }
    assert(a@ =~= b@);
    true
}

/// Whether `s` starts with `prefix`.
pub fn starts_with(s: &[char], prefix: &[char]) -> (r: bool)
    ensures
        r == (s@.len() >= prefix@.len() && s@.take(prefix@.len() as int) == prefix@),
{
    if s.len() < prefix.len() {
        return false;
    }
    let head = slice_range(s, 0, prefix.len());
    assert(head@ == s@.take(prefix@.len() as int));
    chars_eq(head.as_slice(), prefix)
}

/// ASCII whitespace, as `char::is_ascii_whitespace` defines it.
pub open spec fn is_ascii_ws(c: char) -> bool {
    c == ' ' || c == '\t' || c == '\n' || c == '\x0C' || c == '\r'
}

/// Whether `c` separates tokens: ASCII whitespace when `ascii`, Unicode
/// whitespace otherwise.
pub open spec fn is_sep(c: char, ascii: bool) -> bool {
    if ascii {
        is_ascii_ws(c)
    } else {
        is_ws(c)
    }
}

/// Scanning state of [`tokens`]: finished tokens and the token in progress.
pub open spec fn token_state(s: Seq<char>, ascii: bool) -> (Seq<Seq<char>>, Seq<char>)
    decreases s.len(),
{
    if s.len() == 0 {
        (seq![], seq![])
    } else {
        let (done, cur) = token_state(s.drop_last(), ascii);
        if is_sep(s.last(), ascii) {
            if cur.len() > 0 {
                (done.push(cur), seq![])
            } else {
                (done, cur)
            }
        } else {
            (done, cur.push(s.last()))
        }
    }
}

/// The whitespace-separated tokens of `s` (`split_ascii_whitespace` when
/// `ascii`, `split_whitespace` otherwise).
pub open spec fn tokens(s: Seq<char>, ascii: bool) -> Seq<Seq<char>> {
    let (done, cur) = token_state(s, ascii);
    if cur.len() > 0 {
        done.push(cur)
    } else {
        done
    }
}

/// Whether `s` has the whitespace-separated token `t`.
pub fn has_token(s: &[char], t: &[char], ascii: bool) -> (r: bool)
    ensures
        r == tokens(s@, ascii).contains(t@),
{
    let mut done: Vec<Vec<char>> = Vec::new();
    let mut cur: Vec<char> = Vec::new();
    let mut i: usize = 0;
    while i < s.len()
        invariant
            i <= s.len(),
            (lines_view(done@), cur@) == token_state(s@.take(i as int), ascii),
        decreases s.len() - i,
    {
        assert(s@.take(i + 1).drop_last() =~= s@.take(i as int));
        let c = s[i];
        let sep = if ascii {
            c == ' ' || c == '\t' || c == '\n' || c == '\x0C' || c == '\r'
        } else {
            is_whitespace(c)
        };
        if sep {
            if cur.len() > 0 {
                let finished = cur;
                cur = Vec::new();
                let ghost prev = lines_view(done@);
                done.push(finished);
                assert(lines_view(done@) =~= prev.push(finished@));
            }
        } else {
            cur.push(c);
        }
        i = i + 1;
    }
    assert(s@.take(s.len() as int) =~= s@);
    if cur.len() > 0 {
        let last = cur;
        let ghost prev = lines_view(done@);
        done.push(last);
        assert(lines_view(done@) =~= prev.push(last@));
    }
    let ghost toks = lines_view(done@);
    assert(toks == tokens(s@, ascii));
    let mut k: usize = 0;
    while k < done.len()
        invariant
            k <= done.len(),
            toks == lines_view(done@),
            toks == tokens(s@, ascii),
            forall|q: int| 0 <= q < k ==> toks[q] != t@,
        decreases done.len() - k,
    {
        if chars_eq(done[k].as_slice(), t) {
            assert(toks[k as int] == t@);
            return true;
        }
        k = k + 1;
    }
    false
}

} // verus!
