//! Byte-level helpers: whitespace-separated tokens and unsigned decimals.
use vstd::prelude::*;

verus! {

/// ASCII whitespace, as `char::is_whitespace` classifies it.
pub open spec fn is_space(b: u8) -> bool {
    b == 32u8 || (9u8 <= b && b <= 13u8)
}

pub open spec fn is_digit(b: u8) -> bool {
    48u8 <= b && b <= 57u8
}

/// The first index at or after `i` that does not hold whitespace (or the end).
pub open spec fn skip_space_from(l: Seq<u8>, i: int) -> int
    decreases l.len() - i,
{
    if i >= l.len() {
        i
    } else if is_space(l[i]) {
        skip_space_from(l, i + 1)
    } else {
        i
    }
}

/// The first index at or after `i` that holds whitespace (or the end).
pub open spec fn skip_word_from(l: Seq<u8>, i: int) -> int
    decreases l.len() - i,
{
    if i >= l.len() {
        i
    } else if is_space(l[i]) {
        i
    } else {
        skip_word_from(l, i + 1)
    }
}

/// Start of the first token of `l` at or after `i`.
pub open spec fn token_start(l: Seq<u8>, i: int) -> int {
    skip_space_from(l, i)
}

/// End of the first token of `l` at or after `i`.
pub open spec fn token_end(l: Seq<u8>, i: int) -> int {
    skip_word_from(l, skip_space_from(l, i))
}

/// The first whitespace-separated token of `l` at or after `i` (empty if none).
pub open spec fn token_from(l: Seq<u8>, i: int) -> Seq<u8> {
    l.subrange(token_start(l, i), token_end(l, i))
}

pub open spec fn first_token(l: Seq<u8>) -> Seq<u8> {
    token_from(l, 0)
}

pub open spec fn second_token(l: Seq<u8>) -> Seq<u8> {
    token_from(l, token_end(l, 0))
}

/// `l` holds at least two whitespace-separated tokens.
pub open spec fn has_two_tokens(l: Seq<u8>) -> bool {
    token_start(l, token_end(l, 0)) < l.len()
}

/// Value of a string of decimal digits.
pub open spec fn digits_value(s: Seq<u8>) -> nat
    decreases s.len(),
{
    if s.len() == 0 {
        0
    } else {
        digits_value(s.drop_last()) * 10 + (s.last() - 48u8) as nat
    }
}

/// The digits of a number, once an optional leading `+` is set aside.
pub open spec fn unsigned_digits(s: Seq<u8>) -> Seq<u8> {
    if s.len() > 1 && s[0] == 43u8 {
        s.drop_first()
    } else {
        s
    }
}

/// What `u64::from_str` makes of `s`: an optional `+`, then at least one
/// digit, and nothing else, with a value that fits.
pub open spec fn parse_u64(s: Seq<u8>) -> Option<u64> {
    let d = unsigned_digits(s);
    if d.len() > 0 && (forall|i: int| 0 <= i < d.len() ==> is_digit(#[trigger] d[i]))
        && digits_value(d) <= u64::MAX {
        Some(digits_value(d) as u64)
    } else {
        None
    }
}

/// End of the line that starts at `i`: the index of the next newline, or the
/// end of `t`.
pub open spec fn line_end(t: Seq<u8>, i: int) -> int
    decreases t.len() - i,
{
    if i >= t.len() {
        t.len() as int
    } else if t[i] == 10u8 {
        i
    } else {
        line_end(t, i + 1)
    }
}

pub proof fn lemma_line_end_bounds(t: Seq<u8>, i: int)
    requires
        0 <= i <= t.len(),
    ensures
        i <= line_end(t, i) <= t.len(),
    decreases t.len() - i,
{
    if i < t.len() && t[i] != 10u8 {
        lemma_line_end_bounds(t, i + 1);
    }
}

/// The lines of `t` from index `i` on, split at newlines, without the
/// newlines; a newline at the very end opens no further line.
pub open spec fn lines_from(t: Seq<u8>, i: int) -> Seq<Seq<u8>>
    decreases t.len() + 1 - i
    via lines_from_decreases
{
    if i < 0 || i >= t.len() {
        Seq::empty()
    } else {
        seq![t.subrange(i, line_end(t, i))] + lines_from(t, line_end(t, i) + 1)
    }
}

#[via_fn]
proof fn lines_from_decreases(t: Seq<u8>, i: int) {
    if !(i < 0 || i >= t.len()) {
        lemma_line_end_bounds(t, i);
    }
}

/// The lines of a text, as `str::lines` yields them (up to a carriage return
/// before each newline, which counts as whitespace here anyway).
pub open spec fn lines_of(t: Seq<u8>) -> Seq<Seq<u8>> {
    lines_from(t, 0)
}

proof fn lemma_space_bounds(l: Seq<u8>, i: int)
    requires
        0 <= i <= l.len(),
    ensures
        i <= skip_space_from(l, i) <= l.len(),
        i <= skip_word_from(l, i) <= l.len(),
    decreases l.len() - i,
{
    if i < l.len() {
        lemma_space_bounds(l, i + 1);
    }
}

pub proof fn lemma_token_bounds(l: Seq<u8>, i: int)
    requires
        0 <= i <= l.len(),
    ensures
        i <= token_start(l, i) <= token_end(l, i) <= l.len(),
{
    lemma_space_bounds(l, i);
    lemma_space_bounds(l, skip_space_from(l, i));
}

proof fn lemma_digits_prefix_le(d: Seq<u8>, k: int)
    requires
        0 <= k <= d.len(),
    ensures
        digits_value(d.subrange(0, k)) <= digits_value(d),
    decreases d.len(),
{
    if k < d.len() {
        lemma_digits_prefix_le(d.drop_last(), k);
        assert(d.drop_last().subrange(0, k) =~= d.subrange(0, k));
    } else {
        assert(d.subrange(0, k) =~= d);
    }
}

fn is_space_byte(b: u8) -> (r: bool)
    ensures
        r == is_space(b),
{
    b == 32u8 || (9u8 <= b && b <= 13u8)
}

/// Index of the first non-whitespace byte of `l` at or after `i`.
pub fn skip_space(l: &[u8], i: usize) -> (r: usize)
    requires
        i <= l@.len(),
    ensures
        r == skip_space_from(l@, i as int),
{
    let mut j = i;
    while j < l.len() && is_space_byte(l[j])
        invariant
            i <= j <= l@.len(),
            skip_space_from(l@, j as int) == skip_space_from(l@, i as int),
        decreases l@.len() - j,
    {
        j = j + 1;
    }
    j
}

/// Index of the first whitespace byte of `l` at or after `i`.
pub fn skip_word(l: &[u8], i: usize) -> (r: usize)
    requires
        i <= l@.len(),
    ensures
        r == skip_word_from(l@, i as int),
{
    let mut j = i;
    while j < l.len() && !is_space_byte(l[j])
        invariant
            i <= j <= l@.len(),
            skip_word_from(l@, j as int) == skip_word_from(l@, i as int),
        decreases l@.len() - j,
    {
        j = j + 1;
    }
    j
}

/// Index of the first newline of `t` at or after `i`, or the end of `t`.
pub fn find_line_end(t: &[u8], i: usize) -> (r: usize)
    requires
        i <= t@.len(),
    ensures
        r == line_end(t@, i as int),
{
    let mut j = i;
    while j < t.len() && t[j] != 10u8
        invariant
            i <= j <= t@.len(),
            line_end(t@, j as int) == line_end(t@, i as int),
        decreases t@.len() - j,
    {
        j = j + 1;
    }
    j
}

/// Whether two byte strings are equal.
pub fn bytes_eq(a: &[u8], b: &[u8]) -> (r: bool)
    ensures
        r == (a@ == b@),
{
    if a.len() != b.len() {
        return false;
    }
    let mut i: usize = 0;
    while i < a.len()
        invariant
            a@.len() == b@.len(),
            i <= a@.len(),
            forall|k: int| 0 <= k < i ==> a@[k] == b@[k],
        decreases a@.len() - i,
    {
        if a[i] != b[i] {
            return false;
        }
        i = i + 1;
    }
    assert(a@ =~= b@);
    true
}

/// Parses an unsigned decimal as `u64::from_str` does.
#[verifier::rlimit(30)]
pub fn parse_decimal(s: &[u8]) -> (r: Option<u64>)
    ensures
        r == parse_u64(s@),
{
    let n = s.len();
    let start: usize = if n > 1 && s[0] == 43u8 {
        1
    } else {
        0
    };
    let ghost d = unsigned_digits(s@);
    assert(d =~= s@.subrange(start as int, n as int));
    if start == n {
        return None;
    }
    let mut i = start;
    let mut acc: u64 = 0;
    while i < n
        invariant
            start <= i <= n,
            n == s@.len(),
            d == unsigned_digits(s@),
            d =~= s@.subrange(start as int, n as int),
            forall|k: int| 0 <= k < i - start ==> is_digit(#[trigger] d[k]),
            acc as nat == digits_value(d.subrange(0, i - start)),
        decreases n - i,
    {
        let b = s[i];
        if b < 48u8 || b > 57u8 {
            assert(d[i - start] == b);
            assert(!is_digit(d[i - start]));
            assert(!(forall|k: int| 0 <= k < d.len() ==> is_digit(#[trigger] d[k])));
            return None;
        }
        let dg = (b - 48u8) as u64;
        let ghost k = i + 1 - start;
        assert(d.subrange(0, k).drop_last() =~= d.subrange(0, k - 1));
        assert(digits_value(d.subrange(0, k)) == acc * 10 + dg);
        if acc > (u64::MAX - dg) / 10 {
            assert(acc * 10 + dg > u64::MAX) by (nonlinear_arith)
                requires
                    acc > (u64::MAX - dg) / 10,
                    dg <= 9,
            ;
            proof {
                lemma_digits_prefix_le(d, k);
                assert(digits_value(d) > u64::MAX);
            }
            return None;
        }
        assert(acc * 10 + dg <= u64::MAX) by (nonlinear_arith)
            requires
                acc <= (u64::MAX - dg) / 10,
                dg <= 9,
        ;
        acc = acc * 10 + dg;
        i = i + 1;
    }
    assert(d.subrange(0, n - start) =~= d);
    Some(acc)
}

} // verus!
