//! Spec-level model of the input text and verified numeric parsing.
//!
//! Both input files are line-oriented UTF-8 text. This module fixes the
//! mathematical meaning of the text operations the loaders rely on:
//! whitespace, trimming, decimal digits, the value of a digit string,
//! and the position of the first newline of a sequence. The one
//! executable item here, [`parse_u32`], reads a whole string as an
//! unsigned decimal integer exactly as `u32::from_str` would: an
//! optional leading `'+'`, then one or more digits, value at most
//! `u32::MAX`.

use vstd::prelude::*;

verus! {

/// Whitespace, for trimming and token splitting: the space character
/// and the control characters U+0009 through U+000D (tab, line feed,
/// vertical tab, form feed, carriage return).
pub open spec fn is_ws(c: char) -> bool {
    c == ' ' || (9 <= c as u32 && c as u32 <= 13)
}

/// A decimal digit `'0'` through `'9'`.
pub open spec fn is_digit(c: char) -> bool {
    48 <= c as u32 && c as u32 <= 57
}

/// Numeric value of a decimal digit.
pub open spec fn digit_val(c: char) -> int {
    c as u32 - 48
}

/// Every character of `s` is a decimal digit.
pub open spec fn all_digits(s: Seq<char>) -> bool {
    forall|i: int| 0 <= i < s.len() ==> is_digit(#[trigger] s[i])
}

/// Value of a digit string read in base ten, most significant first.
pub open spec fn digits_val(s: Seq<char>) -> int
    decreases s.len(),
{
    if s.len() == 0 {
        0
    } else {
        digits_val(s.drop_last()) * 10 + digit_val(s.last())
    }
}

pub proof fn lemma_digits_val_nonneg(s: Seq<char>)
    requires
        all_digits(s),
    ensures
        digits_val(s) >= 0,
    decreases s.len(),
{
    if s.len() > 0 {
        assert(all_digits(s.drop_last()));
        lemma_digits_val_nonneg(s.drop_last());
    }
}

/// Appending one digit multiplies the value by ten and adds the digit.
pub proof fn lemma_digits_val_step(s: Seq<char>, i: int)
    requires
        0 <= i < s.len(),
    ensures
        digits_val(s.take(i + 1)) == digits_val(s.take(i)) * 10 + digit_val(s[i]),
{
    assert(s.take(i + 1).drop_last() =~= s.take(i));
    assert(s.take(i + 1).last() == s[i]);
}

/// The value of a digit string is at least the value of any prefix.
pub proof fn lemma_digits_val_prefix_le(s: Seq<char>, i: int)
    requires
        all_digits(s),
        0 <= i <= s.len(),
    ensures
        digits_val(s.take(i)) <= digits_val(s),
    decreases s.len() - i,
{
    if i == s.len() {
        assert(s.take(i) =~= s);
    } else {
        lemma_digits_val_step(s, i);
        assert(all_digits(s.take(i)));
        lemma_digits_val_nonneg(s.take(i));
        lemma_digits_val_prefix_le(s, i + 1);
    }
}

/// A digit string of at most three digits stays under one thousand.
pub proof fn lemma_digits_val_small(s: Seq<char>)
    requires
        all_digits(s),
        s.len() <= 3,
    ensures
        0 <= digits_val(s) <= 999,
        s.len() <= 2 ==> digits_val(s) <= 99,
        s.len() <= 1 ==> digits_val(s) <= 9,
    decreases s.len(),
{
    if s.len() > 0 {
        assert(all_digits(s.drop_last()));
        lemma_digits_val_small(s.drop_last());
    }
}

/// The digit string behind an optional leading `'+'` sign.
pub open spec fn unsigned_body(s: Seq<char>) -> Seq<char> {
    if s.len() > 0 && s[0] == '+' {
        s.drop_first()
    } else {
        s
    }
}

/// `s` is accepted by `u32::from_str`: an optional `'+'`, then one or
/// more decimal digits whose value fits in a `u32`.
pub open spec fn parses_as_u32(s: Seq<char>) -> bool {
    let b = unsigned_body(s);
    b.len() > 0 && all_digits(b) && digits_val(b) <= u32::MAX
}

/// The value such a string denotes.
pub open spec fn u32_value(s: Seq<char>) -> int {
    digits_val(unsigned_body(s))
}

/// `s` with leading whitespace removed.
pub open spec fn trim_start(s: Seq<char>) -> Seq<char>
    decreases s.len(),
{
    if s.len() > 0 && is_ws(s[0]) {
        trim_start(s.drop_first())
    } else {
        s
    }
}

/// `s` with trailing whitespace removed.
pub open spec fn trim_end(s: Seq<char>) -> Seq<char>
    decreases s.len(),
{
    if s.len() > 0 && is_ws(s.last()) {
        trim_end(s.drop_last())
    } else {
        s
    }
}

/// `s` with surrounding [`is_ws`] whitespace removed.
pub open spec fn trimmed(s: Seq<char>) -> Seq<char> {
    trim_end(trim_start(s))
}

/// If the first `a` characters are whitespace and the next one is not,
/// trimming the start drops exactly those `a` characters.
pub proof fn lemma_trim_start_at(s: Seq<char>, a: int)
    requires
        0 <= a <= s.len(),
        forall|i: int| 0 <= i < a ==> is_ws(#[trigger] s[i]),
        a < s.len() ==> !is_ws(s[a]),
    ensures
        trim_start(s) == s.subrange(a, s.len() as int),
    decreases a,
{
    if a == 0 {
        assert(s.subrange(0, s.len() as int) =~= s);
    } else {
        let t = s.drop_first();
        assert(forall|i: int| 0 <= i < a - 1 ==> is_ws(#[trigger] t[i]));
        lemma_trim_start_at(t, a - 1);
        assert(t.subrange(a - 1, t.len() as int) =~= s.subrange(a, s.len() as int));
    }
}

/// If everything from position `b` on is whitespace and the character
/// before `b` is not, trimming the end keeps exactly the first `b`.
pub proof fn lemma_trim_end_at(s: Seq<char>, b: int)
    requires
        0 <= b <= s.len(),
        forall|i: int| b <= i < s.len() ==> is_ws(#[trigger] s[i]),
        b > 0 ==> !is_ws(s[b - 1]),
    ensures
        trim_end(s) == s.subrange(0, b),
    decreases s.len() - b,
{
    if b == s.len() {
        assert(s.subrange(0, b) =~= s);
    } else {
        let t = s.drop_last();
        assert(forall|i: int| b <= i < t.len() ==> is_ws(#[trigger] t[i]));
        lemma_trim_end_at(t, b);
        assert(t.subrange(0, b) =~= s.subrange(0, b));
    }
}

/// Index of the first occurrence of `c` in `s`, or `s.len()` if there
/// is none.
pub open spec fn first_occurrence(s: Seq<char>, c: char) -> nat
    decreases s.len(),
{
    if s.len() == 0 {
        0
    } else if s[0] == c {
        0
    } else {
        1 + first_occurrence(s.drop_first(), c)
    }
}

/// Characterizes `first_occurrence` from a scan: no `c` before `k`,
/// and a `c` (or the end of the text) at `k`.
pub proof fn lemma_first_occurrence_is(s: Seq<char>, c: char, k: int)
    requires
        0 <= k <= s.len(),
        forall|i: int| 0 <= i < k ==> #[trigger] s[i] != c,
        k < s.len() ==> s[k] == c,
    ensures
        first_occurrence(s, c) == k,
    decreases k,
{
    if k == 0 {
    } else {
        let t = s.drop_first();
        assert(forall|i: int| 0 <= i < k - 1 ==> #[trigger] t[i] != c);
        lemma_first_occurrence_is(t, c, k - 1);
    }
}

/// Index of the first newline of `s`, or `s.len()` if there is none.
pub open spec fn first_newline(s: Seq<char>) -> nat {
    first_occurrence(s, '\n')
}

/// Characterizes `first_newline` from a scan: no newline before `k`,
/// and a newline (or the end of the text) at `k`.
pub proof fn lemma_first_newline_is(s: Seq<char>, k: int)
    requires
        0 <= k <= s.len(),
        forall|i: int| 0 <= i < k ==> #[trigger] s[i] != '\n',
        k < s.len() ==> s[k] == '\n',
    ensures
        first_newline(s) == k,
{
    lemma_first_occurrence_is(s, '\n', k);
}

/// The lines of a text: the segments between newlines, in order,
/// without a final empty segment after a trailing newline.
pub open spec fn lines_of(s: Seq<char>) -> Seq<Seq<char>>
    decreases s.len(),
{
    if s.len() == 0 {
        Seq::<Seq<char>>::empty()
    } else {
        let k = first_newline(s);
        if k >= s.len() {
            seq![s]
        } else {
            seq![s.take(k as int)] + lines_of(s.skip(k as int + 1))
        }
    }
}

/// The whitespace-separated tokens of `s`: the maximal nonempty runs
/// of non-[`is_ws`] characters, in order. A leading non-whitespace
/// character either opens a new token or extends the token that starts
/// right after it.
pub open spec fn tokens_of(s: Seq<char>) -> Seq<Seq<char>>
    decreases s.len(),
{
    if s.len() == 0 {
        Seq::<Seq<char>>::empty()
    } else {
        let rest = tokens_of(s.drop_first());
        if is_ws(s[0]) {
            rest
        } else if s.len() > 1 && !is_ws(s[1]) {
            seq![seq![s[0]] + rest[0]] + rest.drop_first()
        } else {
            seq![seq![s[0]]] + rest
        }
    }
}

/// Decomposes the token list at a maximal non-whitespace run: if the
/// first `k` characters are not whitespace and the text ends or turns
/// to whitespace at `k`, those characters are the first token.
pub proof fn lemma_tokens_of_token(s: Seq<char>, k: int)
    requires
        0 < k <= s.len(),
        forall|i: int| 0 <= i < k ==> !is_ws(#[trigger] s[i]),
        k < s.len() ==> is_ws(s[k]),
    ensures
        tokens_of(s) == seq![s.take(k)] + tokens_of(s.skip(k)),
    decreases k,
{
    let t = s.drop_first();
    if k == 1 {
        assert(s.take(1) =~= seq![s[0]]);
        assert(s.skip(1) =~= t);
    } else {
        assert(forall|i: int| 0 <= i < k - 1 ==> !is_ws(#[trigger] t[i]));
        lemma_tokens_of_token(t, k - 1);
        assert(seq![s[0]] + t.take(k - 1) =~= s.take(k));
        assert(t.skip(k - 1) =~= s.skip(k));
        assert((seq![t.take(k - 1)] + tokens_of(t.skip(k - 1))).drop_first() =~= tokens_of(
            t.skip(k - 1),
        ));
    }
}

/// Leading whitespace does not contribute tokens.
pub proof fn lemma_tokens_of_skip_ws(s: Seq<char>, a: int)
    requires
        0 <= a <= s.len(),
        forall|i: int| 0 <= i < a ==> is_ws(#[trigger] s[i]),
    ensures
        tokens_of(s) == tokens_of(s.skip(a)),
    decreases a,
{
    if a == 0 {
        assert(s.skip(0) =~= s);
    } else {
        let t = s.drop_first();
        assert(forall|i: int| 0 <= i < a - 1 ==> is_ws(#[trigger] t[i]));
        lemma_tokens_of_skip_ws(t, a - 1);
        assert(t.skip(a - 1) =~= s.skip(a));
    }
}

/// Executable test for [`is_ws`].
pub fn is_ws_char(c: char) -> (b: bool)
    ensures
        b == is_ws(c),
{
    let v: u32 = c as u32;
    v == 32 || (9 <= v && v <= 13)
}

/// Reads a whole string as an unsigned decimal integer, exactly as
/// `u32::from_str` does: `Some` with the denoted value on the strings
/// [`parses_as_u32`] accepts, `None` on every other string.
pub fn parse_u32(s: &str) -> (r: Option<u32>)
    ensures
        parses_as_u32(s@) ==> r == Some(u32_value(s@) as u32),
        !parses_as_u32(s@) ==> r is None,
{
    let n: usize = s.unicode_len();
    let mut i: usize = 0;
    if n > 0 && s.get_char(0) == '+' {
        i = 1;
    }
    let ghost body = unsigned_body(s@);
    proof {
        assert(body =~= s@.skip(i as int));
    }
    if i == n {
        return None;
    }
    let mut val: u64 = 0;
    let mut j: usize = i;
    while j < n
        invariant
            i <= j <= n,
            n == s@.len(),
            i < n,
            body == s@.skip(i as int),
            body == unsigned_body(s@),
            all_digits(body.take(j - i)),
            val == digits_val(body.take(j - i)),
            val <= u32::MAX,
        decreases n - j,
    {
        let c = s.get_char(j);
        let v: u32 = c as u32;
        if !(48 <= v && v <= 57) {
            proof {
                assert(body[j - i] == s@[j as int]);
                assert(!is_digit(body[j - i]));
            }
            return None;
        }
        let d: u64 = (v - 48) as u64;
        proof {
            lemma_digits_val_step(body, j - i);
            assert(body.take(j - i + 1)[j - i] == s@[j as int]);
        }
        val = val * 10 + d;
        j = j + 1;
        if val > u32::MAX as u64 {
            proof {
                if all_digits(body) {
                    lemma_digits_val_prefix_le(body, j - i);
                }
            }
            return None;
        }
    }
    proof {
        assert(body.take(n - i) =~= body);
    }
    Some(val as u32)
}

} // verus!
