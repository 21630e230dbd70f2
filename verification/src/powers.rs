//! Loading the input-power list.
//!
//! The input-power file is one token per line. Each line is trimmed of
//! surrounding whitespace and read as a non-negative decimal integer;
//! lines that do not parse are silently skipped, and order and
//! duplicates of the accepted values are preserved.

use vstd::prelude::*;

use crate::text::first_newline;
use crate::text::is_ws;
use crate::text::is_ws_char;
use crate::text::lemma_first_newline_is;
use crate::text::lemma_trim_end_at;
use crate::text::lemma_trim_start_at;
use crate::text::parse_u32;
use crate::text::parses_as_u32;
use crate::text::trimmed;
use crate::text::u32_value;

verus! {

/// Contribution of one line to the power list: the denoted value if the
/// trimmed line parses as a `u32`, nothing otherwise.
pub open spec fn line_powers(l: Seq<char>) -> Seq<u32> {
    if parses_as_u32(trimmed(l)) {
        seq![u32_value(trimmed(l)) as u32]
    } else {
        Seq::<u32>::empty()
    }
}

/// The power list an input text denotes: the concatenation of
/// [`line_powers`] over its newline-separated lines, in line order.
pub open spec fn powers_of(s: Seq<char>) -> Seq<u32>
    decreases s.len(),
{
    if s.len() == 0 {
        Seq::<u32>::empty()
    } else {
        let k = first_newline(s);
        if k >= s.len() {
            line_powers(s)
        } else {
            line_powers(s.take(k as int)) + powers_of(s.skip(k as int + 1))
        }
    }
}

/// Reads one line: trims surrounding whitespace, then parses the rest
/// as a non-negative decimal integer; `None` on a line that does not
/// parse.
fn parse_power_line(line: &str) -> (r: Option<u32>)
    ensures
        parses_as_u32(trimmed(line@)) ==> r == Some(u32_value(trimmed(line@)) as u32),
        !parses_as_u32(trimmed(line@)) ==> r is None,
{
    let n: usize = line.unicode_len();
    let mut a: usize = 0;
    while a < n && is_ws_char(line.get_char(a))
        invariant
            a <= n,
            n == line@.len(),
            forall|i: int| 0 <= i < a ==> is_ws(#[trigger] line@[i]),
        decreases n - a,
    {
        a = a + 1;
    }
    let mut b: usize = n;
    while b > a && is_ws_char(line.get_char(b - 1))
        invariant
            a <= b <= n,
            n == line@.len(),
            forall|i: int| b <= i < n ==> is_ws(#[trigger] line@[i]),
        decreases b,
    {
        b = b - 1;
    }
    proof {
        lemma_trim_start_at(line@, a as int);
        let t = line@.subrange(a as int, n as int);
        assert(forall|i: int| b - a <= i < t.len() ==> is_ws(#[trigger] t[i])) by {
            assert(forall|i: int| b - a <= i < t.len() ==> t[i] == line@[i + a]);
        }
        lemma_trim_end_at(t, b - a);
        assert(t.subrange(0, b - a) =~= line@.subrange(a as int, b as int));
    }
    let piece = line.substring_char(a, b);
    parse_u32(piece)
}

/// Reads the whole input-power file: splits on newlines, trims each
/// line, keeps exactly the lines that parse as non-negative decimal
/// integers, in file order, duplicates preserved.
pub fn get_input_powers(data: &str) -> (r: Vec<u32>)
    ensures
        r@ == powers_of(data@),
{
    let n: usize = data.unicode_len();
    let mut out: Vec<u32> = Vec::new();
    let mut pos: usize = 0;
    proof {
        assert(data@.skip(0) =~= data@);
        assert(Seq::<u32>::empty() + powers_of(data@) =~= powers_of(data@));
    }
    while pos < n
        invariant
            pos <= n,
            n == data@.len(),
            powers_of(data@) == out@ + powers_of(data@.skip(pos as int)),
        decreases n - pos,
    {
        let mut k: usize = pos;
        while k < n && data.get_char(k) != '\n'
            invariant
                pos <= k <= n,
                n == data@.len(),
                forall|i: int| pos <= i < k ==> #[trigger] data@[i] != '\n',
            decreases n - k,
        {
            k = k + 1;
        }
        let line = data.substring_char(pos, k);
        let ghost suffix = data@.skip(pos as int);
        proof {
            assert(forall|i: int| 0 <= i < k - pos ==> #[trigger] suffix[i] != '\n') by {
                assert(forall|i: int| 0 <= i < k - pos ==> suffix[i] == data@[i + pos]);
            }
            lemma_first_newline_is(suffix, k - pos);
            assert(suffix.take(k - pos) =~= data@.subrange(pos as int, k as int));
        }
        let parsed = parse_power_line(line);
        let ghost out_old = out@;
        match parsed {
            Some(v) => {
                out.push(v);
            },
            None => {},
        }
        proof {
            assert(out@ =~= out_old + line_powers(line@));
        }
        if k < n {
            proof {
                assert(suffix.skip(k - pos + 1) =~= data@.skip(k as int + 1));
                assert(powers_of(suffix) == line_powers(line@) + powers_of(
                    data@.skip(k as int + 1),
                ));
                assert(powers_of(data@) =~= out@ + powers_of(data@.skip(k as int + 1)));
            }
            pos = k + 1;
        } else {
            proof {
                assert(line@ =~= suffix);
                assert(powers_of(suffix) == line_powers(line@));
                assert(data@.skip(n as int) =~= Seq::<char>::empty());
                assert(powers_of(data@) =~= out@ + powers_of(data@.skip(n as int)));
            }
            pos = n;
        }
    }
    proof {
        assert(data@.skip(pos as int) =~= Seq::<char>::empty());
        assert(out@ + powers_of(data@.skip(pos as int)) =~= out@);
    }
    out
}

} // verus!
