//! Loading the laser configurations.
//!
//! The configuration file holds one laser per line: four
//! whitespace-separated tokens, in order the report target, the
//! small-signal gain (an unsigned decimal number, kept here in
//! thousandths), the discharge pressure (a non-negative integer) and
//! the gas-mix label. Extra tokens on a line are ignored. A line with
//! fewer than four tokens, or with a malformed gain or pressure token,
//! fails the whole load and names the line.

use vstd::prelude::*;

use crate::text::all_digits;
use crate::text::digit_val;
use crate::text::digits_val;
use crate::text::first_occurrence;
use crate::text::is_digit;
use crate::text::is_ws;
use crate::text::is_ws_char;
use crate::text::lemma_digits_val_nonneg;
use crate::text::lemma_digits_val_prefix_le;
use crate::text::lemma_digits_val_small;
use crate::text::lemma_digits_val_step;
use crate::text::lemma_first_newline_is;
use crate::text::lemma_first_occurrence_is;
use crate::text::lemma_tokens_of_skip_ws;
use crate::text::lemma_tokens_of_token;
use crate::text::lines_of;
use crate::text::parse_u32;
use crate::text::parses_as_u32;
use crate::text::tokens_of;
use crate::text::u32_value;
use crate::text::unsigned_body;

verus! {

/// One laser configuration, immutable once loaded. The small-signal
/// gain is an unsigned decimal in the file; it is held here exactly in
/// thousandths (the file's fractional digits beyond the third are
/// dropped), which is finer than the one decimal place the reports
/// show.
#[derive(Debug, Clone)]
pub struct LaserConfig {
    /// Identifier of where this laser's report goes.
    pub output_target: String,
    /// Small-signal gain of the medium, in thousandths.
    pub small_signal_gain_milli: u64,
    /// Operating pressure of the gas discharge; reported, never used
    /// by the numeric kernel.
    pub discharge_pressure: u32,
    /// Opaque label of the gas mixture.
    pub gas_mix_label: String,
}

/// Why one configuration line was rejected.
#[derive(Debug, Clone, Copy, PartialEq, Eq, Structural)]
pub enum ConfigErrorKind {
    /// Fewer than four whitespace-separated tokens.
    MissingTokens,
    /// The gain token is not an unsigned decimal number.
    BadGain,
    /// The pressure token is not a non-negative integer.
    BadPressure,
}

/// A rejected configuration line: its zero-based line number and the
/// reason.
#[derive(Debug, Clone, Copy, PartialEq, Eq, Structural)]
pub struct ConfigParseError {
    pub line: usize,
    pub kind: ConfigErrorKind,
}

/// Digits of the gain token before the decimal point (sign skipped).
pub open spec fn gain_int_part(s: Seq<char>) -> Seq<char> {
    let b = unsigned_body(s);
    b.take(first_occurrence(b, '.') as int)
}

/// Digits of the gain token after the decimal point; empty when there
/// is no point.
pub open spec fn gain_frac_part(s: Seq<char>) -> Seq<char> {
    let b = unsigned_body(s);
    let d = first_occurrence(b, '.');
    if d >= b.len() {
        Seq::<char>::empty()
    } else {
        b.skip(d as int + 1)
    }
}

/// `s` is an unsigned decimal number: an optional `'+'`, digits with at
/// most one decimal point among them, at least one digit, and an
/// integer part that fits in a `u32`.
pub open spec fn parses_as_gain(s: Seq<char>) -> bool {
    let ip = gain_int_part(s);
    let fp = gain_frac_part(s);
    &&& all_digits(ip)
    &&& all_digits(fp)
    &&& ip.len() + fp.len() > 0
    &&& digits_val(ip) <= u32::MAX
}

/// Value of a fractional digit string in thousandths: the first three
/// digits, padded with zeros on the right; later digits are dropped.
pub open spec fn milli_frac(f: Seq<char>) -> int {
    if f.len() == 0 {
        0
    } else if f.len() == 1 {
        digits_val(f) * 100
    } else if f.len() == 2 {
        digits_val(f) * 10
    } else {
        digits_val(f.take(3))
    }
}

/// The gain a token denotes, in thousandths.
pub open spec fn gain_milli_of(s: Seq<char>) -> int {
    digits_val(gain_int_part(s)) * 1000 + milli_frac(gain_frac_part(s))
}

/// A well-formed gain token denotes a value that fits in a `u64`.
pub proof fn lemma_gain_milli_bound(s: Seq<char>)
    requires
        parses_as_gain(s),
    ensures
        0 <= gain_milli_of(s) <= 4294967295999,
{
    lemma_digits_val_nonneg(gain_int_part(s));
    let fp = gain_frac_part(s);
    if fp.len() == 0 {
    } else if fp.len() <= 2 {
        lemma_digits_val_small(fp);
    } else {
        assert(all_digits(fp.take(3)));
        lemma_digits_val_small(fp.take(3));
    }
}

/// Reads a gain token as an unsigned decimal number: `Some` with its
/// value in thousandths on the tokens [`parses_as_gain`] accepts,
/// `None` on every other token.
fn parse_gain(t: &str) -> (r: Option<u64>)
    ensures
        parses_as_gain(t@) ==> r == Some(gain_milli_of(t@) as u64),
        !parses_as_gain(t@) ==> r is None,
{
    let n: usize = t.unicode_len();
    let mut i: usize = 0;
    if n > 0 && t.get_char(0) == '+' {
        i = 1;
    }
    let ghost b = unsigned_body(t@);
    proof {
        assert(b =~= t@.skip(i as int));
    }
    let mut dpos: usize = i;
    while dpos < n && t.get_char(dpos) != '.'
        invariant
            i <= dpos <= n,
            n == t@.len(),
            forall|j: int| i <= j < dpos ==> #[trigger] t@[j] != '.',
        decreases n - dpos,
    {
        dpos = dpos + 1;
    }
    proof {
        assert(forall|j: int| 0 <= j < dpos - i ==> #[trigger] b[j] != '.') by {
            assert(forall|j: int| 0 <= j < dpos - i ==> b[j] == t@[j + i]);
        }
        lemma_first_occurrence_is(b, '.', dpos - i);
    }
    let ghost ip = gain_int_part(t@);
    let ghost fp = gain_frac_part(t@);
    proof {
        assert(ip =~= t@.subrange(i as int, dpos as int));
        if dpos < n {
            assert(fp =~= t@.subrange(dpos as int + 1, n as int));
        } else {
            assert(fp =~= Seq::<char>::empty());
        }
    }
    if dpos == i && (dpos == n || dpos + 1 == n) {
        return None;
    }
    let mut val: u64 = 0;
    let mut j: usize = i;
    while j < dpos
        invariant
            i <= j <= dpos <= n,
            n == t@.len(),
            ip == gain_int_part(t@),
            ip == t@.subrange(i as int, dpos as int),
            all_digits(ip.take(j - i)),
            val == digits_val(ip.take(j - i)),
            val <= u32::MAX,
        decreases dpos - j,
    {
        let c = t.get_char(j);
        let v: u32 = c as u32;
        if !(48 <= v && v <= 57) {
            proof {
                assert(ip[j - i] == t@[j as int]);
                assert(!is_digit(ip[j - i]));
            }
            return None;
        }
        let d: u64 = (v - 48) as u64;
        proof {
            lemma_digits_val_step(ip, j - i);
            assert(ip.take(j - i + 1)[j - i] == t@[j as int]);
        }
        val = val * 10 + d;
        j = j + 1;
        if val > u32::MAX as u64 {
            proof {
                if all_digits(ip) {
                    lemma_digits_val_prefix_le(ip, j - i);
                }
            }
            return None;
        }
    }
    proof {
        assert(ip.take(dpos - i) =~= ip);
    }
    let mut fmilli: u64 = 0;
    if dpos < n {
        let mut j2: usize = dpos + 1;
        while j2 < n
            invariant
                dpos + 1 <= j2 <= n,
                n == t@.len(),
                dpos < n,
                fp == gain_frac_part(t@),
                fp == t@.subrange(dpos as int + 1, n as int),
                all_digits(fp.take(j2 - dpos - 1)),
                fmilli == milli_frac(fp.take(j2 - dpos - 1)),
                fmilli <= 999,
            decreases n - j2,
        {
            let c = t.get_char(j2);
            let v: u32 = c as u32;
            let ghost jp = j2 - dpos - 1;
            if !(48 <= v && v <= 57) {
                proof {
                    assert(fp[jp] == t@[j2 as int]);
                    assert(!is_digit(fp[jp]));
                }
                return None;
            }
            let d: u64 = (v - 48) as u64;
            proof {
                assert(fp.take(jp + 1)[jp] == t@[j2 as int]);
                assert(all_digits(fp.take(jp + 1)));
                lemma_digits_val_step(fp, jp);
                assert(fp.take(jp + 1).take(jp) =~= fp.take(jp));
            }
            if j2 == dpos + 1 {
                fmilli = d * 100;
                proof {
                    assert(fp.take(0) =~= Seq::<char>::empty());
                    assert(digits_val(fp.take(1)) == digit_val(fp[0]));
                }
            } else if j2 == dpos + 2 {
                proof {
                    lemma_digits_val_small(fp.take(1));
                }
                fmilli = fmilli + d * 10;
                proof {
                    assert(digits_val(fp.take(2)) == digits_val(fp.take(1)) * 10 + digit_val(
                        fp[1],
                    ));
                }
            } else if j2 == dpos + 3 {
                proof {
                    lemma_digits_val_small(fp.take(2));
                }
                fmilli = fmilli + d;
                proof {
                    assert(fp.take(3).take(3) =~= fp.take(3));
                    assert(milli_frac(fp.take(3)) == digits_val(fp.take(2)) * 10 + digit_val(
                        fp[2],
                    ));
                }
            } else {
                proof {
                    assert(fp.take(jp + 1).take(3) =~= fp.take(3));
                    assert(fp.take(jp).take(3) =~= fp.take(3));
                }
            }
            j2 = j2 + 1;
        }
        proof {
            assert(fp.take(n - dpos - 1) =~= fp);
        }
    }
    proof {
        assert(parses_as_gain(t@));
    }
    Some(val * 1000 + fmilli)
}

/// Finds the next whitespace-separated token of `line` at or after
/// `from`: the bounds of the token, or `None` when only whitespace is
/// left. The token found is the head of the token list of the rest of
/// the line.
fn next_token(line: &str, from: usize) -> (r: Option<(usize, usize)>)
    requires
        from <= line@.len(),
    ensures
        r matches Some(ab) ==> {
            &&& from <= ab.0 < ab.1 <= line@.len()
            &&& tokens_of(line@.skip(from as int)) == seq![
                line@.subrange(ab.0 as int, ab.1 as int),
            ] + tokens_of(line@.skip(ab.1 as int))
        },
        r is None ==> tokens_of(line@.skip(from as int)) == Seq::<Seq<char>>::empty(),
{
    let n: usize = line.unicode_len();
    let mut a: usize = from;
    while a < n && is_ws_char(line.get_char(a))
        invariant
            from <= a <= n,
            n == line@.len(),
            forall|i: int| from <= i < a ==> is_ws(#[trigger] line@[i]),
        decreases n - a,
    {
        a = a + 1;
    }
    let ghost sfrom = line@.skip(from as int);
    proof {
        assert(forall|i: int| 0 <= i < a - from ==> is_ws(#[trigger] sfrom[i])) by {
            assert(forall|i: int| 0 <= i < a - from ==> sfrom[i] == line@[i + from]);
        }
        lemma_tokens_of_skip_ws(sfrom, a - from);
        assert(sfrom.skip(a - from) =~= line@.skip(a as int));
    }
    if a == n {
        proof {
            assert(line@.skip(a as int) =~= Seq::<char>::empty());
        }
        return None;
    }
    let mut b: usize = a;
    while b < n && !is_ws_char(line.get_char(b))
        invariant
            a <= b <= n,
            n == line@.len(),
            forall|i: int| a <= i < b ==> !is_ws(#[trigger] line@[i]),
        decreases n - b,
    {
        b = b + 1;
    }
    let ghost sa = line@.skip(a as int);
    proof {
        assert(forall|i: int| 0 <= i < b - a ==> !is_ws(#[trigger] sa[i])) by {
            assert(forall|i: int| 0 <= i < b - a ==> sa[i] == line@[i + a]);
        }
        if b < n {
            assert(sa[b - a] == line@[b as int]);
        }
        lemma_tokens_of_token(sa, b - a);
        assert(sa.take(b - a) =~= line@.subrange(a as int, b as int));
        assert(sa.skip(b - a) =~= line@.skip(b as int));
    }
    Some((a, b))
}

/// The line has at least four tokens, a well-formed gain token and a
/// well-formed pressure token.
pub open spec fn laser_line_ok(l: Seq<char>) -> bool {
    &&& tokens_of(l).len() >= 4
    &&& parses_as_gain(tokens_of(l)[1])
    &&& parses_as_u32(tokens_of(l)[2])
}

/// `c` holds exactly what the line's first four tokens denote.
pub open spec fn config_matches(c: LaserConfig, l: Seq<char>) -> bool {
    &&& c.output_target@ == tokens_of(l)[0]
    &&& c.small_signal_gain_milli == gain_milli_of(tokens_of(l)[1])
    &&& c.discharge_pressure == u32_value(tokens_of(l)[2])
    &&& c.gas_mix_label@ == tokens_of(l)[3]
}

/// Reads one configuration line. Succeeds exactly on the lines
/// [`laser_line_ok`] accepts and returns the configuration their
/// tokens denote; otherwise names the first of the three defects, in
/// the order token count, gain, pressure.
pub fn parse_laser_line(line: &str) -> (r: Result<LaserConfig, ConfigErrorKind>)
    ensures
        r is Ok <==> laser_line_ok(line@),
        r matches Ok(c) ==> config_matches(c, line@),
        tokens_of(line@).len() < 4 ==> r == Err::<LaserConfig, ConfigErrorKind>(
            ConfigErrorKind::MissingTokens,
        ),
        tokens_of(line@).len() >= 4 && !parses_as_gain(tokens_of(line@)[1]) ==> r == Err::<
            LaserConfig,
            ConfigErrorKind,
        >(ConfigErrorKind::BadGain),
        tokens_of(line@).len() >= 4 && parses_as_gain(tokens_of(line@)[1]) && !parses_as_u32(
            tokens_of(line@)[2],
        ) ==> r == Err::<LaserConfig, ConfigErrorKind>(ConfigErrorKind::BadPressure),
{
    let ghost toks = tokens_of(line@);
    proof {
        assert(line@.skip(0) =~= line@);
    }
    let t0 = match next_token(line, 0) {
        Some(ab) => ab,
        None => {
            return Err(ConfigErrorKind::MissingTokens);
        },
    };
    let t1 = match next_token(line, t0.1) {
        Some(ab) => ab,
        None => {
            return Err(ConfigErrorKind::MissingTokens);
        },
    };
    let t2 = match next_token(line, t1.1) {
        Some(ab) => ab,
        None => {
            return Err(ConfigErrorKind::MissingTokens);
        },
    };
    let t3 = match next_token(line, t2.1) {
        Some(ab) => ab,
        None => {
            return Err(ConfigErrorKind::MissingTokens);
        },
    };
    proof {
        assert(toks.len() >= 4);
        assert(toks[0] == line@.subrange(t0.0 as int, t0.1 as int));
        assert(toks[1] == line@.subrange(t1.0 as int, t1.1 as int));
        assert(toks[2] == line@.subrange(t2.0 as int, t2.1 as int));
        assert(toks[3] == line@.subrange(t3.0 as int, t3.1 as int));
    }
    let gain_tok = line.substring_char(t1.0, t1.1);
    let gain_milli = match parse_gain(gain_tok) {
        Some(g) => g,
        None => {
            return Err(ConfigErrorKind::BadGain);
        },
    };
    let pressure_tok = line.substring_char(t2.0, t2.1);
    let pressure = match parse_u32(pressure_tok) {
        Some(p) => p,
        None => {
            return Err(ConfigErrorKind::BadPressure);
        },
    };
    proof {
        lemma_gain_milli_bound(toks[1]);
        lemma_digits_val_nonneg(unsigned_body(toks[2]));
    }
    let output_target = line.substring_char(t0.0, t0.1).to_owned();
    let gas_mix_label = line.substring_char(t3.0, t3.1).to_owned();
    Ok(
        LaserConfig {
            output_target,
            small_signal_gain_milli: gain_milli,
            discharge_pressure: pressure,
            gas_mix_label,
        },
    )
}

/// Every line of the configuration text is well formed.
pub open spec fn laser_data_ok(s: Seq<char>) -> bool {
    forall|i: int| 0 <= i < lines_of(s).len() ==> laser_line_ok(#[trigger] lines_of(s)[i])
}

/// Reads the whole configuration file: one laser per line, in line
/// order. Succeeds exactly when every line is well formed; otherwise
/// names the first bad line and its defect, leaving nothing loaded.
pub fn get_laser_data(data: &str) -> (r: Result<Vec<LaserConfig>, ConfigParseError>)
    ensures
        r is Ok <==> laser_data_ok(data@),
        r matches Ok(v) ==> {
            &&& v@.len() == lines_of(data@).len()
            &&& forall|i: int|
                0 <= i < v@.len() ==> config_matches(#[trigger] v@[i], lines_of(data@)[i])
        },
        r matches Err(e) ==> {
            &&& e.line < lines_of(data@).len()
            &&& !laser_line_ok(lines_of(data@)[e.line as int])
            &&& forall|j: int| 0 <= j < e.line ==> laser_line_ok(#[trigger] lines_of(data@)[j])
            &&& (tokens_of(lines_of(data@)[e.line as int]).len() < 4 ==> e.kind
                == ConfigErrorKind::MissingTokens)
            &&& (tokens_of(lines_of(data@)[e.line as int]).len() >= 4 && !parses_as_gain(
                tokens_of(lines_of(data@)[e.line as int])[1],
            ) ==> e.kind == ConfigErrorKind::BadGain)
            &&& (tokens_of(lines_of(data@)[e.line as int]).len() >= 4 && parses_as_gain(
                tokens_of(lines_of(data@)[e.line as int])[1],
            ) && !parses_as_u32(tokens_of(lines_of(data@)[e.line as int])[2]) ==> e.kind
                == ConfigErrorKind::BadPressure)
        },
{
    let n: usize = data.unicode_len();
    let mut out: Vec<LaserConfig> = Vec::new();
    let mut pos: usize = 0;
    let mut i: usize = 0;
    proof {
        assert(data@.skip(0) =~= data@);
        assert(lines_of(data@).skip(0) =~= lines_of(data@));
    }
    while pos < n
        invariant
            pos <= n,
            n == data@.len(),
            out@.len() == i,
            i <= pos,
            i <= lines_of(data@).len(),
            lines_of(data@).skip(i as int) == lines_of(data@.skip(pos as int)),
            forall|j: int| 0 <= j < i ==> laser_line_ok(#[trigger] lines_of(data@)[j]),
            forall|j: int|
                0 <= j < i ==> config_matches(#[trigger] out@[j], lines_of(data@)[j]),
        decreases n - pos,
    {
        let mut k: usize = pos;
        while k < n && data.get_char(k) != '\n'
            invariant
                pos <= k <= n,
                n == data@.len(),
                forall|j: int| pos <= j < k ==> #[trigger] data@[j] != '\n',
            decreases n - k,
        {
            k = k + 1;
        }
        let line = data.substring_char(pos, k);
        let ghost suffix = data@.skip(pos as int);
        proof {
            assert(forall|j: int| 0 <= j < k - pos ==> #[trigger] suffix[j] != '\n') by {
                assert(forall|j: int| 0 <= j < k - pos ==> suffix[j] == data@[j + pos]);
            }
            lemma_first_newline_is(suffix, k - pos);
            assert(suffix.take(k - pos) =~= data@.subrange(pos as int, k as int));
            if k == n {
                assert(line@ =~= suffix);
            }
            assert(suffix.len() > 0);
            assert(lines_of(suffix).len() >= 1);
            assert(lines_of(data@).skip(i as int).len() == lines_of(data@).len() - i);
            assert(i < lines_of(data@).len());
            assert(lines_of(data@).skip(i as int)[0] == lines_of(data@)[i as int]);
            assert(lines_of(suffix)[0] == line@);
            assert(lines_of(data@)[i as int] == line@);
        }
        let parsed = parse_laser_line(line);
        match parsed {
            Ok(c) => {
                out.push(c);
            },
            Err(kind) => {
                return Err(ConfigParseError { line: i, kind });
            },
        }
        proof {
            assert(lines_of(data@).skip(i as int).skip(1) =~= lines_of(data@).skip(i as int + 1));
            if k < n {
                assert(suffix.skip(k - pos + 1) =~= data@.skip(k as int + 1));
                assert((seq![line@] + lines_of(data@.skip(k as int + 1))).skip(1) =~= lines_of(
                    data@.skip(k as int + 1),
                ));
            } else {
                assert(data@.skip(n as int) =~= Seq::<char>::empty());
                assert((seq![line@]).skip(1) =~= Seq::<Seq<char>>::empty());
            }
        }
        i = i + 1;
        if k < n {
            pos = k + 1;
        } else {
            pos = n;
        }
    }
    proof {
        assert(data@.skip(pos as int) =~= Seq::<char>::empty());
        assert(lines_of(data@).skip(i as int).len() == 0);
        assert(i == lines_of(data@).len());
    }
    Ok(out)
}

} // verus!
