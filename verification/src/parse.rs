//! Parsing decimal strings, and raw mantissa construction.

use vstd::prelude::*;

use vstd::string::StrSliceExecFns;

use crate::digits::all_digits;
use crate::digits::mant_val;
use crate::errors::ConversionError;
use crate::sci::normalize;
use crate::sci::Scientific;
use crate::sci::LEN_LIMIT;

verus! {

/// Whether a character is a decimal digit.
pub open spec fn is_dig(c: char) -> bool {
    48 <= c as u32 <= 57
}

/// The value of a digit character.
pub open spec fn dig_val(c: char) -> u8 {
    (c as u32 - 48) as u8
}

/// The first position at or after `from` that does not hold a digit.
pub open spec fn digits_end(s: Seq<char>, from: int) -> int
    decreases s.len() - from,
{
    if from < 0 {
        from
    } else if from >= s.len() || !is_dig(s[from]) {
        from
    } else {
        digits_end(s, from + 1)
    }
}

/// The digit values in `s[a..b]`.
pub open spec fn dig_vals(s: Seq<char>, a: int, b: int) -> Seq<u8> {
    Seq::new((b - a) as nat, |i: int| dig_val(s[a + i]))
}

/// A signed decimal integer filling `s[a..]`: its sign and digit run.
pub open spec fn exp_part(s: Seq<char>, a: int) -> Option<(bool, Seq<u8>)> {
    if a >= s.len() {
        None
    } else {
        let neg = s[a] == '-';
        let b: int = if s[a] == '-' || s[a] == '+' {
            a + 1
        } else {
            a
        };
        if b >= s.len() || digits_end(s, b) != s.len() {
            None
        } else {
            Some((neg, dig_vals(s, b, s.len() as int)))
        }
    }
}

/// The decomposition of a decimal number literal: sign, mantissa digit
/// values, exponent of the least significant digit, and the magnitude of the
/// written exponent (zero when none is written).
pub open spec fn parse_spec(s: Seq<char>) -> Option<(bool, Seq<u8>, int, nat)> {
    if s.len() == 0 {
        None
    } else {
        let neg = s[0] == '-';
        let st: int = if s[0] == '-' || s[0] == '+' {
            1
        } else {
            0
        };
        if st >= s.len() {
            None
        } else if !(is_dig(s[st]) || s[st] == '.') {
            None
        } else {
            let p1 = digits_end(s, st);
            if p1 == s.len() {
                Some((neg, dig_vals(s, st, p1), 0, 0))
            } else if s[p1] == '.' {
                let p2 = digits_end(s, p1 + 1);
                let digs = dig_vals(s, st, p1) + dig_vals(s, p1 + 1, p2);
                let dot = p2 - (p1 + 1);
                if digs.len() == 0 {
                    None
                } else if p2 == s.len() {
                    Some((neg, digs, -dot, 0))
                } else if s[p2] == 'e' || s[p2] == 'E' {
                    match exp_part(s, p2 + 1) {
                        Some((eneg, edigs)) => {
                            let mag = mant_val(edigs);
                            let e: int = if eneg {
                                -(mag as int)
                            } else {
                                mag as int
                            };
                            Some((neg, digs, e - dot, mag))
                        },
                        None => None,
                    }
                } else {
                    None
                }
            } else if s[p1] == 'e' || s[p1] == 'E' {
                match exp_part(s, p1 + 1) {
                    Some((eneg, edigs)) => {
                        let mag = mant_val(edigs);
                        let e: int = if eneg {
                            -(mag as int)
                        } else {
                            mag as int
                        };
                        Some((neg, dig_vals(s, st, p1), e, mag))
                    },
                    None => None,
                }
            } else {
                None
            }
        }
    }
}

/// Whether the parsed exponent fits the machine's exponent type, with room
/// for the normalization that follows.
pub open spec fn parse_fits(t: (bool, Seq<u8>, int, nat)) -> bool {
    &&& t.3 <= isize::MAX as int
    &&& isize::MIN as int <= t.2
    &&& t.2 <= isize::MAX as int
    &&& t.2 + t.1.len() <= isize::MAX as int
}

/// A parse attempt succeeds exactly when the literal is well-formed and its
/// exponent fits the machine word.
pub open spec fn parse_accepts(s: Seq<char>) -> bool {
    match parse_spec(s) {
        Some(t) => parse_fits(t),
        None => false,
    }
}

/// Every position of a digit run holds a digit.
proof fn lemma_digits_end_digits(s: Seq<char>, from: int, j: int)
    requires
        0 <= from,
        from <= j < digits_end(s, from),
    ensures
        digits_end(s, from) <= s.len(),
        is_dig(s[j]),
    decreases s.len() - from,
{
    if from < s.len() && is_dig(s[from]) {
        if j > from {
            lemma_digits_end_digits(s, from + 1, j);
        } else {
            lemma_digits_end_bound(s, from);
        }
    }
}

/// A digit run ends within the sequence.
proof fn lemma_digits_end_bound(s: Seq<char>, from: int)
    requires
        0 <= from <= s.len(),
    ensures
        from <= digits_end(s, from) <= s.len(),
    decreases s.len() - from,
{
    if from < s.len() && is_dig(s[from]) {
        lemma_digits_end_bound(s, from + 1);
    }
}

/// Scan a digit run: returns the end index, accumulating nothing.
fn scan_digits(src: &str, len: usize, from: usize) -> (r: usize)
    requires
        src@.len() == len,
        from <= len,
    ensures
        r as int == digits_end(src@, from as int),
        from <= r <= len,
{
    let mut i = from;
    while i < len
        invariant
            from <= i <= len,
            src@.len() == len,
            digits_end(src@, from as int) == digits_end(src@, i as int),
            forall|j: int| from <= j < i ==> is_dig(src@[j]),
        decreases len - i,
    {
        let c = src.get_char(i);
        let cu = c as u32;
        if !(48 <= cu && cu <= 57) {
            proof {
                assert(digits_end(src@, i as int) == i);
            }
            return i;
        }
        proof {
            assert(digits_end(src@, i as int) == digits_end(src@, i + 1));
        }
        i += 1;
    }
    proof {
        assert(digits_end(src@, i as int) == i);
    }
    i
}

/// Collect the digit values of `src[a..b]` onto the end of `out`.
fn push_digits(src: &str, a: usize, b: usize, out: &mut Vec<u8>)
    requires
        a <= b <= src@.len(),
        forall|j: int| a <= j < b ==> is_dig(src@[j]),
    ensures
        final(out)@ == old(out)@ + dig_vals(src@, a as int, b as int),
{
    let mut i = a;
    while i < b
        invariant
            a <= i <= b <= src@.len(),
            forall|j: int| a <= j < b ==> is_dig(src@[j]),
            out@ == old(out)@ + dig_vals(src@, a as int, i as int),
        decreases b - i,
    {
        let c = src.get_char(i);
        let cu = c as u32;
        out.push((cu - 48) as u8);
        proof {
            assert(out@ =~= old(out)@ + dig_vals(src@, a as int, i + 1));
        }
        i += 1;
    }
    proof {
        assert(out@ =~= old(out)@ + dig_vals(src@, a as int, b as int));
    }
}

/// Parse the signed exponent filling `src[a..]`; `None` when it is malformed
/// or its magnitude exceeds the machine word.
fn parse_exponent(src: &str, len: usize, a: usize) -> (r: Option<isize>)
    requires
        src@.len() == len,
        a <= len,
    ensures
        ({
            match exp_part(src@, a as int) {
                Some((eneg, edigs)) => {
                    if mant_val(edigs) <= isize::MAX as int {
                        &&& r is Some
                        &&& (r matches Some(v) ==> v as int == (if eneg {
                            -(mant_val(edigs) as int)
                        } else {
                            mant_val(edigs) as int
                        }))
                    } else {
                        r is None
                    }
                },
                None => r is None,
            }
        }),
{
    if a >= len {
        return None;
    }
    let c0 = src.get_char(a);
    let neg = c0 == '-';
    let b = if c0 == '-' || c0 == '+' {
        a + 1
    } else {
        a
    };
    if b >= len {
        return None;
    }
    let e = scan_digits(src, len, b);
    if e != len {
        return None;
    }
    // accumulate the magnitude, rejecting overflow
    let ghost digs = crate::parse::dig_vals(src@, b as int, len as int);
    let mut mag: usize = 0;
    let mut i = b;
    proof {
        lemma_digits_end_bound(src@, b as int);
        assert(digs.subrange(0, 0) =~= Seq::<u8>::empty());
        assert(all_digits(digs)) by {
            assert forall|j: int| 0 <= j < digs.len() implies digs[j] <= 9 by {
                lemma_digits_end_digits(src@, b as int, b + j);
            }
        }
        match exp_part(src@, a as int) {
            Some(t) => {
                assert(t.1 =~= digs);
                assert(exp_part(src@, a as int) == Some((neg, digs)));
            },
            None => {
                assert(false);
            },
        }
    }
    while i < len
        invariant
            b <= i <= len,
            src@.len() == len,
            digits_end(src@, b as int) == len,
            digs == dig_vals(src@, b as int, len as int),
            all_digits(digs),
            exp_part(src@, a as int) == Some((neg, digs)),
            mag as int == mant_val(digs.subrange(0, i - b)),
            mag <= isize::MAX as usize,
        decreases len - i,
    {
        proof {
            lemma_digits_end_digits(src@, b as int, i as int);
        }
        let c = src.get_char(i);
        let cu = c as u32;
        let d = (cu - 48) as u8;
        if mag > (isize::MAX as usize - d as usize) / 10 {
            proof {
                // the full magnitude only grows from here
                lemma_mag_grows(digs, i - b);
                assert(digs[i - b] == d);
                let m = isize::MAX as int;
                assert((m - d) - 10 * ((m - d) / 10) <= 9);
                assert(10 * (mag as int) + d > m);
                assert(mant_val(digs) > isize::MAX as int);
            }
            return None;
        }
        let ghost pre = digs.subrange(0, i - b);
        mag = mag * 10 + d as usize;
        proof {
            assert(digs.subrange(0, i + 1 - b) =~= pre.push(d));
            crate::digits::lemma_mant_val_push(pre, d);
        }
        i += 1;
    }
    proof {
        assert(digs.subrange(0, len - b) =~= digs);
    }
    if neg {
        // the magnitude is at most isize::MAX, so the negation is in range
        Some((-(mag as i128)) as isize)
    } else {
        Some(mag as isize)
    }
}

/// A digit prefix never exceeds the whole run's value.
pub(crate) proof fn lemma_mag_grows(digs: Seq<u8>, k: int)
    requires
        0 <= k < digs.len(),
        all_digits(digs),
    ensures
        mant_val(digs) >= 10 * mant_val(digs.subrange(0, k)) + digs[k],
    decreases digs.len() - k,
{
    let prek = digs.subrange(0, k);
    let pre1 = digs.subrange(0, k + 1);
    assert(pre1 =~= prek.push(digs[k]));
    crate::digits::lemma_mant_val_push(prek, digs[k]);
    if k + 1 == digs.len() {
        assert(pre1 =~= digs);
    } else {
        lemma_mag_grows(digs, k + 1);
        assert(mant_val(digs) >= 10 * mant_val(pre1));
    }
}

/// The number of exponent markers (`e`/`E`) in `s[a..b]`.
pub open spec fn marker_count(s: Seq<char>, a: int, b: int) -> int
    decreases b - a,
{
    if a < 0 || a >= b {
        0
    } else {
        (if s[a] == 'e' || s[a] == 'E' {
            1int
        } else {
            0int
        }) + marker_count(s, a + 1, b)
    }
}

/// The first exponent marker at or after `a`, or the length when none.
pub open spec fn marker_find(s: Seq<char>, a: int) -> int
    decreases s.len() - a,
{
    if a < 0 || a >= s.len() {
        s.len() as int
    } else if s[a] == 'e' || s[a] == 'E' {
        a
    } else {
        marker_find(s, a + 1)
    }
}

/// The number of dots in `s[a..b]`.
pub open spec fn dot_count(s: Seq<char>, a: int, b: int) -> int
    decreases b - a,
{
    if a < 0 || a >= b {
        0
    } else {
        (if s[a] == '.' {
            1int
        } else {
            0int
        }) + dot_count(s, a + 1, b)
    }
}

/// The first dot in `s[a..b]`, or `b` when none.
pub open spec fn dot_find(s: Seq<char>, a: int, b: int) -> int
    decreases b - a,
{
    if a < 0 || a >= b {
        b
    } else if s[a] == '.' {
        a
    } else {
        dot_find(s, a + 1, b)
    }
}

/// The number of underscore spacers in `s[a..b]`.
pub open spec fn spacer_count(s: Seq<char>, a: int, b: int) -> int
    decreases b - a,
{
    if a < 0 || a >= b {
        0
    } else {
        (if s[a] == '_' {
            1int
        } else {
            0int
        }) + spacer_count(s, a + 1, b)
    }
}

/// The digit values in `s[a..b]`, skipping the position `dot` and every
/// underscore; `None` when any other character occurs.
pub open spec fn lit_digits(s: Seq<char>, a: int, b: int, dot: int) -> Option<Seq<u8>>
    decreases b - a,
{
    if a < 0 || a >= b {
        Some(Seq::<u8>::empty())
    } else if a == dot || s[a] == '_' {
        lit_digits(s, a + 1, b, dot)
    } else if is_dig(s[a]) {
        match lit_digits(s, a + 1, b, dot) {
            Some(r) => Some(seq![dig_val(s[a])] + r),
            None => None,
        }
    } else {
        None
    }
}

/// The number of leading zero digits.
pub open spec fn lz_count(m: Seq<u8>) -> int
    decreases m.len(),
{
    if m.len() == 0 || m[0] != 0 {
        0
    } else {
        1 + lz_count(m.subrange(1, m.len() as int))
    }
}

/// The number of trailing zero digits.
pub open spec fn tz_count(m: Seq<u8>) -> int
    decreases m.len(),
{
    if m.len() == 0 || m[m.len() - 1] != 0 {
        0
    } else {
        1 + tz_count(m.subrange(0, m.len() - 1))
    }
}

/// The decomposition of a literal with underscore spacers: the reduced
/// mantissa (leading and trailing zeros removed; empty for zero), the reduced
/// exponent, and the magnitude of the written exponent.  `None` when the
/// literal is malformed: no digits, a second dot or marker, a malformed
/// exponent, or a foreign character.
pub open spec fn lit_spec(s: Seq<char>) -> Option<(Seq<u8>, int, nat)> {
    let ep = marker_find(s, 0);
    if marker_count(s, 0, s.len() as int) >= 2 {
        None
    } else {
        let eres: Option<(bool, Seq<u8>)> = if ep == s.len() {
            Some((false, Seq::<u8>::empty()))
        } else {
            exp_part(s, ep + 1)
        };
        match eres {
            None => None,
            Some((eneg, edigs)) => {
                let mag = mant_val(edigs);
                let e0: int = if eneg {
                    -(mag as int)
                } else {
                    mag as int
                };
                if dot_count(s, 0, ep) >= 2 {
                    None
                } else {
                    let dp = dot_find(s, 0, ep);
                    match lit_digits(s, 0, ep, dp) {
                        None => None,
                        Some(raw) => {
                            if raw.len() == 0 {
                                None
                            } else {
                                let frac: int = if dp < ep {
                                    ep - dp - 1
                                } else {
                                    0
                                };
                                let sp = spacer_count(s, dp + 1, ep);
                                let lz = lz_count(raw);
                                let core = raw.subrange(lz, raw.len() as int);
                                let tz = tz_count(core);
                                let m = core.subrange(0, core.len() - tz);
                                if m.len() == 0 {
                                    Some((m, 0, mag))
                                } else {
                                    Some((m, e0 - frac + sp + tz, mag))
                                }
                            }
                        },
                    }
                }
            },
        }
    }
}

/// Whether the reduced literal fits the machine's exponent word.
pub open spec fn lit_fits(t: (Seq<u8>, int, nat)) -> bool {
    &&& t.2 <= isize::MAX as int
    &&& (t.0.len() == 0 || (isize::MIN as int <= t.1 <= isize::MAX as int))
}

/// Step rule: extending the scanned range by one character.
proof fn lemma_scan_snoc(s: Seq<char>, a: int, b: int, dot: int)
    requires
        0 <= a <= b < s.len(),
    ensures
        marker_count(s, a, b + 1) == marker_count(s, a, b) + (if s[b] == 'e' || s[b] == 'E' {
            1int
        } else {
            0int
        }),
        dot_count(s, a, b + 1) == dot_count(s, a, b) + (if s[b] == '.' {
            1int
        } else {
            0int
        }),
        spacer_count(s, a, b + 1) == spacer_count(s, a, b) + (if s[b] == '_' {
            1int
        } else {
            0int
        }),
        lit_digits(s, a, b + 1, dot) == (if b == dot || s[b] == '_' {
            lit_digits(s, a, b, dot)
        } else if is_dig(s[b]) {
            match lit_digits(s, a, b, dot) {
                Some(r) => Some(r.push(dig_val(s[b]))),
                None => None,
            }
        } else {
            None
        }),
    decreases b - a,
{
    if a < b {
        lemma_scan_snoc(s, a + 1, b, dot);
        if !(a == dot || s[a] == '_') && is_dig(s[a]) {
            match lit_digits(s, a + 1, b, dot) {
                Some(r) => {
                    if !(b == dot || s[b] == '_') && is_dig(s[b]) {
                        assert(seq![dig_val(s[a])] + r.push(dig_val(s[b])) =~= (seq![
                            dig_val(s[a]),
                        ] + r).push(dig_val(s[b])));
                    }
                },
                None => {},
            }
        }
    } else {
        assert(marker_count(s, b + 1, b + 1) == 0);
        assert(dot_count(s, b + 1, b + 1) == 0);
        assert(spacer_count(s, b + 1, b + 1) == 0);
        assert(lit_digits(s, a, b, dot) == Some(Seq::<u8>::empty()));
        if !(b == dot || s[b] == '_') && is_dig(s[b]) {
            assert(lit_digits(s, b + 1, b + 1, dot) == Some(Seq::<u8>::empty()));
            assert(seq![dig_val(s[b])] + Seq::<u8>::empty() =~= Seq::<u8>::empty().push(
                dig_val(s[b]),
            ));
        }
    }
}

/// The first marker at a witnessed position.
proof fn lemma_marker_find_at(s: Seq<char>, i: int)
    requires
        0 <= i <= s.len(),
        forall|j: int| 0 <= j < i ==> !(s[j] == 'e' || s[j] == 'E'),
        i < s.len() ==> (s[i] == 'e' || s[i] == 'E'),
    ensures
        marker_find(s, 0) == (if i < s.len() {
            i
        } else {
            s.len() as int
        }),
        marker_count(s, 0, i) == 0,
    decreases s.len(),
{
    lemma_marker_find_from(s, 0, i);
}

/// Helper: the first marker seen from `a`.
proof fn lemma_marker_find_from(s: Seq<char>, a: int, i: int)
    requires
        0 <= a <= i <= s.len(),
        forall|j: int| a <= j < i ==> !(s[j] == 'e' || s[j] == 'E'),
        i < s.len() ==> (s[i] == 'e' || s[i] == 'E'),
    ensures
        marker_find(s, a) == (if i < s.len() {
            i
        } else {
            s.len() as int
        }),
        marker_count(s, a, i) == 0,
    decreases i - a,
{
    if a < i {
        lemma_marker_find_from(s, a + 1, i);
    }
}

/// The first dot within a range, at a witnessed position.
proof fn lemma_dot_find_from(s: Seq<char>, a: int, i: int, b: int)
    requires
        0 <= a <= i <= b <= s.len(),
        forall|j: int| a <= j < i ==> s[j] != '.',
        i < b ==> s[i] == '.',
    ensures
        dot_find(s, a, b) == (if i < b {
            i
        } else {
            b
        }),
        dot_count(s, a, i) == 0,
    decreases i - a,
{
    if a < i {
        lemma_dot_find_from(s, a + 1, i, b);
    }
}

/// Counts only grow with the range.
proof fn lemma_count_mono(s: Seq<char>, a: int, b1: int, b2: int)
    requires
        0 <= a <= b1 <= b2 <= s.len(),
    ensures
        marker_count(s, a, b1) <= marker_count(s, a, b2),
        dot_count(s, a, b1) <= dot_count(s, a, b2),
    decreases b2 - b1,
{
    if b1 < b2 {
        lemma_scan_snoc(s, a, b1, -1);
        lemma_count_mono(s, a, b1 + 1, b2);
    }
}

/// A malformed prefix stays malformed.
proof fn lemma_lit_digits_none(s: Seq<char>, a: int, b1: int, b2: int, dot: int)
    requires
        0 <= a <= b1 <= b2 <= s.len(),
        lit_digits(s, a, b1, dot) is None,
    ensures
        lit_digits(s, a, b2, dot) is None,
    decreases b1 - a,
{
    if a < b1 {
        if a == dot || s[a] == '_' {
            lemma_lit_digits_none(s, a + 1, b1, b2, dot);
        } else if is_dig(s[a]) {
            lemma_lit_digits_none(s, a + 1, b1, b2, dot);
        }
    }
}

/// Leading zeros count through a zero prefix.
proof fn lemma_lz_of_padded(m: Seq<u8>, l: nat)
    requires
        m.len() == 0 || m[0] != 0,
    ensures
        lz_count(crate::digits::zeros(l) + m) == l,
        (crate::digits::zeros(l) + m).subrange(l as int, (l + m.len()) as int) =~= m,
    decreases l,
{
    let w = crate::digits::zeros(l) + m;
    if l == 0 {
        assert(w =~= m);
    } else {
        assert(w[0] == 0);
        assert(w.subrange(1, w.len() as int) =~= crate::digits::zeros((l - 1) as nat) + m);
        lemma_lz_of_padded(m, (l - 1) as nat);
    }
}

/// Trailing zeros count through a zero suffix.
proof fn lemma_tz_of_padded(m: Seq<u8>, p: nat)
    requires
        m.len() == 0 || m[m.len() - 1] != 0,
    ensures
        tz_count(m + crate::digits::zeros(p)) == p,
        (m + crate::digits::zeros(p)).subrange(0, m.len() as int) =~= m,
    decreases p,
{
    let w = m + crate::digits::zeros(p);
    if p == 0 {
        assert(w =~= m);
    } else {
        assert(w[w.len() - 1] == 0);
        assert(w.subrange(0, w.len() - 1) =~= m + crate::digits::zeros((p - 1) as nat));
        lemma_tz_of_padded(m, (p - 1) as nat);
    }
}

/// Parse a decimal literal with optional underscore digit-group separators
/// into reduced raw parts: the canonical mantissa digits and the exponent, or
/// `None` for zero.  Used to expand literals into prebuilt constants.
#[verifier::rlimit(100)]
pub fn parse_scientific(input: &str) -> (r: Result<Option<(Vec<u8>, isize)>, ()>)
    requires
        input@.len() <= LEN_LIMIT,
    ensures
        r is Err <==> !(lit_spec(input@) matches Some(t) && lit_fits(t)),
        r matches Ok(q) ==> (lit_spec(input@) matches Some(t) && {
            &&& (q is None <==> t.0.len() == 0)
            &&& (q matches Some(pair) ==> pair.0@ == t.0 && pair.1 as int == t.1)
        }),
        r matches Ok(q) ==> (q matches Some(pair) ==> {
            &&& all_digits(pair.0@)
            &&& pair.0@.len() > 0
            &&& pair.0@[0] != 0
            &&& pair.0@[pair.0@.len() - 1] != 0
        }),
{
    let ghost s = input@;
    let len = input.unicode_len();
    // locate the single exponent marker, if any
    let mut epos: usize = len;
    let mut i: usize = 0;
    while i < len
        invariant
            i <= len,
            s == input@,
            s.len() == len,
            epos <= len,
            epos < len ==> epos < i,
            forall|j: int|
                0 <= j < i ==> ((s[j] == 'e' || s[j] == 'E') <==> (epos < len && j
                    == epos as int)),
            marker_count(s, 0, i as int) == (if epos < len {
                1int
            } else {
                0int
            }),
        decreases len - i,
    {
        let c = input.get_char(i);
        proof {
            lemma_scan_snoc(s, 0, i as int, -1);
        }
        if c == 'e' || c == 'E' {
            if epos != len {
                proof {
                    lemma_count_mono(s, 0, i + 1, len as int);
                    assert(marker_count(s, 0, s.len() as int) >= 2);
                }
                return Err(());
            }
            epos = i;
        }
        i += 1;
    }
    proof {
        if epos < len {
            lemma_marker_find_at(s, epos as int);
        } else {
            lemma_marker_find_at(s, len as int);
        }
        assert(marker_find(s, 0) == epos as int);
        assert(marker_count(s, 0, s.len() as int) < 2);
    }
    // parse the exponent half, defaulting to zero
    let mut exponent: i128 = 0;
    let ghost mag: nat = 0;
    if epos != len {
        match parse_exponent(input, len, epos + 1) {
            Some(v) => {
                exponent = v as i128;
                proof {
                    match exp_part(s, epos + 1) {
                        Some(t) => {
                            mag = mant_val(t.1);
                        },
                        None => {
                            assert(false);
                        },
                    }
                }
            },
            None => {
                proof {
                    match exp_part(s, epos + 1) {
                        Some(t) => {
                            // only an oversized written exponent remains
                            assert(mant_val(t.1) > isize::MAX as int);
                            match lit_spec(s) {
                                Some(u) => {
                                    assert(u.2 == mant_val(t.1));
                                    assert(!lit_fits(u));
                                },
                                None => {},
                            }
                        },
                        None => {
                            assert(lit_spec(s) is None);
                        },
                    }
                }
                return Err(());
            },
        }
    } else {
        proof {
            assert(mant_val(Seq::<u8>::empty()) == 0);
        }
    }
    let ghost e0: int = exponent as int;
    proof {
        assert(mag <= isize::MAX as int);
    }
    // locate the single decimal dot in the mantissa half
    let mut dot: usize = epos;
    let mut j: usize = 0;
    while j < epos
        invariant
            j <= epos,
            epos <= len,
            s == input@,
            s.len() == len,
            dot <= epos,
            dot < epos ==> dot < j,
            forall|jj: int| 0 <= jj < j ==> ((s[jj] == '.') <==> (dot < epos && jj == dot as int)),
            dot_count(s, 0, j as int) == (if dot < epos {
                1int
            } else {
                0int
            }),
            marker_find(s, 0) == epos as int,
            marker_count(s, 0, s.len() as int) < 2,
            epos < len ==> exp_part(s, epos as int + 1) is Some,
        decreases epos - j,
    {
        let c = input.get_char(j);
        proof {
            lemma_scan_snoc(s, 0, j as int, -1);
        }
        if c == '.' {
            if dot != epos {
                proof {
                    lemma_count_mono(s, 0, j + 1, epos as int);
                    assert(dot_count(s, 0, epos as int) >= 2);
                }
                return Err(());
            }
            dot = j;
        }
        j += 1;
    }
    proof {
        if dot < epos {
            lemma_dot_find_from(s, 0, dot as int, epos as int);
        } else {
            lemma_dot_find_from(s, 0, epos as int, epos as int);
        }
        assert(dot_find(s, 0, epos as int) == dot as int);
        assert(dot_count(s, 0, epos as int) < 2) by {
            lemma_count_mono(s, 0, j as int, epos as int);
        }
    }
    let ghost frac: int = if (dot as int) < epos as int {
        epos - dot - 1
    } else {
        0
    };
    // every place after the dot lowers the exponent, spacers excepted
    if dot != epos {
        exponent = exponent - ((epos - dot - 1) as i128);
    }
    let mut mantissa: Vec<u8> = Vec::new();
    let mut leading_zeros = false;
    let ghost mut lzc: nat = 0;
    let mut k: usize = 0;
    proof {
        assert(lit_digits(s, 0, 0, dot as int) == Some(Seq::<u8>::empty()));
        assert(crate::digits::zeros(0) + mantissa@ =~= Seq::<u8>::empty());
        assert(spacer_count(s, dot + 1, 0) == 0);
    }
    while k < epos
        invariant
            k <= epos,
            epos <= len,
            len <= LEN_LIMIT,
            s == input@,
            s.len() == len,
            dot <= epos,
            all_digits(mantissa@),
            mantissa@.len() + lzc <= k,
            mantissa@.len() > 0 ==> mantissa@[0] != 0,
            leading_zeros == (lzc > 0),
            lit_digits(s, 0, k as int, dot as int) == Some(
                crate::digits::zeros(lzc) + mantissa@,
            ),
            exponent == e0 - frac + spacer_count(s, dot + 1, k as int),
            -0x8000_0000_0000_0000i128 - 0x2000_0000i128 <= exponent,
            exponent <= 0x8000_0000_0000_0000i128 + k as i128,
            frac == (if (dot as int) < epos as int {
                epos - dot - 1
            } else {
                0int
            }),
            -(isize::MAX as int) <= e0 <= isize::MAX as int,
            marker_find(s, 0) == epos as int,
            marker_count(s, 0, s.len() as int) < 2,
            epos < len ==> exp_part(s, epos as int + 1) is Some,
            dot_find(s, 0, epos as int) == dot as int,
            dot_count(s, 0, epos as int) < 2,
            mag <= isize::MAX as int,
            e0 == (if epos < len {
                match exp_part(s, epos as int + 1) {
                    Some(t) => (if t.0 {
                        -(mant_val(t.1) as int)
                    } else {
                        mant_val(t.1) as int
                    }),
                    None => 0int,
                }
            } else {
                0int
            }),
            mag == (if epos < len {
                match exp_part(s, epos as int + 1) {
                    Some(t) => mant_val(t.1),
                    None => 0nat,
                }
            } else {
                0nat
            }),
        decreases epos - k,
    {
        let c = input.get_char(k);
        proof {
            lemma_scan_snoc(s, 0, k as int, dot as int);
            if dot + 1 <= k {
                lemma_scan_snoc(s, dot + 1, k as int, dot as int);
            }
        }
        if k == dot {
        } else if c == '_' {
            if k > dot {
                exponent = exponent + 1;
            }
        } else {
            let cu = c as u32;
            if !(48 <= cu && cu <= 57) {
                proof {
                    lemma_lit_digits_none(s, 0, k + 1, epos as int, dot as int);
                }
                return Err(());
            }
            let d = (cu - 48) as u8;
            if mantissa.len() == 0 && d == 0 {
                leading_zeros = true;
                proof {
                    lzc = lzc + 1;
                    assert(crate::digits::zeros(lzc) + mantissa@ =~= (crate::digits::zeros(
                        (lzc - 1) as nat,
                    ) + mantissa@).push(0u8));
                }
            } else {
                let ghost oldm = mantissa@;
                mantissa.push(d);
                proof {
                    assert(crate::digits::zeros(lzc) + mantissa@ =~= (crate::digits::zeros(lzc)
                        + oldm).push(d));
                }
            }
        }
        k += 1;
    }
    let ghost raw = crate::digits::zeros(lzc) + mantissa@;
    let ghost core0 = mantissa@;
    let ghost entry_exp: int = exponent as int;
    let ghost mut pc: nat = 0;
    // reduce: trailing zeros move into the exponent
    while mantissa.len() > 0 && mantissa[mantissa.len() - 1] == 0
        invariant
            all_digits(core0),
            core0.len() > 0 ==> core0[0] != 0,
            core0 =~= mantissa@ + crate::digits::zeros(pc),
            all_digits(mantissa@),
            mantissa@.len() > 0 ==> mantissa@[0] != 0,
            exponent == entry_exp + pc,
            pc <= core0.len(),
            core0.len() <= LEN_LIMIT,
            -0x8000_0000_0000_0000i128 - 0x2000_0000i128 <= entry_exp,
            entry_exp <= 0x8000_0000_0000_0000i128 + 0x2000_0000i128,
            s == input@,
            s.len() == len,
            epos <= len,
            dot <= epos,
            marker_find(s, 0) == epos as int,
            marker_count(s, 0, s.len() as int) < 2,
            epos < len ==> exp_part(s, epos as int + 1) is Some,
            dot_find(s, 0, epos as int) == dot as int,
            dot_count(s, 0, epos as int) < 2,
            mag <= isize::MAX as int,
            raw == crate::digits::zeros(lzc) + core0,
            lit_digits(s, 0, epos as int, dot as int) == Some(raw),
            leading_zeros == (lzc > 0),
            entry_exp == e0 - frac + spacer_count(s, dot + 1, epos as int),
            frac == (if (dot as int) < epos as int {
                epos - dot - 1
            } else {
                0int
            }),
            e0 == (if epos < len {
                match exp_part(s, epos as int + 1) {
                    Some(t) => (if t.0 {
                        -(mant_val(t.1) as int)
                    } else {
                        mant_val(t.1) as int
                    }),
                    None => 0int,
                }
            } else {
                0int
            }),
            mag == (if epos < len {
                match exp_part(s, epos as int + 1) {
                    Some(t) => mant_val(t.1),
                    None => 0nat,
                }
            } else {
                0nat
            }),
        decreases mantissa@.len(),
    {
        let ghost before = mantissa@;
        mantissa.pop();
        proof {
            pc = pc + 1;
            assert(before =~= mantissa@.push(0u8));
            assert(core0 =~= mantissa@ + crate::digits::zeros(pc)) by {
                assert(mantissa@ + crate::digits::zeros(pc) =~= (mantissa@.push(0u8))
                    + crate::digits::zeros((pc - 1) as nat));
            }
        }
        exponent = exponent + 1;
    }
    proof {
        lemma_lz_of_padded(core0, lzc);
        lemma_tz_of_padded(mantissa@, pc);
        assert(raw.subrange(lzc as int, raw.len() as int) =~= core0);
        assert(core0.subrange(0, core0.len() - pc) =~= mantissa@);
        if mantissa@.len() == 0 {
            // the popped prefix keeps its non-zero first digit, so nothing
            // was popped from an empty core
            if core0.len() > 0 {
                assert(core0[0] != 0);
                assert(core0[0] == crate::digits::zeros(pc)[0]);
                assert(false);
            }
        }
    }
    if mantissa.len() == 0 {
        if leading_zeros {
            return Ok(None);
        }
        proof {
            assert(raw.len() == 0);
            assert(lit_spec(s) is None);
        }
        return Err(());
    }
    if exponent < isize::MIN as i128 || exponent > isize::MAX as i128 {
        return Err(());
    }
    Ok(Some((mantissa, exponent as isize)))
}

impl Scientific {
    /// Parse a decimal literal: optional sign, digits with an optional dot,
    /// and an optional `e`/`E` exponent.
    ///
    /// At the machine margin, a literal is also rejected when its written
    /// exponent magnitude exceeds the exponent word, or when the exponent of
    /// its most significant digit would: exponent overflow is the caller's
    /// responsibility, and such values could not be normalized.
    pub fn from_string(source: String) -> (r: Result<Scientific, ConversionError>)
        requires
            source@.len() <= LEN_LIMIT,
        ensures
            r is Err <==> !parse_accepts(source@),
            r is Err ==> r == Result::<Scientific, ConversionError>::Err(
                ConversionError::ParseError,
            ),
            r matches Ok(v) ==> (parse_spec(source@) matches Some(t) && {
                &&& v.wf()
                &&& (mant_val(t.1) == 0 ==> v.spec_is_zero())
                &&& (mant_val(t.1) != 0 ==> v.negative == t.0 && v.scale_ok(t.2) && v.val_at(t.2)
                    == (if t.0 {
                    -1int
                } else {
                    1int
                }) * mant_val(t.1))
            }),
    {
        let src = source.as_str();
        let len = src.unicode_len();
        if len == 0 {
            return Err(ConversionError::ParseError);
        }
        let c0 = src.get_char(0);
        let neg = c0 == '-';
        let st: usize = if c0 == '-' || c0 == '+' {
            1
        } else {
            0
        };
        if st >= len {
            return Err(ConversionError::ParseError);
        }
        let cs = src.get_char(st);
        let cs_u = cs as u32;
        if !((48 <= cs_u && cs_u <= 57) || cs == '.') {
            return Err(ConversionError::ParseError);
        }
        let p1 = scan_digits(src, len, st);
        proof {
            lemma_digits_end_bound(src@, st as int);
            assert(forall|j: int| st <= j < p1 ==> is_dig(src@[j])) by {
                assert forall|j: int| st <= j < p1 implies is_dig(src@[j]) by {
                    lemma_digits_end_digits(src@, st as int, j);
                }
            }
        }
        let mut digs: Vec<u8> = Vec::new();
        push_digits(src, st, p1, &mut digs);
        proof {
            assert(digs@ =~= dig_vals(src@, st as int, p1 as int));
        }
        if p1 == len {
            let v = normalize(neg, digs, 0);
            return Ok(v);
        }
        let cp = src.get_char(p1);
        if cp == '.' {
            let p2 = scan_digits(src, len, p1 + 1);
            proof {
                lemma_digits_end_bound(src@, p1 + 1);
                assert(forall|j: int| p1 + 1 <= j < p2 ==> is_dig(src@[j])) by {
                    assert forall|j: int| p1 + 1 <= j < p2 implies is_dig(src@[j]) by {
                        lemma_digits_end_digits(src@, p1 + 1, j);
                    }
                }
            }
            push_digits(src, p1 + 1, p2, &mut digs);
            proof {
                assert(digs@ =~= dig_vals(src@, st as int, p1 as int) + dig_vals(
                    src@,
                    p1 + 1,
                    p2 as int,
                ));
            }
            let dot = p2 - (p1 + 1);
            if digs.len() == 0 {
                return Err(ConversionError::ParseError);
            }
            if p2 == len {
                if dot > isize::MAX as usize {
                    return Err(ConversionError::ParseError);
                }
                let e = -(dot as i128);
                if e < isize::MIN as i128 || e as i128 + digs.len() as i128
                    > isize::MAX as i128 {
                    return Err(ConversionError::ParseError);
                }
                let v = normalize(neg, digs, e as isize);
                return Ok(v);
            }
            let ce = src.get_char(p2);
            if ce == 'e' || ce == 'E' {
                match parse_exponent(src, len, p2 + 1) {
                    Some(eraw) => {
                        let e = eraw as i128 - dot as i128;
                        if e < isize::MIN as i128 || e > isize::MAX as i128 || e
                            + digs.len() as i128 > isize::MAX as i128 {
                            return Err(ConversionError::ParseError);
                        }
                        let v = normalize(neg, digs, e as isize);
                        return Ok(v);
                    },
                    None => {
                        return Err(ConversionError::ParseError);
                    },
                }
            }
            return Err(ConversionError::ParseError);
        }
        if cp == 'e' || cp == 'E' {
            match parse_exponent(src, len, p1 + 1) {
                Some(eraw) => {
                    let e = eraw as i128;
                    if e + digs.len() as i128 > isize::MAX as i128 {
                        return Err(ConversionError::ParseError);
                    }
                    let v = normalize(neg, digs, eraw);
                    return Ok(v);
                },
                None => {
                    return Err(ConversionError::ParseError);
                },
            }
        }
        Err(ConversionError::ParseError)
    }
}

} // verus!
