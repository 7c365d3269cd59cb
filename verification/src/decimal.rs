//! Exact decimal numbers.
//!
//! Decimal strings (the DS and IS representations) are held exactly as a
//! sign, an integer mantissa and a power-of-ten scale: the value of `d` is
//! `(-1)^d.neg * d.mant / 10^d.scale`. All comparisons and the Hounsfield
//! rescale arithmetic are exact integer arithmetic on this form.
//!
//! The accepted grammar is an optional sign, digits with at most one point,
//! and an optional exponent: the mantissa must stay below 10^19, the final
//! scale within 0..=18 and the exponent within ±100. Inputs outside these
//! bounds are rejected.

use vstd::arithmetic::mul::lemma_mul_unary_negation;
use vstd::arithmetic::mul::lemma_mul_upper_bound;
use vstd::prelude::*;

verus! {

/// A signed decimal fraction: `(-1)^neg * mant / 10^scale`.
#[derive(PartialEq, Eq, Structural, Clone, Copy, Debug)]
pub struct Dec {
    pub neg: bool,
    pub mant: u64,
    pub scale: u8,
}

/// Ten to the power `e`.
pub open spec fn pow10(e: nat) -> nat
    decreases e,
{
    if e == 0 {
        1
    } else {
        10 * pow10((e - 1) as nat)
    }
}

/// A well-formed decimal: the scale is at most 18 and the mantissa is
/// below 10^19.
pub open spec fn dec_wf(d: Dec) -> bool {
    d.scale <= 18 && d.mant < pow10(19)
}

/// The signed numerator of `d`; the value of `d` is this over
/// `pow10(d.scale)`.
pub open spec fn dec_num(d: Dec) -> int {
    if d.neg {
        -(d.mant as int)
    } else {
        d.mant as int
    }
}

/// Whether the value of `a` is at most the value of `b`.
pub open spec fn s_dec_le(a: Dec, b: Dec) -> bool {
    dec_num(a) * pow10(b.scale as nat) <= dec_num(b) * pow10(a.scale as nat)
}

/// Whether the value of `d` is exactly one.
pub open spec fn s_dec_is_one(d: Dec) -> bool {
    dec_num(d) == pow10(d.scale as nat)
}

proof fn lemma_pow10_values()
    ensures
        pow10(0) == 1,
        pow10(1) == 10,
        pow10(2) == 100,
        pow10(3) == 1000,
        pow10(4) == 10000,
        pow10(5) == 100000,
        pow10(6) == 1000000,
        pow10(7) == 10000000,
        pow10(8) == 100000000,
        pow10(9) == 1000000000,
        pow10(10) == 10000000000,
        pow10(11) == 100000000000,
        pow10(12) == 1000000000000,
        pow10(13) == 10000000000000,
        pow10(14) == 100000000000000,
        pow10(15) == 1000000000000000,
        pow10(16) == 10000000000000000,
        pow10(17) == 100000000000000000,
        pow10(18) == 1000000000000000000,
        pow10(19) == 10000000000000000000,
{
    reveal_with_fuel(pow10, 21);
}

/// Ten to the power `e`.
pub fn pow10_u64(e: u8) -> (r: u64)
    requires
        e <= 19,
    ensures
        r == pow10(e as nat),
{
    proof {
        lemma_pow10_values();
    }
    match e {
        0 => 1,
        1 => 10,
        2 => 100,
        3 => 1000,
        4 => 10000,
        5 => 100000,
        6 => 1000000,
        7 => 10000000,
        8 => 100000000,
        9 => 1000000000,
        10 => 10000000000,
        11 => 100000000000,
        12 => 1000000000000,
        13 => 10000000000000,
        14 => 100000000000000,
        15 => 1000000000000000,
        16 => 10000000000000000,
        17 => 100000000000000000,
        18 => 1000000000000000000,
        _ => 10000000000000000000,
    }
}

/// Whether the value of `a` is at most the value of `b`.
pub fn dec_le(a: &Dec, b: &Dec) -> (r: bool)
    requires
        dec_wf(*a),
        dec_wf(*b),
    ensures
        r == s_dec_le(*a, *b),
{
    let pa = pow10_u64(a.scale);
    let pb = pow10_u64(b.scale);
    proof {
        lemma_pow10_values();
        lemma_pow10_mono(a.scale as nat, 18);
        lemma_pow10_mono(b.scale as nat, 18);
        lemma_mul_upper_bound(a.mant as int, pow10(19) as int - 1, pb as int, pow10(18) as int);
        lemma_mul_upper_bound(b.mant as int, pow10(19) as int - 1, pa as int, pow10(18) as int);
        lemma_mul_unary_negation(a.mant as int, pb as int);
        lemma_mul_unary_negation(b.mant as int, pa as int);
    }
    let lhs = a.mant as u128 * pb as u128;
    let rhs = b.mant as u128 * pa as u128;
    let li: i128 = if a.neg {
        -(lhs as i128)
    } else {
        lhs as i128
    };
    let ri: i128 = if b.neg {
        -(rhs as i128)
    } else {
        rhs as i128
    };
    li <= ri
}

/// The numeric value of the mantissa bound.
pub proof fn lemma_pow10_19_value()
    ensures
        pow10(19) == 10000000000000000000,
{
    lemma_pow10_values();
}

pub proof fn lemma_pow10_positive(a: nat)
    ensures
        pow10(a) >= 1,
    decreases a,
{
    if a > 0 {
        lemma_pow10_positive((a - 1) as nat);
    }
}

proof fn lemma_pow10_mono(a: nat, b: nat)
    ensures
        a <= b ==> pow10(a) <= pow10(b),
        pow10(a) >= 1,
    decreases b,
{
    lemma_pow10_positive(a);
    if b > 0 {
        lemma_pow10_mono(a, (b - 1) as nat);
        if a <= b - 1 {
            assert(pow10(b) == 10 * pow10((b - 1) as nat));
        }
    }
}

/// Whether the value of `d` is exactly one.
pub fn dec_is_one(d: &Dec) -> (r: bool)
    requires
        dec_wf(*d),
    ensures
        r == s_dec_is_one(*d),
{
    proof {
        lemma_pow10_mono(d.scale as nat, 18);
    }
    !d.neg && d.mant == pow10_u64(d.scale)
}

/// Integer division truncated toward zero.
pub open spec fn tdiv(n: int, den: int) -> int
    recommends
        den > 0,
{
    if n >= 0 {
        n / den
    } else {
        -((-n) / den)
    }
}

/// The nearest 16-bit signed value to `v`.
pub open spec fn sat_i16(v: int) -> i16 {
    if v < -0x8000 {
        -0x8000i16
    } else if v > 0x7FFF {
        0x7FFFi16
    } else {
        v as i16
    }
}

/// The value of `d` truncated toward zero, saturated to the 16-bit
/// signed range.
pub open spec fn s_dec_to_i16(d: Dec) -> i16 {
    sat_i16(tdiv(dec_num(d), pow10(d.scale as nat) as int))
}

/// The value of `d` truncated toward zero, saturated to the 16-bit
/// signed range.
pub fn dec_to_i16(d: &Dec) -> (r: i16)
    requires
        dec_wf(*d),
    ensures
        r == s_dec_to_i16(*d),
{
    let p = pow10_u64(d.scale);
    proof {
        lemma_pow10_mono(d.scale as nat, 18);
    }
    let q = d.mant / p;
    if d.neg {
        if q > 0x8000 {
            -0x8000
        } else {
            -(q as i64) as i16
        }
    } else {
        if q > 0x7FFF {
            0x7FFF
        } else {
            q as i16
        }
    }
}

/// `v` scaled by the decimal `s`, truncated toward zero and saturated to
/// the 16-bit signed range.
pub open spec fn s_mul_dec_i16(v: i16, s: Dec) -> i16 {
    sat_i16(tdiv(v as int * dec_num(s), pow10(s.scale as nat) as int))
}

/// `v` scaled by the decimal `s`, truncated toward zero and saturated to
/// the 16-bit signed range.
pub fn mul_dec_i16(v: i16, s: &Dec) -> (r: i16)
    requires
        dec_wf(*s),
    ensures
        r == s_mul_dec_i16(v, *s),
{
    let vneg = v < 0;
    let vmag: u64 = if v >= 0 {
        v as u64
    } else {
        (-(v as i32)) as u64
    };
    proof {
        lemma_pow10_values();
        lemma_pow10_mono(s.scale as nat, 18);
        lemma_mul_upper_bound(vmag as int, 0x8000, s.mant as int, pow10(19) as int - 1);
    }
    let prod: u128 = vmag as u128 * s.mant as u128;
    let p = pow10_u64(s.scale);
    let q: u128 = prod / p as u128;
    let rneg = vneg != s.neg;
    proof {
        assert(v as int * dec_num(*s) == if rneg {
            -(vmag as int * s.mant as int)
        } else {
            vmag as int * s.mant as int
        }) by (nonlinear_arith)
            requires
                vmag == (if v >= 0 {
                    v as int
                } else {
                    -(v as int)
                }),
                dec_num(*s) == (if s.neg {
                    -(s.mant as int)
                } else {
                    s.mant as int
                }),
                vneg == (v < 0),
                rneg == (vneg != s.neg);
    }
    if rneg {
        if q > 0x8000 {
            -0x8000
        } else {
            -(q as i64) as i16
        }
    } else {
        if q > 0x7FFF {
            0x7FFF
        } else {
            q as i16
        }
    }
}

/// Whether `b` is an ASCII decimal digit.
pub open spec fn s_is_digit(b: u8) -> bool {
    48 <= b && b <= 57
}

/// Whether `b` is an ASCII whitespace byte.
pub open spec fn s_is_ws(b: u8) -> bool {
    b == 9 || b == 10 || b == 11 || b == 12 || b == 13 || b == 32
}

/// The number written by a run of digit bytes, most significant first.
pub open spec fn s_digits_val(s: Seq<u8>) -> int
    decreases s.len(),
{
    if s.len() == 0 {
        0
    } else {
        s_digits_val(s.drop_last()) * 10 + (s.last() - 48)
    }
}

/// Whether every byte of `s` is a digit.
pub open spec fn s_all_digits(s: Seq<u8>) -> bool {
    forall|i: int| 0 <= i < s.len() ==> s_is_digit(s[i])
}

/// The first index at or after `from` holding `b`, or the length of `s`.
pub open spec fn s_find(s: Seq<u8>, from: int, b: u8) -> int
    decreases s.len() - from,
{
    if from < 0 || from >= s.len() {
        s.len() as int
    } else if s[from] == b {
        from
    } else {
        s_find(s, from + 1, b)
    }
}

/// The first index at or after `from` holding an exponent marker
/// (`e` or `E`), or the length of `s`.
pub open spec fn s_find_exp(s: Seq<u8>, from: int) -> int
    decreases s.len() - from,
{
    if from < 0 || from >= s.len() {
        s.len() as int
    } else if s[from] == 101 || s[from] == 69 {
        from
    } else {
        s_find_exp(s, from + 1)
    }
}

/// The first index at or after `from` holding a byte that is not
/// whitespace, or the length of `s`.
pub open spec fn s_skip_ws(s: Seq<u8>, from: int) -> int
    decreases s.len() - from,
{
    if from < 0 || from >= s.len() {
        s.len() as int
    } else if s_is_ws(s[from]) {
        s_skip_ws(s, from + 1)
    } else {
        from
    }
}

/// The end of `s` once trailing whitespace before `until` is dropped.
pub open spec fn s_trim_end(s: Seq<u8>, until: int) -> int
    decreases until,
{
    if until <= 0 {
        0
    } else if until > s.len() {
        s.len() as int
    } else if s_is_ws(s[until - 1]) {
        s_trim_end(s, until - 1)
    } else {
        until
    }
}

/// `s` without leading and trailing whitespace.
pub open spec fn s_trim(s: Seq<u8>) -> Seq<u8> {
    let a = s_skip_ws(s, 0);
    let b = s_trim_end(s, s.len() as int);
    if a < b {
        s.subrange(a, b)
    } else {
        Seq::empty()
    }
}

/// The exponent written at `epos` in `p` (the tail of the number), if the
/// tail is well formed: nothing (exponent zero), or a marker, an optional
/// sign and digits naming a value of at most 100.
pub open spec fn s_parse_exp(p: Seq<u8>, epos: int) -> Option<int> {
    if epos >= p.len() {
        Some(0)
    } else {
        let es = epos + 1;
        if es >= p.len() {
            None
        } else {
            let eneg = p[es] == 45;
            let ei: int = if p[es] == 45 || p[es] == 43 {
                es + 1
            } else {
                es
            };
            let ed = p.subrange(ei, p.len() as int);
            if ed.len() < 1 || !s_all_digits(ed) {
                None
            } else {
                let ev = s_digits_val(ed);
                if ev > 100 {
                    None
                } else {
                    Some(
                        if eneg {
                            -ev
                        } else {
                            ev
                        },
                    )
                }
            }
        }
    }
}

/// The decimal written by `p`: an optional sign, digits with at most one
/// point among them, and an optional exponent. `None` when the text is not
/// of that shape, when the mantissa reaches 10^19, or when the final scale
/// falls outside 0..=18.
pub open spec fn s_parse_dec(p: Seq<u8>) -> Option<Dec> {
    if p.len() == 0 {
        None
    } else {
        let neg = p[0] == 45;
        let i1: int = if p[0] == 45 || p[0] == 43 {
            1
        } else {
            0
        };
        let epos = s_find_exp(p, i1);
        let dot = s_find(p, i1, 46);
        let digits = if dot < epos {
            p.subrange(i1, dot) + p.subrange(dot + 1, epos)
        } else {
            p.subrange(i1, epos)
        };
        if digits.len() < 1 || !s_all_digits(digits) {
            None
        } else if dot < epos && s_find(p, dot + 1, 46) < epos {
            None
        } else {
            let m = s_digits_val(digits);
            if m >= pow10(19) {
                None
            } else {
                let scale0: int = if dot < epos {
                    epos - dot - 1
                } else {
                    0
                };
                match s_parse_exp(p, epos) {
                    None => None,
                    Some(e) => {
                        let ts = scale0 - e;
                        if ts < 0 {
                            if m * pow10((-ts) as nat) >= pow10(19) {
                                None
                            } else {
                                Some(Dec { neg, mant: (m * pow10((-ts) as nat)) as u64, scale: 0 })
                            }
                        } else if ts <= 18 {
                            Some(Dec { neg, mant: m as u64, scale: ts as u8 })
                        } else {
                            None
                        }
                    },
                }
            }
        }
    }
}

/// The decimals written by the backslash-separated pieces of `s` from
/// `from` on, each piece trimmed; `None` when any piece is malformed.
pub open spec fn s_ds_values(s: Seq<u8>, from: int) -> Option<Seq<Dec>>
    decreases s.len() - from,
{
    let pos = s_find(s, from, 92);
    if pos < from || pos > s.len() {
        None
    } else {
        let piece = s.subrange(from, pos);
        match s_parse_dec(s_trim(piece)) {
            None => None,
            Some(d) => if pos >= s.len() {
                Some(seq![d])
            } else {
                match s_ds_values(s, pos + 1) {
                    None => None,
                    Some(r) => Some(seq![d] + r),
                }
            },
        }
    }
}

/// Whether `b` is an ASCII whitespace byte.
fn is_ws(b: u8) -> (r: bool)
    ensures
        r == s_is_ws(b),
{
    b == 9 || b == 10 || b == 11 || b == 12 || b == 13 || b == 32
}

/// The first index at or after `from` holding `b`, or the length of `p`.
fn find_byte(p: &[u8], from: usize, b: u8) -> (r: usize)
    requires
        from <= p@.len(),
    ensures
        r == s_find(p@, from as int, b),
        from <= r <= p@.len(),
{
    let n = p.len();
    let mut i = from;
    while i < n
        invariant
            from <= i <= n,
            n == p@.len(),
            s_find(p@, from as int, b) == s_find(p@, i as int, b),
        decreases n - i,
    {
        if p[i] == b {
            return i;
        }
        i = i + 1;
    }
    n
}

/// The first index at or after `from` holding an exponent marker, or the
/// length of `p`.
fn find_exp_byte(p: &[u8], from: usize) -> (r: usize)
    requires
        from <= p@.len(),
    ensures
        r == s_find_exp(p@, from as int),
        from <= r <= p@.len(),
{
    let n = p.len();
    let mut i = from;
    while i < n
        invariant
            from <= i <= n,
            n == p@.len(),
            s_find_exp(p@, from as int) == s_find_exp(p@, i as int),
        decreases n - i,
    {
        if p[i] == 101 || p[i] == 69 {
            return i;
        }
        i = i + 1;
    }
    n
}

/// The first index of `p` holding a byte that is not whitespace, or the
/// length of `p`.
fn skip_ws_front(p: &[u8]) -> (r: usize)
    ensures
        r == s_skip_ws(p@, 0),
        r <= p@.len(),
{
    let n = p.len();
    let mut i: usize = 0;
    while i < n
        invariant
            i <= n,
            n == p@.len(),
            s_skip_ws(p@, 0) == s_skip_ws(p@, i as int),
        decreases n - i,
    {
        if !is_ws(p[i]) {
            return i;
        }
        i = i + 1;
    }
    n
}

/// The end of `p` once trailing whitespace is dropped.
fn trim_end_idx(p: &[u8]) -> (r: usize)
    ensures
        r == s_trim_end(p@, p@.len() as int),
        r <= p@.len(),
{
    let n = p.len();
    let mut j = n;
    while j > 0
        invariant
            j <= n,
            n == p@.len(),
            s_trim_end(p@, n as int) == s_trim_end(p@, j as int),
        decreases j,
    {
        if !is_ws(p[j - 1]) {
            return j;
        }
        j = j - 1;
    }
    0
}

proof fn lemma_digits_val_nonneg(s: Seq<u8>)
    requires
        s_all_digits(s),
    ensures
        s_digits_val(s) >= 0,
    decreases s.len(),
{
    if s.len() > 0 {
        assert(s_all_digits(s.drop_last()));
        lemma_digits_val_nonneg(s.drop_last());
    }
}

proof fn lemma_digits_val_step(s: Seq<u8>, k: int)
    requires
        0 <= k < s.len(),
    ensures
        s_digits_val(s.take(k + 1)) == 10 * s_digits_val(s.take(k)) + (s[k] - 48),
{
    assert(s.take(k + 1).drop_last() =~= s.take(k));
    assert(s.take(k + 1).last() == s[k]);
}

proof fn lemma_digits_val_mono(s: Seq<u8>, k: int)
    requires
        s_all_digits(s),
        0 <= k <= s.len(),
    ensures
        s_digits_val(s.take(k)) <= s_digits_val(s),
    decreases s.len() - k,
{
    if k == s.len() {
        assert(s.take(k) =~= s);
    } else {
        assert(s_all_digits(s.take(k))) by {
            assert(forall|i: int| 0 <= i < k ==> s.take(k)[i] == s[i]);
        }
        lemma_digits_val_nonneg(s.take(k));
        lemma_digits_val_step(s, k);
        lemma_digits_val_mono(s, k + 1);
    }
}

/// The number written by the digit bytes of `ds`, or `None` when it
/// reaches 10^19.
fn digits_val_exec(ds: &[u8]) -> (r: Option<u64>)
    requires
        s_all_digits(ds@),
    ensures
        match r {
            Some(m) => m == s_digits_val(ds@) && m < pow10(19),
            None => s_digits_val(ds@) >= pow10(19),
        },
{
    proof {
        lemma_pow10_values();
    }
    let n = ds.len();
    let mut m: u64 = 0;
    let mut k: usize = 0;
    while k < n
        invariant
            k <= n,
            n == ds@.len(),
            s_all_digits(ds@),
            m == s_digits_val(ds@.take(k as int)),
            m < pow10(19),
            pow10(19) == 10000000000000000000,
        decreases n - k,
    {
        let dv = (ds[k] - 48) as u64;
        let mu: u128 = m as u128 * 10 + dv as u128;
        proof {
            lemma_digits_val_step(ds@, k as int);
        }
        if mu >= 10000000000000000000u128 {
            proof {
                lemma_digits_val_mono(ds@, k as int + 1);
            }
            return None;
        }
        m = mu as u64;
        k = k + 1;
    }
    proof {
        assert(ds@.take(n as int) =~= ds@);
    }
    Some(m)
}

/// The number written by the digit bytes of `ds`, or `None` when it
/// exceeds 100.
fn digits_val_cap(ds: &[u8]) -> (r: Option<u64>)
    requires
        s_all_digits(ds@),
    ensures
        match r {
            Some(m) => m == s_digits_val(ds@) && m <= 100,
            None => s_digits_val(ds@) > 100,
        },
{
    let n = ds.len();
    let mut m: u64 = 0;
    let mut k: usize = 0;
    while k < n
        invariant
            k <= n,
            n == ds@.len(),
            s_all_digits(ds@),
            m == s_digits_val(ds@.take(k as int)),
            m <= 100,
        decreases n - k,
    {
        let dv = (ds[k] - 48) as u64;
        let mu: u64 = m * 10 + dv;
        proof {
            lemma_digits_val_step(ds@, k as int);
        }
        if mu > 100 {
            proof {
                lemma_digits_val_mono(ds@, k as int + 1);
            }
            return None;
        }
        m = mu;
        k = k + 1;
    }
    proof {
        assert(ds@.take(n as int) =~= ds@);
    }
    Some(m)
}

/// The decimal written by `p`, or `None` when `p` is not a decimal the
/// library can hold. The accepted shape is that of `s_parse_dec`.
#[verifier::loop_isolation(false)]
#[verifier::rlimit(60)]
pub fn parse_dec(p: &[u8]) -> (r: Option<Dec>)
    ensures
        r == s_parse_dec(p@),
        match r {
            Some(dd) => dec_wf(dd),
            None => true,
        },
{
    proof {
        lemma_pow10_values();
    }
    let n = p.len();
    if n == 0 {
        return None;
    }
    let neg = p[0] == 45;
    let i1: usize = if p[0] == 45 || p[0] == 43 {
        1
    } else {
        0
    };
    let epos = find_exp_byte(p, i1);
    let dot = find_byte(p, i1, 46);
    let ghost digits: Seq<u8> = if dot < epos {
        p@.subrange(i1 as int, dot as int) + p@.subrange(dot as int + 1, epos as int)
    } else {
        p@.subrange(i1 as int, epos as int)
    };
    let mut ds: Vec<u8> = Vec::new();
    if dot < epos {
        let mut j = i1;
        while j < dot
            invariant
                i1 <= j <= dot <= p@.len(),
                p@.len() <= usize::MAX,
                ds@ == p@.subrange(i1 as int, j as int),
            decreases dot - j,
        {
            ds.push(p[j]);
            j = j + 1;
            proof {
                assert(ds@ =~= p@.subrange(i1 as int, j as int));
            }
        }
        let mut j2 = dot + 1;
        while j2 < epos
            invariant
                i1 <= dot < j2 <= epos <= p@.len(),
                p@.len() <= usize::MAX,
                ds@ == p@.subrange(i1 as int, dot as int) + p@.subrange(dot as int + 1, j2 as int),
            decreases epos - j2,
        {
            ds.push(p[j2]);
            j2 = j2 + 1;
            proof {
                assert(ds@ =~= p@.subrange(i1 as int, dot as int) + p@.subrange(
                    dot as int + 1,
                    j2 as int,
                ));
            }
        }
        proof {
            assert(ds@ =~= digits);
        }
    } else {
        let mut j = i1;
        while j < epos
            invariant
                i1 <= j <= epos <= p@.len(),
                p@.len() <= usize::MAX,
                ds@ == p@.subrange(i1 as int, j as int),
            decreases epos - j,
        {
            ds.push(p[j]);
            j = j + 1;
            proof {
                assert(ds@ =~= p@.subrange(i1 as int, j as int));
            }
        }
        proof {
            assert(ds@ =~= digits);
        }
    }
    if ds.len() == 0 {
        return None;
    }
    let dn = ds.len();
    let mut k: usize = 0;
    while k < dn
        invariant
            k <= dn,
            dn == ds@.len(),
            ds@ == digits,
            forall|i: int| 0 <= i < k ==> s_is_digit(ds@[i]),
        decreases dn - k,
    {
        let b = ds[k];
        if !(48 <= b && b <= 57) {
            proof {
                assert(!s_all_digits(digits));
            }
            return None;
        }
        k = k + 1;
    }
    proof {
        assert(s_all_digits(digits));
    }
    if dot < epos {
        let d2 = find_byte(p, dot + 1, 46);
        if d2 < epos {
            return None;
        }
    }
    let m = match digits_val_exec(&ds) {
        Some(m) => m,
        None => {
            return None;
        },
    };
    let scale0: usize = if dot < epos {
        epos - dot - 1
    } else {
        0
    };
    let e: i128;
    if epos >= n {
        e = 0;
    } else {
        let es = epos + 1;
        if es >= n {
            return None;
        }
        let eneg = p[es] == 45;
        let ei: usize = if p[es] == 45 || p[es] == 43 {
            es + 1
        } else {
            es
        };
        let ed = crate::bytes::bytes_of(p, ei, n - ei);
        proof {
            assert(ed@ =~= p@.subrange(ei as int, n as int));
        }
        if ed.len() == 0 {
            return None;
        }
        let edn = ed.len();
        let mut k2: usize = 0;
        while k2 < edn
            invariant
                k2 <= edn,
                edn == ed@.len(),
                forall|i: int| 0 <= i < k2 ==> s_is_digit(ed@[i]),
            decreases edn - k2,
        {
            let b = ed[k2];
            if !(48 <= b && b <= 57) {
                proof {
                    assert(!s_all_digits(ed@));
                }
                return None;
            }
            k2 = k2 + 1;
        }
        proof {
            assert(s_all_digits(ed@));
        }
        let ev = match digits_val_cap(&ed) {
            Some(v) => v,
            None => {
                return None;
            },
        };
        e = if eneg {
            -(ev as i128)
        } else {
            ev as i128
        };
    }
    let ts: i128 = scale0 as i128 - e;
    if ts < 0 {
        let kk: i128 = -ts;
        if kk <= 19 {
            let pw = pow10_u64(kk as u8);
            proof {
                lemma_mul_upper_bound(m as int, pow10(19) as int - 1, pw as int, pow10(19) as int);
            }
            let prod: u128 = m as u128 * pw as u128;
            if prod >= 10000000000000000000u128 {
                None
            } else {
                Some(Dec { neg, mant: prod as u64, scale: 0 })
            }
        } else {
            if m == 0 {
                proof {
                    lemma_pow10_positive((-ts) as nat);
                }
                Some(Dec { neg, mant: 0, scale: 0 })
            } else {
                proof {
                    lemma_pow10_mono(19, (-ts) as nat);
                    vstd::arithmetic::mul::lemma_mul_inequality(1, m as int, pow10((-ts) as nat) as int);
                }
                None
            }
        }
    } else if ts <= 18 {
        Some(Dec { neg, mant: m, scale: ts as u8 })
    } else {
        None
    }
}

/// `pre` prepended to the pieces of `o`, or `None` when `o` is `None`.
pub open spec fn s_compose(pre: Seq<Dec>, o: Option<Seq<Dec>>) -> Option<Seq<Dec>> {
    match o {
        None => None,
        Some(r) => Some(pre + r),
    }
}

/// The decimals of the backslash-separated region `d[off .. off + n]`,
/// each piece trimmed and parsed; `None` when any piece is malformed.
#[verifier::loop_isolation(false)]
pub fn parse_ds(d: &[u8], off: usize, n: usize) -> (r: Option<Vec<Dec>>)
    requires
        off + n <= d@.len(),
    ensures
        match r {
            Some(v) => s_ds_values(d@.subrange(off as int, off + n), 0) == Some(v@) && (forall|
                i: int,
            |
                0 <= i < v@.len() ==> dec_wf(v@[i])),
            None => s_ds_values(d@.subrange(off as int, off + n), 0) is None,
        },
{
    let region = crate::bytes::bytes_of(d, off, n);
    let rn = region.len();
    let mut acc: Vec<Dec> = Vec::new();
    let mut from: usize = 0;
    loop
        invariant
            from <= rn,
            rn == region@.len(),
            s_ds_values(region@, 0) == s_compose(acc@, s_ds_values(region@, from as int)),
            forall|i: int| 0 <= i < acc@.len() ==> dec_wf(acc@[i]),
        decreases rn - from,
    {
        let pos = find_byte(region.as_slice(), from, 92);
        let praw = crate::bytes::bytes_of(region.as_slice(), from, pos - from);
        let a = skip_ws_front(praw.as_slice());
        let b = trim_end_idx(praw.as_slice());
        let piece: Vec<u8> = if a < b {
            crate::bytes::bytes_of(praw.as_slice(), a, b - a)
        } else {
            Vec::new()
        };
        proof {
            assert(praw@ == region@.subrange(from as int, pos as int));
            if a < b {
                assert(piece@ =~= s_trim(praw@));
            } else {
                assert(piece@ =~= s_trim(praw@));
            }
        }
        match parse_dec(piece.as_slice()) {
            None => {
                return None;
            },
            Some(dd) => {
                let ghost acc_old = acc@;
                acc.push(dd);
                if pos >= rn {
                    proof {
                        assert(s_ds_values(region@, from as int) == Some(seq![dd]));
                        assert(acc_old + seq![dd] =~= acc@);
                    }
                    return Some(acc);
                }
                proof {
                    let tail = s_ds_values(region@, pos as int + 1);
                    assert(s_ds_values(region@, from as int) == s_compose(seq![dd], tail));
                    match tail {
                        None => {},
                        Some(t) => {
                            assert(acc_old + (seq![dd] + t) =~= (acc_old + seq![dd]) + t);
                            assert(acc_old + seq![dd] =~= acc@);
                        },
                    }
                }
                from = pos + 1;
            },
        }
    }
}

} // verus!
