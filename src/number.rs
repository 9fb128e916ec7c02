use vstd::prelude::*;
use crate::ratio::{CalcError, Ratio, LIMIT, abs, make_reduced, reduce};

verus! {

pub open spec fn is_digit(c: char) -> bool {
    '0' <= c && c <= '9'
}

pub open spec fn digit_value(c: char) -> int {
    c as int - '0' as int
}

pub open spec fn digit_char(d: int) -> char {
    (d + '0' as int) as char
}

/// What a left-to-right reading of a decimal literal has gathered: the digits
/// read as one integer, ten to the number of digits after the point, that
/// number itself, whether a point and a digit were seen, and whether every
/// character so far fits the shape `digits [. digits]`.
pub struct DecimalScan {
    pub digits: int,
    pub den: int,
    pub scale: nat,
    pub dot: bool,
    pub seen_digit: bool,
    pub valid: bool,
}

pub open spec fn scan_decimal(b: Seq<char>) -> DecimalScan
    decreases b.len(),
{
    if b.len() == 0 {
        DecimalScan { digits: 0, den: 1, scale: 0, dot: false, seen_digit: false, valid: true }
    } else {
        let p = scan_decimal(b.drop_last());
        let c = b.last();
        if !p.valid {
            p
        } else if is_digit(c) {
            DecimalScan {
                digits: p.digits * 10 + digit_value(c),
                den: if p.dot { p.den * 10 } else { p.den },
                scale: if p.dot { p.scale + 1 } else { p.scale },
                seen_digit: true,
                ..p
            }
        } else if c == '.' && !p.dot {
            DecimalScan { dot: true, ..p }
        } else {
            DecimalScan { valid: false, ..p }
        }
    }
}

/// The literal has a leading minus sign.
pub open spec fn has_sign(acc: Seq<char>) -> bool {
    acc.len() > 0 && acc[0] == '-'
}

pub open spec fn unsigned_part(acc: Seq<char>) -> Seq<char> {
    if has_sign(acc) {
        acc.skip(1)
    } else {
        acc
    }
}

/// Largest digit string, read as one integer, and largest power of ten that
/// a literal may have; its value must then fit as a fraction in lowest terms.
pub const WIDE: i128 = 10_000_000_000_000_000_000_000_000_000_000_000_000;

/// A number literal is an optional `-`, then digits with at most one `.`, and
/// at least one digit; its value is exact, in lowest terms.
pub open spec fn parse_spec(acc: Seq<char>) -> Result<Ratio, CalcError> {
    let d = scan_decimal(unsigned_part(acc));
    if !d.valid || !d.seen_digit {
        Err(CalcError::MalformedNumber)
    } else if d.digits > WIDE || d.den > WIDE {
        Err(CalcError::Overflow)
    } else {
        make_reduced(if has_sign(acc) { -d.digits } else { d.digits }, d.den)
    }
}

proof fn lemma_invalid_stays(b: Seq<char>, i: int)
    requires
        0 <= i <= b.len(),
        !scan_decimal(b.take(i)).valid,
    ensures
        !scan_decimal(b).valid,
    decreases b.len() - i,
{
    if i < b.len() {
        assert(b.take(i + 1).drop_last() =~= b.take(i));
        lemma_invalid_stays(b, i + 1);
    } else {
        assert(b.take(i) =~= b);
    }
}

/// A scan keeps its integer part non-negative and its denominator positive.
pub proof fn lemma_scan_bounds(b: Seq<char>)
    ensures
        scan_decimal(b).digits >= 0,
        scan_decimal(b).den >= 1,
    decreases b.len(),
{
    if b.len() > 0 {
        lemma_scan_bounds(b.drop_last());
    }
}

/// Reads a number literal; besides its value, hands back its digits read as
/// one integer, ten to the number of fractional digits, and that number.
pub(crate) fn parse_decimal(acc: &Vec<char>) -> (r: Result<(Ratio, u128, u128, usize), CalcError>)
    ensures
        r is Ok ==> parse_spec(acc@) == Ok::<Ratio, CalcError>(r->Ok_0.0) && r->Ok_0.0.wf()
            && r->Ok_0.1 == scan_decimal(unsigned_part(acc@)).digits
            && r->Ok_0.2 == scan_decimal(unsigned_part(acc@)).den
            && r->Ok_0.3 == scan_decimal(unsigned_part(acc@)).scale && r->Ok_0.2 > 0,
        r is Err ==> parse_spec(acc@) == Err::<Ratio, CalcError>(r->Err_0),
{
    let neg = acc.len() > 0 && acc[0] == '-';
    let start: usize = if neg { 1 } else { 0 };
    let ghost body = unsigned_part(acc@);
    let mut digits: i128 = 0;
    let mut den: i128 = 1;
    let mut scale: usize = 0;
    let mut dot = false;
    let mut seen_digit = false;
    let mut big = false;
    let mut i: usize = start;
    assert(body.take(0) =~= Seq::<char>::empty());
    while i < acc.len()
        invariant
            start <= i <= acc.len(),
            body == acc@.skip(start as int),
            body == unsigned_part(acc@),
            neg == has_sign(acc@),
            start == (if neg { 1usize } else { 0usize }),
            body.len() == acc.len() - start,
            ({
                let s = scan_decimal(body.take(i - start));
                &&& s.valid
                &&& s.dot == dot
                &&& s.seen_digit == seen_digit
                &&& s.scale == scale
                &&& s.digits >= 0
                &&& s.den >= 1
                &&& scale <= i
                &&& !big ==> s.digits == digits && s.den == den && s.digits <= WIDE && s.den <= WIDE
                &&& big ==> (s.digits > WIDE || s.den > WIDE)
            }),
        decreases acc.len() - i,
    {
        let c = acc[i];
        let ghost j = i - start;
        assert(body.take(j + 1).drop_last() =~= body.take(j));
        assert(body.take(j + 1).last() == c);
        if '0' <= c && c <= '9' {
            let d = (c as u32 - '0' as u32) as i128;
            if !big {
                let nd = digits * 10 + d;
                let nden = if dot { den * 10 } else { den };
                if nd > WIDE || nden > WIDE {
                    big = true;
                } else {
                    digits = nd;
                    den = nden;
                }
            }
            if dot {
                scale = scale + 1;
            }
            seen_digit = true;
        } else if c == '.' && !dot {
            dot = true;
        } else {
            proof {
                assert(!scan_decimal(body.take(j + 1)).valid);
                lemma_invalid_stays(body, j + 1);
                assert(!scan_decimal(body).valid);
            }
            return Err(CalcError::MalformedNumber);
        }
        i = i + 1;
    }
    assert(body.take(i - start) =~= body);
    if !seen_digit {
        Err(CalcError::MalformedNumber)
    } else if big {
        Err(CalcError::Overflow)
    } else {
        let n = if neg { -digits } else { digits };
        match reduce(n, den) {
            Ok(v) => {
                proof {
                    crate::ratio::lemma_reduced_wf(n as int, den as int);
                }
                Ok((v, digits as u128, den as u128, scale))
            },
            Err(e) => Err(e),
        }
    }
}

/// Reads a number literal: an optional `-`, then digits with at most one `.`.
pub fn parse_number(acc: &Vec<char>) -> (r: Result<Ratio, CalcError>)
    ensures
        r == parse_spec(acc@),
        r is Ok ==> r->Ok_0.wf(),
{
    match parse_decimal(acc) {
        Ok((v, _, _, _)) => Ok(v),
        Err(e) => Err(e),
    }
}

/// Relies on `String::push`: the character is appended at the end.
pub assume_specification[ String::push ](s: &mut String, ch: char)
    ensures
        final(s)@ == old(s)@.push(ch),
;

/// The decimal digits of `n`, most significant first, without leading zeros.
pub open spec fn digits_of(n: nat) -> Seq<char>
    decreases n,
{
    if n < 10 {
        seq![digit_char(n as int)]
    } else {
        digits_of(n / 10).push(digit_char((n % 10) as int))
    }
}

/// The last `k` decimal digits of `n`, with leading zeros.
pub open spec fn padded_digits(n: nat, k: nat) -> Seq<char>
    decreases k,
{
    if k == 0 {
        Seq::<char>::empty()
    } else {
        padded_digits(n / 10, (k - 1) as nat).push(digit_char((n % 10) as int))
    }
}

/// The magnitude of `r` in ten-thousandths, rounded to nearest, halves away
/// from zero.
pub open spec fn round4(r: Ratio) -> nat {
    ((2 * abs(r.num as int) * 10000 + r.den) / (2 * r.den as int)) as nat
}

/// `r` with exactly four decimal places; a minus sign only where the rounded
/// value is not zero.
pub open spec fn format_spec(r: Ratio) -> Seq<char> {
    let q = round4(r);
    let sign = if r.num < 0 && q > 0 { seq!['-'] } else { Seq::<char>::empty() };
    sign + digits_of(q / 10000) + seq!['.'] + padded_digits(q % 10000, 4)
}

fn digit_to_char(d: u128) -> (c: char)
    requires
        d < 10,
    ensures
        c == digit_char(d as int),
{
    ((d as u8) + 48u8) as char
}

pub(crate) fn push_digits(out: &mut String, n: u128)
    ensures
        final(out)@ == old(out)@ + digits_of(n as nat),
    decreases n,
{
    if n >= 10 {
        push_digits(out, n / 10);
    }
    out.push(digit_to_char(n % 10));
    assert(final(out)@ =~= old(out)@ + digits_of(n as nat));
}

pub(crate) fn push_padded(out: &mut String, n: u128, k: usize)
    ensures
        final(out)@ == old(out)@ + padded_digits(n as nat, k as nat),
    decreases k,
{
    if k > 0 {
        push_padded(out, n / 10, k - 1);
        out.push(digit_to_char(n % 10));
    }
    assert(final(out)@ =~= old(out)@ + padded_digits(n as nat, k as nat));
}

/// The magnitude of `r` in ten-thousandths, rounded.
pub(crate) fn round_exec(r: Ratio) -> (q: u128)
    requires
        r.wf(),
    ensures
        q == round4(r),
        q <= 0x1_0000_0000_0000_0000_0000,
{
    let m: u128 = if r.num < 0 { (-(r.num as i128)) as u128 } else { r.num as u128 };
    let den = r.den as u128;
    assert(2 * m * 10000 + den <= 0x1_0000_0000_0000_0000_0000) by (nonlinear_arith)
        requires
            m <= 0x7fff_ffff_ffff_ffff,
            den <= 0x7fff_ffff_ffff_ffff,
    ;
    let q = (2 * m * 10000 + den) / (2 * den);
    q
}

/// Renders a well-formed fraction with four decimal places, as `-12.3457`.
pub fn format_ratio(r: Ratio) -> (s: String)
    requires
        r.wf(),
    ensures
        s@ == format_spec(r),
{
    let q = round_exec(r);
    let mut s = String::new();
    if r.num < 0 && q > 0 {
        s.push('-');
    }
    push_digits(&mut s, q / 10000);
    s.push('.');
    push_padded(&mut s, q % 10000, 4);
    assert(s@ =~= format_spec(r));
    s
}

} // verus!
