use vstd::prelude::*;

verus! {

/// Largest magnitude of a numerator or a denominator.
pub const LIMIT: i64 = i64::MAX;

/// Why an evaluation gave no value.
#[derive(Clone, Copy, Debug, PartialEq, Eq, Structural)]
pub enum CalcError {
    /// A run of digits, `.` and sign characters that is no decimal number.
    MalformedNumber,
    /// Too few operands for an operator, or not exactly one value at the end.
    Unbalanced,
    /// A division whose right operand is zero.
    DivisionByZero,
    /// A symbol outside the calculator's alphabet, or an unclosed `(`.
    InvalidOperator,
    /// A numerator or denominator beyond `LIMIT` in magnitude.
    Overflow,
}

/// An exact fraction `num / den`; well formed when `den > 0`.
#[derive(Clone, Copy, Debug, PartialEq, Eq, Structural)]
pub struct Ratio {
    pub num: i64,
    pub den: i64,
}

pub open spec fn fits(x: int) -> bool {
    -(LIMIT as int) <= x <= LIMIT as int
}

impl Ratio {
    pub open spec fn wf(self) -> bool {
        0 < self.den && fits(self.num as int)
    }

    /// The two fractions stand for the same number.
    pub open spec fn same_value(self, other: Ratio) -> bool {
        self.num * other.den == other.num * self.den
    }
}

/// The fraction `n / d`, or `Overflow` where either part is out of range.
pub open spec fn make(n: int, d: int) -> Result<Ratio, CalcError> {
    if fits(n) && fits(d) {
        Ok(Ratio { num: n as i64, den: d as i64 })
    } else {
        Err(CalcError::Overflow)
    }
}

pub open spec fn abs(x: int) -> nat {
    if x < 0 { (-x) as nat } else { x as nat }
}

/// Greatest common divisor, by Euclid's algorithm.
pub open spec fn gcd(a: nat, b: nat) -> nat
    decreases b,
{
    if b == 0 {
        a
    } else {
        gcd(b, a % b)
    }
}

/// The fraction `n / d` (with `d > 0`) in lowest terms, or `Overflow` where
/// that form is out of range.
pub open spec fn make_reduced(n: int, d: int) -> Result<Ratio, CalcError> {
    let g = gcd(abs(n), d as nat);
    let m = abs(n) / g;
    let e = d / (g as int);
    if fits(m as int) && fits(e) {
        Ok(Ratio { num: (if n < 0 { -(m as int) } else { m as int }) as i64, den: e as i64 })
    } else {
        Err(CalcError::Overflow)
    }
}

pub open spec fn add_spec(a: Ratio, b: Ratio) -> Result<Ratio, CalcError> {
    make_reduced(a.num * b.den + b.num * a.den, a.den * b.den)
}

pub open spec fn sub_spec(a: Ratio, b: Ratio) -> Result<Ratio, CalcError> {
    make_reduced(a.num * b.den - b.num * a.den, a.den * b.den)
}

pub open spec fn mul_spec(a: Ratio, b: Ratio) -> Result<Ratio, CalcError> {
    make_reduced(a.num * b.num, a.den * b.den)
}

/// Division keeps the denominator positive by moving the divisor's sign up.
pub open spec fn div_spec(a: Ratio, b: Ratio) -> Result<Ratio, CalcError> {
    if b.num == 0 {
        Err(CalcError::DivisionByZero)
    } else if b.num > 0 {
        make_reduced(a.num * b.den, a.den * b.num)
    } else {
        make_reduced(-(a.num * b.den), -(a.den * b.num))
    }
}

/// `a op b` for the four arithmetic operators; any other symbol is refused.
pub open spec fn apply_spec(a: Ratio, b: Ratio, op: char) -> Result<Ratio, CalcError> {
    if op == '+' {
        add_spec(a, b)
    } else if op == '-' {
        sub_spec(a, b)
    } else if op == '*' {
        mul_spec(a, b)
    } else if op == '/' {
        div_spec(a, b)
    } else {
        Err(CalcError::InvalidOperator)
    }
}

proof fn lemma_mul_pos(x: int, y: int)
    requires
        0 < x,
        0 < y,
    ensures
        0 < x * y,
{
    assert(0 < x * y) by (nonlinear_arith)
        requires
            0 < x,
            0 < y,
    ;
}

/// Products of two numbers in range stay below 2^126 in magnitude.
proof fn lemma_mul_bound(x: int, y: int)
    requires
        fits(x),
        fits(y),
    ensures
        -0x3fff_ffff_ffff_ffff_0000_0000_0000_0001int <= x * y
            <= 0x3fff_ffff_ffff_ffff_0000_0000_0000_0001int,
{
    assert(-0x3fff_ffff_ffff_ffff_0000_0000_0000_0001int <= x * y
        <= 0x3fff_ffff_ffff_ffff_0000_0000_0000_0001int) by (nonlinear_arith)
        requires
            -0x7fff_ffff_ffff_ffffint <= x <= 0x7fff_ffff_ffff_ffffint,
            -0x7fff_ffff_ffff_ffffint <= y <= 0x7fff_ffff_ffff_ffffint,
    ;
}

/// Euclid's algorithm ends on a positive divisor no larger than `b`.
pub proof fn lemma_gcd_bounds(a: nat, b: nat)
    requires
        b > 0,
    ensures
        0 < gcd(a, b) <= b,
    decreases b,
{
    assert(gcd(a, b) == gcd(b, a % b));
    if a % b > 0 {
        lemma_gcd_bounds(b, a % b);
    } else {
        assert(gcd(b, 0) == b);
    }
}

pub proof fn lemma_reduced_wf(n: int, d: int)
    requires
        d > 0,
    ensures
        make_reduced(n, d) is Ok ==> make_reduced(n, d)->Ok_0.wf(),
{
    let g = gcd(abs(n), d as nat);
    lemma_gcd_bounds(abs(n), d as nat);
    assert(d / (g as int) >= 1) by {
        vstd::arithmetic::div_mod::lemma_div_is_ordered(g as int, d, g as int);
        vstd::arithmetic::div_mod::lemma_div_by_self(g as int);
    }
}

/// Well-formed operands give a well-formed result.
pub proof fn lemma_apply_wf(a: Ratio, b: Ratio, op: char)
    requires
        a.wf(),
        b.wf(),
    ensures
        apply_spec(a, b, op) is Ok ==> apply_spec(a, b, op)->Ok_0.wf(),
{
    lemma_mul_pos(a.den as int, b.den as int);
    lemma_reduced_wf(a.num * b.den + b.num * a.den, a.den * b.den);
    lemma_reduced_wf(a.num * b.den - b.num * a.den, a.den * b.den);
    lemma_reduced_wf(a.num * b.num, a.den * b.den);
    if b.num > 0 {
        lemma_mul_pos(a.den as int, b.num as int);
        lemma_reduced_wf(a.num * b.den, a.den * b.num);
    } else if b.num < 0 {
        lemma_mul_pos(a.den as int, -b.num);
        assert(-(a.den * b.num) == a.den * (-b.num)) by (nonlinear_arith);
        lemma_reduced_wf(-(a.num * b.den), -(a.den * b.num));
    }
}

fn mul_wide(x: i64, y: i64) -> (r: i128)
    requires
        fits(x as int),
        fits(y as int),
    ensures
        r == x * y,
        -0x3fff_ffff_ffff_ffff_0000_0000_0000_0001int <= r
            <= 0x3fff_ffff_ffff_ffff_0000_0000_0000_0001int,
{
    proof {
        lemma_mul_bound(x as int, y as int);
    }
    (x as i128) * (y as i128)
}

fn gcd_exec(a: u128, b: u128) -> (r: u128)
    ensures
        r == gcd(a as nat, b as nat),
{
    let mut x = a;
    let mut y = b;
    while y != 0
        invariant
            gcd(x as nat, y as nat) == gcd(a as nat, b as nat),
        decreases y,
    {
        let t = x % y;
        x = y;
        y = t;
    }
    x
}

/// Brings `n / d` to lowest terms.
pub(crate) fn reduce(n: i128, d: i128) -> (r: Result<Ratio, CalcError>)
    requires
        0 < d,
        -0x7fff_ffff_ffff_ffff_ffff_ffff_ffff_ffffint <= n,
    ensures
        r == make_reduced(n as int, d as int),
{
    let m: u128 = if n < 0 { (-n) as u128 } else { n as u128 };
    let dd = d as u128;
    let g = gcd_exec(m, dd);
    proof {
        lemma_gcd_bounds(m as nat, dd as nat);
    }
    let rm = m / g;
    let rd = dd / g;
    if rm <= LIMIT as u128 && rd <= LIMIT as u128 {
        let num = if n < 0 { -(rm as i64) } else { rm as i64 };
        Ok(Ratio { num, den: rd as i64 })
    } else {
        Err(CalcError::Overflow)
    }
}

/// Applies one of `+ - * /` to two fractions, exactly; the result is in
/// lowest terms.
pub fn apply_operator(a: Ratio, b: Ratio, op: char) -> (r: Result<Ratio, CalcError>)
    requires
        a.wf(),
        b.wf(),
    ensures
        r == apply_spec(a, b, op),
{
    proof {
        lemma_mul_pos(a.den as int, b.den as int);
    }
    if op == '+' {
        reduce(mul_wide(a.num, b.den) + mul_wide(b.num, a.den), mul_wide(a.den, b.den))
    } else if op == '-' {
        reduce(mul_wide(a.num, b.den) - mul_wide(b.num, a.den), mul_wide(a.den, b.den))
    } else if op == '*' {
        reduce(mul_wide(a.num, b.num), mul_wide(a.den, b.den))
    } else if op == '/' {
        if b.num == 0 {
            Err(CalcError::DivisionByZero)
        } else {
            let n = mul_wide(a.num, b.den);
            let d = mul_wide(a.den, b.num);
            if b.num > 0 {
                proof {
                    lemma_mul_pos(a.den as int, b.num as int);
                }
                reduce(n, d)
            } else {
                proof {
                    lemma_mul_pos(a.den as int, -b.num);
                    assert(-(a.den * b.num) == a.den * (-b.num)) by (nonlinear_arith);
                }
                reduce(-n, -d)
            }
        }
    } else {
        Err(CalcError::InvalidOperator)
    }
}

/// Lowest terms do not depend on the sign of the numerator.
pub proof fn lemma_reduced_neg(n: int, d: int)
    requires
        d > 0,
    ensures
        make_reduced(-n, d) is Ok <==> make_reduced(n, d) is Ok,
        make_reduced(n, d) is Ok ==> make_reduced(-n, d)->Ok_0 == (Ratio {
            num: (-make_reduced(n, d)->Ok_0.num) as i64,
            den: make_reduced(n, d)->Ok_0.den,
        }),
        make_reduced(n, d) is Err ==> make_reduced(-n, d) == make_reduced(n, d),
{
    assert(abs(-n) == abs(n));
    let g = gcd(abs(n), d as nat);
    let m = abs(n) / g;
    if fits(m as int) && fits(d / (g as int)) {
        assert(make_reduced(n, d)->Ok_0.num == (if n < 0 { -(m as int) } else { m as int }));
        assert(make_reduced(-n, d)->Ok_0.num == (if -n < 0 { -(m as int) } else { m as int }));
        if n == 0 {
            lemma_gcd_bounds(abs(n), d as nat);
            assert(abs(n) == 0);
            assert(0int / (g as int) == 0) by (nonlinear_arith)
                requires
                    g > 0,
            ;
        }
    }
}

/// Euclid's divisor divides both arguments.
pub proof fn lemma_gcd_divides(a: nat, b: nat)
    requires
        b > 0,
    ensures
        a % gcd(a, b) == 0,
        b % gcd(a, b) == 0,
    decreases b,
{
    let g = gcd(a, b);
    lemma_gcd_bounds(a, b);
    assert(g == gcd(b, a % b));
    if a % b == 0 {
        assert(gcd(b, 0) == b);
        vstd::arithmetic::div_mod::lemma_mod_self_0(b as int);
        assert(a as int == (a as int / b as int) * b as int) by {
            vstd::arithmetic::div_mod::lemma_fundamental_div_mod(a as int, b as int);
            assert(b as int * (a as int / b as int) == (a as int / b as int) * b as int)
                by (nonlinear_arith);
        }
        vstd::arithmetic::div_mod::lemma_mod_multiples_basic((a / b) as int, b as int);
    } else {
        lemma_gcd_divides(b, a % b);
        let gi = g as int;
        let kb = b as int / gi;
        let kr = (a % b) as int / gi;
        vstd::arithmetic::div_mod::lemma_fundamental_div_mod(b as int, gi);
        vstd::arithmetic::div_mod::lemma_fundamental_div_mod((a % b) as int, gi);
        vstd::arithmetic::div_mod::lemma_fundamental_div_mod(a as int, b as int);
        assert(a as int == gi * (kb * (a as int / b as int) + kr)) by (nonlinear_arith)
            requires
                b as int == gi * kb,
                (a % b) as int == gi * kr,
                a as int == b as int * (a as int / b as int) + (a % b) as int,
        ;
        vstd::arithmetic::div_mod::lemma_mod_multiples_basic(
            kb * (a as int / b as int) + kr,
            gi,
        );
        assert((kb * (a as int / b as int) + kr) * gi == gi * (kb * (a as int / b as int) + kr))
            by (nonlinear_arith);
    }
}

} // verus!
