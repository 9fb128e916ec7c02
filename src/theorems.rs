use vstd::prelude::*;
use vstd::arithmetic::div_mod::{
    lemma_fundamental_div_mod, lemma_fundamental_div_mod_converse, lemma_mod_breakdown,
};
use crate::ratio::{CalcError, Ratio, abs, gcd, lemma_gcd_divides, make_reduced};
use crate::number::{
    DecimalScan, digit_char, digit_value, digits_of, format_spec, has_sign, is_digit, padded_digits,
    parse_spec, round4, scan_decimal, unsigned_part,
};
use crate::eval::{
    ScanState, apply_top, checked_result, display_spec, drain_spec, eval_spec, flush_spec,
    initial_state, shown_value, close_spec, is_operator, precedence_spec, reduce_spec,
    invalid_text, lemma_scan_error_stays, scan_spec, starts_operand, step_spec,
};

verus! {

/// Digits and points only: the characters of an unsigned number literal.
pub open spec fn is_literal_text(d: Seq<char>) -> bool {
    forall|i: int| 0 <= i < d.len() ==> is_digit(#[trigger] d[i]) || d[i] == '.'
}

/// `-v`, exactly.
pub open spec fn negated(v: Result<Ratio, CalcError>) -> Result<Ratio, CalcError> {
    match v {
        Ok(r) => Ok(Ratio { num: (-r.num) as i64, den: r.den }),
        Err(e) => Err(e),
    }
}

/// Digits and points read after a scan only extend the pending literal.
pub proof fn lemma_scan_literal(s: Seq<char>, d: Seq<char>)
    requires
        scan_spec(s) is Ok,
        d.len() > 0,
        is_literal_text(d),
    ensures
        scan_spec(s + d) == Ok::<ScanState, CalcError>(
            ScanState {
                acc: scan_spec(s)->Ok_0.acc + d,
                prev: Some(d.last()),
                ..scan_spec(s)->Ok_0
            },
        ),
    decreases d.len(),
{
    assert((s + d).drop_last() =~= s + d.drop_last());
    assert((s + d).last() == d.last());
    assert(is_digit(d[d.len() - 1]) || d[d.len() - 1] == '.');
    if d.len() == 1 {
        assert(s + d.drop_last() =~= s);
        assert(scan_spec(s)->Ok_0.acc + d =~= scan_spec(s)->Ok_0.acc.push(d.last()));
    } else {
        lemma_scan_literal(s, d.drop_last());
        assert(scan_spec(s)->Ok_0.acc + d =~= (scan_spec(s)->Ok_0.acc + d.drop_last()).push(
            d.last(),
        ));
    }
}

/// A `-` read at the start, after an operator or after `(` begins a literal
/// whose value is the negation of the number that follows.
pub proof fn lemma_unary_minus(s: Seq<char>, d: Seq<char>)
    requires
        scan_spec(s) is Ok,
        scan_spec(s)->Ok_0.acc.len() == 0,
        starts_operand(scan_spec(s)->Ok_0.prev),
        d.len() > 0,
        is_literal_text(d),
    ensures
        scan_spec(s + seq!['-'] + d) == Ok::<ScanState, CalcError>(
            ScanState { acc: seq!['-'] + d, prev: Some(d.last()), ..scan_spec(s)->Ok_0 },
        ),
        parse_spec(seq!['-'] + d) == negated(parse_spec(d)),
{
    let st = scan_spec(s)->Ok_0;
    let m = s + seq!['-'];
    assert(m.drop_last() =~= s);
    assert(m.last() == '-');
    assert(scan_spec(m) == Ok::<ScanState, CalcError>(
        ScanState { acc: seq!['-'], prev: Some('-'), ..st },
    )) by {
        assert(st.acc.push('-') =~= seq!['-']);
    }
    lemma_scan_literal(m, d);
    assert(seq!['-'] + d =~= seq!['-'].add(d));
    assert(s + seq!['-'] + d =~= m + d);
    let sd = seq!['-'] + d;
    assert(has_sign(sd));
    assert(unsigned_part(sd) =~= d);
    assert(is_digit(d[0]) || d[0] == '.');
    assert(!has_sign(d));
    let ds = scan_decimal(d);
    crate::number::lemma_scan_bounds(d);
    crate::ratio::lemma_reduced_neg(ds.digits, ds.den);
}

/// An expression that starts with `-` and a number has the negated number as
/// its value.
pub proof fn lemma_leading_minus(d: Seq<char>)
    requires
        d.len() > 0,
        is_literal_text(d),
    ensures
        eval_spec(seq!['-'] + d) == negated(eval_spec(d)),
{
    let e = Seq::<char>::empty();
    assert(scan_spec(e) is Ok);
    lemma_unary_minus(e, d);
    lemma_scan_literal(e, d);
    assert(e + seq!['-'] + d =~= seq!['-'] + d);
    assert(e + d =~= d);
    let st = scan_spec(e)->Ok_0;
    assert(st.acc + d =~= d);
    match parse_spec(d) {
        Ok(v) => {
            let w = Ratio { num: (-v.num) as i64, den: v.den };
            let f1 = flush_spec(scan_spec(d)->Ok_0)->Ok_0;
            assert(f1.nums =~= seq![v]);
            let f2 = flush_spec(scan_spec(seq!['-'] + d)->Ok_0)->Ok_0;
            assert(f2.nums =~= seq![w]);
            crate::number::lemma_scan_bounds(d);
            assert(crate::ratio::fits(v.num as int));
            lemma_checked_neg(v);
        },
        Err(_) => {},
    }
}

/// Whether a result's text reads back does not depend on its sign.
proof fn lemma_checked_neg(v: Ratio)
    requires
        crate::ratio::fits(v.num as int),
    ensures
        checked_result(Ratio { num: (-v.num) as i64, den: v.den }) is Ok <==> checked_result(v) is Ok,
{
    let w = Ratio { num: (-v.num) as i64, den: v.den };
    assert(w.num == -v.num);
    assert(abs(w.num as int) == abs(v.num as int));
    assert(round4(w) == round4(v));
    crate::ratio::lemma_reduced_neg(round4(v) as int, 10000);
}

proof fn lemma_digit_char(d: int)
    requires
        0 <= d < 10,
    ensures
        is_digit(digit_char(d)),
        digit_value(digit_char(d)) == d,
{
}

pub open spec fn pow10(k: nat) -> int
    decreases k,
{
    if k == 0 {
        1
    } else {
        10 * pow10((k - 1) as nat)
    }
}

proof fn lemma_digits_of_text(n: nat)
    ensures
        digits_of(n).len() > 0,
        is_literal_text(digits_of(n)),
        scan_decimal(digits_of(n)) == (DecimalScan {
            digits: n as int,
            den: 1,
            scale: 0,
            dot: false,
            seen_digit: true,
            valid: true,
        }),
    decreases n,
{
    let t = digits_of(n);
    if n < 10 {
        lemma_digit_char(n as int);
        assert(t.drop_last() =~= Seq::<char>::empty());
        assert(scan_decimal(Seq::<char>::empty()).valid);
    } else {
        lemma_digit_char((n % 10) as int);
        lemma_digits_of_text(n / 10);
        assert(t.drop_last() =~= digits_of(n / 10));
        assert forall|i: int| 0 <= i < t.len() implies is_digit(#[trigger] t[i]) || t[i] == '.' by {
            if i < t.len() - 1 {
                assert(t[i] == digits_of(n / 10)[i]);
            }
        }
    }
}

proof fn lemma_padded_text(p: Seq<char>, n: nat, k: nat)
    requires
        scan_decimal(p).valid,
        scan_decimal(p).dot,
    ensures
        padded_digits(n, k).len() == k,
        is_literal_text(padded_digits(n, k)),
        scan_decimal(p + padded_digits(n, k)) == (DecimalScan {
            digits: scan_decimal(p).digits * pow10(k) + n % (pow10(k) as nat),
            den: scan_decimal(p).den * pow10(k),
            scale: scan_decimal(p).scale + k,
            seen_digit: scan_decimal(p).seen_digit || k > 0,
            ..scan_decimal(p)
        }),
    decreases k,
{
    let t = padded_digits(n, k);
    let sp = scan_decimal(p);
    if k == 0 {
        assert(p + t =~= p);
        assert(n % 1 == 0);
        assert(pow10(k) == 1);
        assert(sp.digits * pow10(k) == sp.digits);
        assert(sp.den * pow10(k) == sp.den);
    } else {
        let k1 = (k - 1) as nat;
        lemma_padded_text(p, n / 10, k1);
        lemma_digit_char((n % 10) as int);
        assert((p + t).drop_last() =~= p + padded_digits(n / 10, k1));
        assert forall|i: int| 0 <= i < t.len() implies is_digit(#[trigger] t[i]) || t[i] == '.' by {
            if i < t.len() - 1 {
                assert(t[i] == padded_digits(n / 10, k1)[i]);
            }
        }
        let pk = pow10(k1);
        assert(pk > 0) by {
            lemma_pow10_pos(k1);
        }
        lemma_mod_breakdown(n as int, 10, pk);
        assert(sp.digits * pow10(k) == sp.digits * pk * 10) by (nonlinear_arith)
            requires
                pow10(k) == 10 * pk,
        ;
        assert(sp.den * pow10(k) == sp.den * pk * 10) by (nonlinear_arith)
            requires
                pow10(k) == 10 * pk,
        ;
        let ni = n as int;
        assert((sp.digits * pk + (ni / 10) % pk) * 10 + ni % 10 == sp.digits * pk * 10 + 10 * ((ni
            / 10) % pk) + ni % 10) by (nonlinear_arith);
        assert(10 * pk == pk * 10);
        assert((p + t).last() == digit_char((n % 10) as int));
        let prev = scan_decimal(p + padded_digits(n / 10, k1));
        assert(prev.valid && prev.dot);
        assert(scan_decimal(p + t).digits == prev.digits * 10 + (n % 10) as int);
        assert(scan_decimal(p + t).den == prev.den * 10);
        assert(n % (pow10(k) as nat) == 10 * ((ni / 10) % pk) + ni % 10);
    }
}

proof fn lemma_pow10_pos(k: nat)
    ensures
        pow10(k) > 0,
    decreases k,
{
    if k > 0 {
        lemma_pow10_pos((k - 1) as nat);
    }
}

/// A bare number evaluates to the value of its literal.
pub proof fn lemma_bare_number(d: Seq<char>)
    requires
        d.len() > 0,
        is_literal_text(d),
    ensures
        eval_spec(d) == match parse_spec(d) {
            Ok(v) => checked_result(v),
            Err(e) => Err(e),
        },
{
    let e = Seq::<char>::empty();
    lemma_scan_literal(e, d);
    assert(e + d =~= d);
    assert(scan_spec(e)->Ok_0.acc + d =~= d);
    match parse_spec(d) {
        Ok(v) => {
            let f = flush_spec(scan_spec(d)->Ok_0)->Ok_0;
            assert(f.nums =~= seq![v]);
        },
        Err(_) => {},
    }
}

/// A result's shown text, evaluated again as a bare number, is shown
/// unchanged and has the value that text reads back as; this holds of every
/// result an evaluation gives (see `lemma_evaluated_reads_back`).
pub proof fn lemma_result_reads_back(r: Ratio)
    requires
        shown_value(r) is Ok,
    ensures
        eval_spec(format_spec(r)) == shown_value(r),
        format_spec(shown_value(r)->Ok_0) == format_spec(r),
{
    let q = round4(r);
    let ip: nat = q / 10000;
    let fp: nat = q % 10000;
    let di = digits_of(ip);
    lemma_digits_of_text(ip);
    let p = di.push('.');
    assert(p.drop_last() =~= di);
    assert(scan_decimal(p).dot && scan_decimal(p).valid && scan_decimal(p).digits == ip);
    lemma_padded_text(p, fp, 4);
    let pf = padded_digits(fp, 4);
    let body = p + pf;
    assert(pow10(4) == 10000) by {
        assert(pow10(0) == 1);
        assert(pow10(1) == 10);
        assert(pow10(2) == 100);
        assert(pow10(3) == 1000);
    }
    lemma_fundamental_div_mod(q as int, 10000);
    assert(fp % 10000 == fp);
    assert(scan_decimal(body).digits == q);
    assert(scan_decimal(body).den == 10000);
    assert(is_literal_text(body)) by {
        assert forall|i: int| 0 <= i < body.len() implies is_digit(#[trigger] body[i])
            || body[i] == '.' by {
            if i < di.len() {
                assert(body[i] == di[i]);
            } else if i > di.len() {
                assert(body[i] == pf[i - di.len() - 1]);
            }
        }
    }
    assert(!has_sign(body)) by {
        assert(body[0] == di[0]);
    }
    assert(unsigned_part(body) == body);
    let v = shown_value(r)->Ok_0;
    let neg = r.num < 0 && q > 0;
    // The value read back keeps the rounded magnitude.
    let g = gcd(q, 10000);
    lemma_gcd_divides(q, 10000);
    crate::ratio::lemma_gcd_bounds(q, 10000);
    crate::ratio::lemma_reduced_wf(if r.num < 0 { -(q as int) } else { q as int }, 10000);
    assert(abs(if r.num < 0 { -(q as int) } else { q as int }) == q);
    let a = q as int / g as int;
    let b = 10000int / g as int;
    lemma_fundamental_div_mod(q as int, g as int);
    lemma_fundamental_div_mod(10000, g as int);
    assert(abs(v.num as int) == a);
    assert(v.den == b);
    assert(b >= 1);
    assert(2 * a * 10000 + b == q * (2 * b) + b) by (nonlinear_arith)
        requires
            q as int == g * a,
            10000 == g * b,
    ;
    lemma_fundamental_div_mod_converse(2 * a * 10000 + b, 2 * b, q as int, b);
    assert(round4(v) == q);
    assert(v.num < 0 <==> neg) by {
        if q > 0 {
            assert(a > 0) by (nonlinear_arith)
                requires
                    q as int == g * a,
                    q > 0,
                    g > 0,
            ;
        }
    }
    assert(shown_value(v) == shown_value(r));
    let text = format_spec(r);
    if neg {
        assert(text =~= seq!['-'] + body);
        lemma_bare_number(body);
        lemma_leading_minus(body);
        crate::ratio::lemma_reduced_neg(q as int, 10000);
        lemma_checked_neg(make_reduced(q as int, 10000)->Ok_0);
    } else {
        assert(text =~= body);
        lemma_bare_number(body);
    }
    assert(format_spec(v) =~= text);
}

/// Every result that an evaluation gives is shown as a text that, evaluated
/// again, gives the same text.
pub proof fn lemma_evaluated_reads_back(s: Seq<char>)
    requires
        eval_spec(s) is Ok,
    ensures
        eval_spec(format_spec(eval_spec(s)->Ok_0)) is Ok,
        format_spec(eval_spec(format_spec(eval_spec(s)->Ok_0))->Ok_0) == format_spec(
            eval_spec(s)->Ok_0,
        ),
{
    lemma_result_reads_back(eval_spec(s)->Ok_0);
}

/// The text shown for an expression without a value, evaluated again, is
/// shown unchanged.
pub proof fn lemma_invalid_reads_back()
    ensures
        display_spec(invalid_text()) == invalid_text(),
{
    let t = invalid_text();
    assert(t.take(1).drop_last() =~= Seq::<char>::empty());
    assert(t.take(1).last() == 'I');
    assert(step_spec(initial_state(), 'I') is Err);
    assert(scan_spec(t.take(1)) is Err);
    lemma_scan_error_stays(t, 1);
}

/// Dividing by a literal whose value is zero gives no value, wherever the
/// division stands: after any text, and followed by nothing, by an operator or
/// by `)`.
pub proof fn lemma_division_by_zero(p: Seq<char>, z: Seq<char>, q: Seq<char>)
    requires
        z.len() > 0,
        is_literal_text(z),
        parse_spec(z) is Ok,
        parse_spec(z)->Ok_0.num == 0,
        q.len() == 0 || is_operator(q[0]) || q[0] == ')',
    ensures
        eval_spec(p + seq!['/'] + z + q) is Err,
{
    let t = p.push('/');
    let whole = p + seq!['/'] + z + q;
    assert(p + seq!['/'] =~= t);
    assert(t.drop_last() =~= p);
    assert(t.last() == '/');
    if scan_spec(p) is Err {
        assert(whole.take(p.len() as int) =~= p);
        lemma_scan_error_stays(whole, p.len() as int);
    } else if scan_spec(t) is Err {
        assert(whole.take(t.len() as int) =~= t);
        lemma_scan_error_stays(whole, t.len() as int);
    } else {
        let st1 = scan_spec(t)->Ok_0;
        assert(st1.acc.len() == 0 && st1.ops.len() > 0 && st1.ops.last() == '/');
        lemma_scan_literal(t, z);
        let u = t + z;
        let st2 = scan_spec(u)->Ok_0;
        assert(st1.acc + z =~= z);
        assert(st2.acc == z);
        assert(!has_sign(z)) by {
            assert(is_digit(z[0]) || z[0] == '.');
        }
        let v = parse_spec(z)->Ok_0;
        let f = flush_spec(st2)->Ok_0;
        assert(f.nums == st1.nums.push(v));
        assert(f.ops == st1.ops);
        assert(apply_top(f.nums, '/') is Err);
        assert(is_digit(z[z.len() - 1]) || z[z.len() - 1] == '.');
        if q.len() == 0 {
            assert(whole =~= u);
            assert(drain_spec(f.nums, f.ops) is Err);
        } else {
            let c = q[0];
            let w = u.push(c);
            assert(w.drop_last() =~= u);
            assert(w.last() == c);
            assert(!starts_operand(st2.prev));
            if c == ')' {
                assert(close_spec(f.nums, f.ops) is Err);
            } else {
                assert(reduce_spec(f.nums, f.ops, precedence_spec(c)) is Err);
            }
            assert(step_spec(st2, c) is Err);
            assert(scan_spec(w) is Err);
            assert(whole.take(w.len() as int) =~= w);
            lemma_scan_error_stays(whole, w.len() as int);
        }
    }
}

} // verus!
