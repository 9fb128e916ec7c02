use vstd::prelude::*;
use crate::ratio::{CalcError, Ratio, apply_spec};
use crate::number::{format_spec, is_digit, parse_spec};
use crate::eval::{
    ScanState, apply_top, checked_result, display_spec, drain_spec, eval_spec, flush_spec,
    invalid_text, is_operator, lemma_scan_error_stays, precedence_spec, reduce_spec, scan_spec,
    starts_operand, step_spec,
};
use crate::theorems::{is_literal_text, lemma_scan_literal};

verus! {

/// A flat expression: a first literal, then pairs of an operator and a
/// literal, with no signs and no parentheses.
pub open spec fn is_flat(first: Seq<char>, rest: Seq<(char, Seq<char>)>) -> bool {
    &&& first.len() > 0
    &&& is_literal_text(first)
    &&& forall|i: int|
        0 <= i < rest.len() ==> {
            &&& is_operator(#[trigger] rest[i].0)
            &&& rest[i].1.len() > 0
            &&& is_literal_text(rest[i].1)
        }
}

/// The characters of a flat expression.
pub open spec fn flat_text(first: Seq<char>, rest: Seq<(char, Seq<char>)>) -> Seq<char>
    decreases rest.len(),
{
    if rest.len() == 0 {
        first
    } else {
        flat_text(first, rest.drop_last()) + seq![rest.last().0] + rest.last().1
    }
}

pub open spec fn is_mul(o: char) -> bool {
    o == '*' || o == '/'
}

/// A pending sum `a op t`, or `t` alone.
pub open spec fn combine(sum: Option<(Ratio, char)>, t: Ratio) -> Result<Ratio, CalcError> {
    match sum {
        None => Ok(t),
        Some((a, op)) => apply_spec(a, t, op),
    }
}

/// Conventional evaluation of a flat expression from left to right: a sum
/// whose last operator waits, and the running product of the current term.
/// `*` and `/` extend the term; `+` and `-` settle the waiting sum and open a
/// new term. Literals are read as they come.
pub open spec fn standard_state(first: Seq<char>, rest: Seq<(char, Seq<char>)>) -> Result<
    (Option<(Ratio, char)>, Ratio),
    CalcError,
>
    decreases rest.len(),
{
    if rest.len() == 0 {
        match parse_spec(first) {
            Ok(v) => Ok((None, v)),
            Err(e) => Err(e),
        }
    } else {
        let o = rest.last().0;
        let l = rest.last().1;
        match standard_state(first, rest.drop_last()) {
            Err(e) => Err(e),
            Ok((sum, term)) => if is_mul(o) {
                match parse_spec(l) {
                    Err(e) => Err(e),
                    Ok(v) => match apply_spec(term, v, o) {
                        Ok(t) => Ok((sum, t)),
                        Err(e) => Err(e),
                    },
                }
            } else {
                match combine(sum, term) {
                    Err(e) => Err(e),
                    Ok(c) => match parse_spec(l) {
                        Err(e) => Err(e),
                        Ok(v) => Ok((Some((c, o)), v)),
                    },
                }
            },
        }
    }
}

/// The value of a flat expression under the usual precedence: products and
/// quotients first, then sums and differences, each from left to right; like
/// every result, it must be shown as a text that reads back.
pub open spec fn standard_value(first: Seq<char>, rest: Seq<(char, Seq<char>)>) -> Result<
    Ratio,
    CalcError,
> {
    match standard_state(first, rest) {
        Ok((sum, term)) => match combine(sum, term) {
            Ok(v) => checked_result(v),
            Err(e) => Err(e),
        },
        Err(e) => Err(e),
    }
}

spec fn sum_nums(sum: Option<(Ratio, char)>) -> Seq<Ratio> {
    match sum {
        None => Seq::<Ratio>::empty(),
        Some((a, _)) => seq![a],
    }
}

spec fn sum_ops(sum: Option<(Ratio, char)>) -> Seq<char> {
    match sum {
        None => Seq::<char>::empty(),
        Some((_, op)) => seq![op],
    }
}

/// Where the stack scan of a flat expression stands with the last literal
/// still pending.
spec fn flat_scan(first: Seq<char>, rest: Seq<(char, Seq<char>)>) -> Result<ScanState, CalcError> {
    if rest.len() == 0 {
        Ok(
            ScanState {
                acc: first,
                nums: Seq::<Ratio>::empty(),
                ops: Seq::<char>::empty(),
                prev: Some(first.last()),
            },
        )
    } else {
        let o = rest.last().0;
        let l = rest.last().1;
        match standard_state(first, rest.drop_last()) {
            Err(e) => Err(e),
            Ok((sum, term)) => if is_mul(o) {
                Ok(
                    ScanState {
                        acc: l,
                        nums: sum_nums(sum).push(term),
                        ops: sum_ops(sum).push(o),
                        prev: Some(l.last()),
                    },
                )
            } else {
                match combine(sum, term) {
                    Err(e) => Err(e),
                    Ok(c) => Ok(
                        ScanState { acc: l, nums: seq![c], ops: seq![o], prev: Some(l.last()) },
                    ),
                }
            },
        }
    }
}

proof fn lemma_flat_scan(first: Seq<char>, rest: Seq<(char, Seq<char>)>)
    requires
        is_flat(first, rest),
    ensures
        scan_spec(flat_text(first, rest)) == flat_scan(first, rest),
        flat_scan(first, rest) is Err ==> standard_state(first, rest) == Err::<
            (Option<(Ratio, char)>, Ratio),
            CalcError,
        >(flat_scan(first, rest)->Err_0),
    decreases rest.len(),
{
    if rest.len() == 0 {
        let e = Seq::<char>::empty();
        lemma_scan_literal(e, first);
        assert(e + first =~= first);
        assert(scan_spec(e)->Ok_0.acc + first =~= first);
    } else {
        let r0 = rest.drop_last();
        let o = rest.last().0;
        let l = rest.last().1;
        assert(is_flat(first, r0)) by {
            assert forall|i: int| 0 <= i < r0.len() implies {
                &&& is_operator(#[trigger] r0[i].0)
                &&& r0[i].1.len() > 0
                &&& is_literal_text(r0[i].1)
            } by {
                assert(r0[i] == rest[i]);
            }
        }
        assert(is_operator(rest[rest.len() - 1].0));
        lemma_flat_scan(first, r0);
        let t = flat_text(first, r0);
        let t1 = t.push(o);
        let full = flat_text(first, rest);
        assert(full =~= t1 + l);
        assert(t1.drop_last() =~= t);
        assert(t1.last() == o);
        assert((t1 + l).take(t1.len() as int) =~= t1);
        lemma_flat_step(first, r0, o);
        if scan_spec(t1) is Err {
            lemma_scan_error_stays(t1 + l, t1.len() as int);
        } else {
            lemma_scan_literal(t1, l);
            assert(seq![o] + l =~= seq![o].add(l));
            assert(Seq::<char>::empty() + l =~= l);
        }
    }
}

/// Where the stack scan of a flat expression stands right after an operator.
spec fn after_operator(first: Seq<char>, rest: Seq<(char, Seq<char>)>, o: char) -> Result<
    ScanState,
    CalcError,
> {
    match standard_state(first, rest) {
        Err(e) => Err(e),
        Ok((sum, term)) => if is_mul(o) {
            Ok(
                ScanState {
                    acc: Seq::<char>::empty(),
                    nums: sum_nums(sum).push(term),
                    ops: sum_ops(sum).push(o),
                    prev: Some(o),
                },
            )
        } else {
            match combine(sum, term) {
                Err(e) => Err(e),
                Ok(c) => Ok(
                    ScanState { acc: Seq::<char>::empty(), nums: seq![c], ops: seq![o], prev: Some(o) },
                ),
            }
        },
    }
}

/// One operator read after the pending literal of a flat expression.
proof fn lemma_flat_step(first: Seq<char>, rest: Seq<(char, Seq<char>)>, o: char)
    requires
        is_flat(first, rest),
        is_operator(o),
        scan_spec(flat_text(first, rest)) == flat_scan(first, rest),
        flat_scan(first, rest) is Err ==> standard_state(first, rest) == Err::<
            (Option<(Ratio, char)>, Ratio),
            CalcError,
        >(flat_scan(first, rest)->Err_0),
    ensures
        scan_spec(flat_text(first, rest).push(o)) == after_operator(first, rest, o),
{
    let t = flat_text(first, rest);
    let t1 = t.push(o);
    assert(t1.drop_last() =~= t);
    assert(t1.last() == o);
    if flat_scan(first, rest) is Ok {
        let st = flat_scan(first, rest)->Ok_0;
        let l = if rest.len() == 0 { first } else { rest.last().1 };
        assert(st.acc == l);
        assert(is_digit(l[l.len() - 1]) || l[l.len() - 1] == '.') by {
            if rest.len() > 0 {
                assert(is_literal_text(rest[rest.len() - 1].1));
            }
        }
        assert(!starts_operand(st.prev));
        let p = precedence_spec(o);
        match parse_spec(l) {
            Err(e) => {
                assert(flush_spec(st) == Err::<ScanState, CalcError>(e));
                assert(scan_spec(t1) == after_operator(first, rest, o));
            },
            Ok(v) => {
                let f = flush_spec(st)->Ok_0;
                assert(f.nums == st.nums.push(v));
                if rest.len() == 0 {
                    assert(reduce_spec(f.nums, f.ops, p) == Ok::<(Seq<Ratio>, Seq<char>), CalcError>(
                        (f.nums, f.ops),
                    ));
                    assert(f.nums =~= seq![v]);
                    assert(Seq::<char>::empty().push(o) =~= seq![o]);
                    assert(scan_spec(t1) == after_operator(first, rest, o));
                } else {
                    let op = rest.last().0;
                    let (sum0, term0) = standard_state(first, rest.drop_last())->Ok_0;
                    if is_mul(op) {
                        let n2 = sum_nums(sum0).push(term0).push(v);
                        assert(f.nums == n2);
                        let ops1 = sum_ops(sum0).push(op);
                        assert(f.ops == ops1);
                        assert(n2.take(n2.len() - 2) =~= sum_nums(sum0));
                        assert(ops1.drop_last() =~= sum_ops(sum0));
                        match apply_spec(term0, v, op) {
                            Err(e) => {
                                assert(scan_spec(t1) == after_operator(first, rest, o));
                            },
                            Ok(tm) => {
                                let n3 = sum_nums(sum0).push(tm);
                                assert(apply_top(n2, op) == Ok::<Seq<Ratio>, CalcError>(n3));
                                match sum0 {
                                    None => {
                                        assert(sum_ops(sum0).len() == 0);
                                        assert(reduce_spec(n3, sum_ops(sum0), p) == Ok::<
                                            (Seq<Ratio>, Seq<char>),
                                            CalcError,
                                        >((n3, sum_ops(sum0))));
                                        assert(n3 =~= seq![tm]);
                                        assert(scan_spec(t1) == after_operator(first, rest, o));
                                    },
                                    Some((a, aop)) => {
                                        assert(aop == '+' || aop == '-') by {
                                            lemma_pending_additive(first, rest.drop_last());
                                        }
                                        assert(n3 =~= seq![a, tm]);
                                        assert(sum_ops(sum0) =~= seq![aop]);
                                        assert(seq![aop].last() == aop);
                                        if is_mul(o) {
                                            assert(reduce_spec(n3, seq![aop], p) == Ok::<
                                                (Seq<Ratio>, Seq<char>),
                                                CalcError,
                                            >((n3, seq![aop])));
                                            assert(reduce_spec(n2, ops1, p) == Ok::<
                                                (Seq<Ratio>, Seq<char>),
                                                CalcError,
                                            >((n3, seq![aop])));
                                            assert(standard_state(first, rest) == Ok::<
                                                (Option<(Ratio, char)>, Ratio),
                                                CalcError,
                                            >((sum0, tm)));
                                            assert(sum_ops(sum0).push(o) =~= seq![aop].push(o));
                                            assert(scan_spec(t1) == step_spec(st, o));
                                            assert(f.acc.len() == 0);
                                            let want = ScanState {
                                                acc: Seq::<char>::empty(),
                                                nums: n3,
                                                ops: seq![aop].push(o),
                                                prev: Some(o),
                                            };
                                            assert(f.acc =~= Seq::<char>::empty());
                                            assert(step_spec(st, o) == Ok::<ScanState, CalcError>(want));
                                            assert(after_operator(first, rest, o) == Ok::<ScanState, CalcError>(want));
                                            assert(scan_spec(t1) == after_operator(first, rest, o));
                                        } else {
                                            assert(seq![aop].drop_last() =~= Seq::<char>::empty());
                                            assert(n3.take(0) =~= Seq::<Ratio>::empty());
                                            assert(standard_state(first, rest) == Ok::<
                                                (Option<(Ratio, char)>, Ratio),
                                                CalcError,
                                            >((sum0, tm)));
                                            match apply_spec(a, tm, aop) {
                                                Err(e) => {
                                                    assert(apply_top(n3, aop) == Err::<
                                                        Seq<Ratio>,
                                                        CalcError,
                                                    >(e));
                                                    assert(reduce_spec(n3, seq![aop], p) == Err::<
                                                        (Seq<Ratio>, Seq<char>),
                                                        CalcError,
                                                    >(e));
                                                    assert(reduce_spec(n2, ops1, p) == Err::<
                                                        (Seq<Ratio>, Seq<char>),
                                                        CalcError,
                                                    >(e));
                                                    assert(step_spec(st, o) == Err::<ScanState, CalcError>(e));
                                                    assert(scan_spec(t1) == after_operator(first, rest, o));
                                                },
                                                Ok(c) => {
                                                    assert(apply_top(n3, aop) == Ok::<
                                                        Seq<Ratio>,
                                                        CalcError,
                                                    >(seq![c])) by {
                                                        assert(Seq::<Ratio>::empty().push(c) =~= seq![c]);
                                                    }
                                                    assert(reduce_spec(
                                                        seq![c],
                                                        Seq::<char>::empty(),
                                                        p,
                                                    ) == Ok::<(Seq<Ratio>, Seq<char>), CalcError>(
                                                        (seq![c], Seq::<char>::empty()),
                                                    ));
                                                    assert(Seq::<char>::empty().push(o) =~= seq![o]);
                                                    assert(scan_spec(t1) == after_operator(first, rest, o));
                                                },
                                            }
                                        }
                                    },
                                }
                            },
                        }
                    } else {
                        let c0 = combine(sum0, term0)->Ok_0;
                        assert(f.nums =~= seq![c0, v]);
                        assert(f.ops =~= seq![op]);
                        if is_mul(o) {
                            assert(reduce_spec(f.nums, f.ops, p) == Ok::<
                                (Seq<Ratio>, Seq<char>),
                                CalcError,
                            >((f.nums, f.ops)));
                            assert(sum_nums(Some((c0, op))).push(v) =~= seq![c0, v]);
                            assert(sum_ops(Some((c0, op))).push(o) =~= seq![op, o]);
                            assert(seq![op].push(o) =~= seq![op, o]);
                            assert(scan_spec(t1) == after_operator(first, rest, o));
                        } else {
                            assert(f.ops.drop_last() =~= Seq::<char>::empty());
                            assert(f.nums.take(0) =~= Seq::<Ratio>::empty());
                            match apply_spec(c0, v, op) {
                                Err(e) => {
                                    assert(scan_spec(t1) == after_operator(first, rest, o));
                                },
                                Ok(c) => {
                                    assert(apply_top(f.nums, op) == Ok::<Seq<Ratio>, CalcError>(
                                        seq![c],
                                    )) by {
                                        assert(Seq::<Ratio>::empty().push(c) =~= seq![c]);
                                    }
                                    assert(reduce_spec(seq![c], Seq::<char>::empty(), p) == Ok::<
                                        (Seq<Ratio>, Seq<char>),
                                        CalcError,
                                    >((seq![c], Seq::<char>::empty())));
                                    assert(Seq::<char>::empty().push(o) =~= seq![o]);
                                    assert(scan_spec(t1) == after_operator(first, rest, o));
                                },
                            }
                        }
                    }
                }
            },
        }
    }
}

/// The waiting operator of a flat expression's sum is `+` or `-`.
proof fn lemma_pending_additive(first: Seq<char>, rest: Seq<(char, Seq<char>)>)
    requires
        is_flat(first, rest),
    ensures
        standard_state(first, rest) is Ok ==> match standard_state(first, rest)->Ok_0.0 {
            None => true,
            Some((_, op)) => op == '+' || op == '-',
        },
    decreases rest.len(),
{
    if rest.len() > 0 {
        let r0 = rest.drop_last();
        assert(is_flat(first, r0)) by {
            assert forall|i: int| 0 <= i < r0.len() implies {
                &&& is_operator(#[trigger] r0[i].0)
                &&& r0[i].1.len() > 0
                &&& is_literal_text(r0[i].1)
            } by {
                assert(r0[i] == rest[i]);
            }
        }
        assert(is_operator(rest[rest.len() - 1].0));
        lemma_pending_additive(first, r0);
    }
}

/// A flat expression (literals joined by `+ - * /`, no signs, no
/// parentheses) has the value that the usual precedence gives, and is shown
/// as that value with four places; where that evaluation fails, so does this
/// one, with the same error.
#[verifier::rlimit(40)]
pub proof fn lemma_flat_precedence(first: Seq<char>, rest: Seq<(char, Seq<char>)>)
    requires
        is_flat(first, rest),
    ensures
        eval_spec(flat_text(first, rest)) == standard_value(first, rest),
        display_spec(flat_text(first, rest)) == display_spec_of(standard_value(first, rest)),
{
    lemma_flat_scan(first, rest);
    let text = flat_text(first, rest);
    if flat_scan(first, rest) is Ok {
        let st = flat_scan(first, rest)->Ok_0;
        let l = if rest.len() == 0 { first } else { rest.last().1 };
        assert(st.acc == l);
        assert(l.len() > 0) by {
            if rest.len() > 0 {
                assert(rest[rest.len() - 1].1.len() > 0);
            }
        }
        match parse_spec(l) {
            Err(e) => {
                assert(flush_spec(st) == Err::<ScanState, CalcError>(e));
            },
            Ok(v) => {
                let f = flush_spec(st)->Ok_0;
                assert(f.nums == st.nums.push(v));
                if rest.len() == 0 {
                    assert(f.nums =~= seq![v]);
                    assert(drain_spec(f.nums, f.ops) == Ok::<Seq<Ratio>, CalcError>(f.nums));
                } else {
                    let o = rest.last().0;
                    assert(is_operator(rest[rest.len() - 1].0));
                    let (sum0, term0) = standard_state(first, rest.drop_last())->Ok_0;
                    if is_mul(o) {
                        let n2 = sum_nums(sum0).push(term0).push(v);
                        let ops1 = sum_ops(sum0).push(o);
                        assert(f.nums == n2);
                        assert(f.ops == ops1);
                        assert(n2.take(n2.len() - 2) =~= sum_nums(sum0));
                        assert(ops1.drop_last() =~= sum_ops(sum0));
                        match apply_spec(term0, v, o) {
                            Err(e) => {
                                assert(apply_top(n2, o) == Err::<Seq<Ratio>, CalcError>(e));
                                assert(drain_spec(n2, ops1) == Err::<Seq<Ratio>, CalcError>(e));
                            },
                            Ok(tm) => {
                                let n3 = sum_nums(sum0).push(tm);
                                assert(apply_top(n2, o) == Ok::<Seq<Ratio>, CalcError>(n3));
                                assert(standard_state(first, rest) == Ok::<
                                    (Option<(Ratio, char)>, Ratio),
                                    CalcError,
                                >((sum0, tm)));
                                match sum0 {
                                    None => {
                                        assert(n3 =~= seq![tm]);
                                        assert(drain_spec(n3, sum_ops(sum0)) == Ok::<
                                            Seq<Ratio>,
                                            CalcError,
                                        >(n3));
                                    },
                                    Some((a, aop)) => {
                                        assert(n3 =~= seq![a, tm]);
                                        assert(sum_ops(sum0) =~= seq![aop]);
                                        assert(seq![aop].drop_last() =~= Seq::<char>::empty());
                                        assert(n3.take(0) =~= Seq::<Ratio>::empty());
                                        match apply_spec(a, tm, aop) {
                                            Err(e) => {
                                                assert(apply_top(n3, aop) == Err::<
                                                    Seq<Ratio>,
                                                    CalcError,
                                                >(e));
                                                assert(drain_spec(n3, seq![aop]) == Err::<
                                                    Seq<Ratio>,
                                                    CalcError,
                                                >(e));
                                            },
                                            Ok(c) => {
                                                assert(apply_top(n3, aop) == Ok::<
                                                    Seq<Ratio>,
                                                    CalcError,
                                                >(seq![c])) by {
                                                    assert(Seq::<Ratio>::empty().push(c) =~= seq![c]);
                                                }
                                                assert(drain_spec(seq![c], Seq::<char>::empty())
                                                    == Ok::<Seq<Ratio>, CalcError>(seq![c]));
                                                assert(drain_spec(n3, seq![aop]) == Ok::<
                                                    Seq<Ratio>,
                                                    CalcError,
                                                >(seq![c]));
                                            },
                                        }
                                    },
                                }
                            },
                        }
                    } else {
                        let c0 = combine(sum0, term0)->Ok_0;
                        assert(f.nums =~= seq![c0, v]);
                        assert(f.ops =~= seq![o]);
                        assert(f.ops.drop_last() =~= Seq::<char>::empty());
                        assert(f.nums.take(0) =~= Seq::<Ratio>::empty());
                        assert(standard_state(first, rest) == Ok::<
                            (Option<(Ratio, char)>, Ratio),
                            CalcError,
                        >((Some((c0, o)), v)));
                        match apply_spec(c0, v, o) {
                            Err(e) => {
                                assert(apply_top(f.nums, o) == Err::<Seq<Ratio>, CalcError>(e));
                            },
                            Ok(c) => {
                                assert(apply_top(f.nums, o) == Ok::<Seq<Ratio>, CalcError>(seq![c]))
                                    by {
                                    assert(Seq::<Ratio>::empty().push(c) =~= seq![c]);
                                }
                                assert(drain_spec(seq![c], Seq::<char>::empty()) == Ok::<
                                    Seq<Ratio>,
                                    CalcError,
                                >(seq![c]));
                            },
                        }
                    }
                }
            },
        }
    }
}

/// What the calculator shows for an evaluation's outcome.
pub open spec fn display_spec_of(r: Result<Ratio, CalcError>) -> Seq<char> {
    match r {
        Ok(v) => format_spec(v),
        Err(_) => invalid_text(),
    }
}

} // verus!
