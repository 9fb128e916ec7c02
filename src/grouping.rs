use vstd::prelude::*;
use crate::ratio::{CalcError, Ratio};
use crate::eval::{
    ScanState, apply_top, close_spec, drain_spec, eval_spec, flush_spec, initial_state,
    is_operator, lemma_scan_error_stays, precedence_spec, reduce_spec, scan_spec, starts_operand,
    step_spec,
};

verus! {

/// Opening minus closing parentheses in `s`.
pub open spec fn depth(s: Seq<char>) -> int
    decreases s.len(),
{
    if s.len() == 0 {
        0
    } else {
        depth(s.drop_last()) + if s.last() == '(' {
            1int
        } else if s.last() == ')' {
            -1int
        } else {
            0int
        }
    }
}

/// Every `)` closes an earlier `(`, and every `(` is closed.
pub open spec fn balanced(s: Seq<char>) -> bool {
    &&& depth(s) == 0
    &&& forall|i: int| 0 <= i <= s.len() ==> depth(#[trigger] s.take(i)) >= 0
}

/// The number of `(` on an operator stack.
pub open spec fn opens(ops: Seq<char>) -> int
    decreases ops.len(),
{
    if ops.len() == 0 {
        0
    } else {
        opens(ops.drop_last()) + if ops.last() == '(' {
            1int
        } else {
            0int
        }
    }
}

/// A scan of a group's inside, seen from the scan that opened the group in
/// state `b`: its stacks sit on top of `b`'s and the opening parenthesis.
pub open spec fn lift(b: ScanState, s: ScanState) -> ScanState {
    ScanState {
        acc: s.acc,
        nums: b.nums + s.nums,
        ops: b.ops.push('(') + s.ops,
        prev: match s.prev {
            None => Some('('),
            Some(c) => Some(c),
        },
    }
}

proof fn lemma_apply_lift(bn: Seq<Ratio>, sn: Seq<Ratio>, op: char)
    requires
        apply_top(sn, op) is Ok,
    ensures
        apply_top(bn + sn, op) == Ok::<Seq<Ratio>, CalcError>(bn + apply_top(sn, op)->Ok_0),
{
    let all = bn + sn;
    assert(all[all.len() - 2] == sn[sn.len() - 2]);
    assert(all[all.len() - 1] == sn[sn.len() - 1]);
    let v = apply_top(sn, op)->Ok_0.last();
    assert(all.take(all.len() - 2).push(v) =~= bn + sn.take(sn.len() - 2).push(v));
}

proof fn lemma_reduce_lift(bn: Seq<Ratio>, bo: Seq<char>, sn: Seq<Ratio>, so: Seq<char>, p: int)
    requires
        p >= 1,
        reduce_spec(sn, so, p) is Ok,
    ensures
        reduce_spec(bn + sn, bo.push('(') + so, p) == Ok::<(Seq<Ratio>, Seq<char>), CalcError>(
            (bn + reduce_spec(sn, so, p)->Ok_0.0, bo.push('(') + reduce_spec(sn, so, p)->Ok_0.1),
        ),
        opens(reduce_spec(sn, so, p)->Ok_0.1) == opens(so),
    decreases so.len(),
{
    let lo = bo.push('(') + so;
    if so.len() > 0 {
        assert(lo.last() == so.last());
        assert(lo.drop_last() =~= bo.push('(') + so.drop_last());
    } else {
        assert(lo =~= bo.push('('));
    }
    if so.len() > 0 && crate::eval::precedence_spec(so.last()) >= p {
        lemma_apply_lift(bn, sn, so.last());
        lemma_reduce_lift(bn, bo, apply_top(sn, so.last())->Ok_0, so.drop_last(), p);
    }
}

proof fn lemma_close_lift(bn: Seq<Ratio>, bo: Seq<char>, sn: Seq<Ratio>, so: Seq<char>)
    requires
        opens(so) > 0,
        close_spec(sn, so) is Ok,
    ensures
        close_spec(bn + sn, bo.push('(') + so) == Ok::<(Seq<Ratio>, Seq<char>), CalcError>(
            (bn + close_spec(sn, so)->Ok_0.0, bo.push('(') + close_spec(sn, so)->Ok_0.1),
        ),
        opens(close_spec(sn, so)->Ok_0.1) == opens(so) - 1,
    decreases so.len(),
{
    let lo = bo.push('(') + so;
    assert(so.len() > 0);
    assert(lo.last() == so.last());
    assert(lo.drop_last() =~= bo.push('(') + so.drop_last());
    if so.last() != '(' {
        lemma_apply_lift(bn, sn, so.last());
        lemma_close_lift(bn, bo, apply_top(sn, so.last())->Ok_0, so.drop_last());
    }
}

proof fn lemma_drain_close(bn: Seq<Ratio>, bo: Seq<char>, sn: Seq<Ratio>, so: Seq<char>)
    requires
        drain_spec(sn, so) is Ok,
    ensures
        close_spec(bn + sn, bo.push('(') + so) == Ok::<(Seq<Ratio>, Seq<char>), CalcError>(
            (bn + drain_spec(sn, so)->Ok_0, bo),
        ),
    decreases so.len(),
{
    let lo = bo.push('(') + so;
    if so.len() == 0 {
        assert(lo =~= bo.push('('));
        assert(bo.push('(').drop_last() =~= bo);
    } else {
        assert(lo.last() == so.last());
        assert(lo.drop_last() =~= bo.push('(') + so.drop_last());
        assert(so.last() != '(');
        lemma_apply_lift(bn, sn, so.last());
        lemma_drain_close(bn, bo, apply_top(sn, so.last())->Ok_0, so.drop_last());
    }
}

proof fn lemma_step_lift(b: ScanState, s: ScanState, c: char)
    requires
        step_spec(s, c) is Ok,
        c == ')' ==> opens(s.ops) > 0,
    ensures
        step_spec(lift(b, s), c) == Ok::<ScanState, CalcError>(lift(b, step_spec(s, c)->Ok_0)),
        opens(step_spec(s, c)->Ok_0.ops) == opens(s.ops) + if c == '(' {
            1int
        } else if c == ')' {
            -1int
        } else {
            0int
        },
{
    let l = lift(b, s);
    let s2 = step_spec(s, c)->Ok_0;
    assert(starts_operand(l.prev) == starts_operand(s.prev));
    if ('0' <= c && c <= '9') || c == '.' || (c == '-' && starts_operand(s.prev)) {
        assert(lift(b, s2) =~~= ScanState { acc: l.acc.push(c), prev: Some(c), ..l });
    } else {
        let f = flush_spec(s)->Ok_0;
        let lf = flush_spec(l)->Ok_0;
        assert(lf == lift(b, f)) by {
            if s.acc.len() > 0 {
                assert(b.nums + s.nums.push(f.nums.last()) =~= (b.nums + s.nums).push(
                    f.nums.last(),
                ));
            }
        }
        assert(f.ops == s.ops);
        if c == '(' {
            assert(b.ops.push('(') + f.ops.push(c) =~= (b.ops.push('(') + f.ops).push(c));
            assert(f.ops.push(c).drop_last() =~= f.ops);
        } else if c == ')' {
            lemma_close_lift(b.nums, b.ops, f.nums, f.ops);
        } else {
            let p = crate::eval::precedence_spec(c);
            lemma_reduce_lift(b.nums, b.ops, f.nums, f.ops, p);
            let ro = reduce_spec(f.nums, f.ops, p)->Ok_0.1;
            assert(b.ops.push('(') + ro.push(c) =~= (b.ops.push('(') + ro).push(c));
            assert(ro.push(c).drop_last() =~= ro);
        }
    }
}

proof fn lemma_scan_lift(pre: Seq<char>, inner: Seq<char>, i: int)
    requires
        scan_spec(pre) is Ok,
        scan_spec(pre)->Ok_0.acc.len() == 0,
        0 <= i <= inner.len(),
        scan_spec(inner) is Ok,
        forall|j: int| 0 <= j <= inner.len() ==> depth(#[trigger] inner.take(j)) >= 0,
    ensures
        scan_spec(inner.take(i)) is Ok,
        scan_spec(pre.push('(') + inner.take(i)) == Ok::<ScanState, CalcError>(
            lift(scan_spec(pre)->Ok_0, scan_spec(inner.take(i))->Ok_0),
        ),
        opens(scan_spec(inner.take(i))->Ok_0.ops) == depth(inner.take(i)),
    decreases i,
{
    let b = scan_spec(pre)->Ok_0;
    if scan_spec(inner.take(i)) is Err {
        lemma_scan_error_stays(inner, i);
    }
    if i == 0 {
        let opened = pre.push('(');
        assert(opened.drop_last() =~= pre);
        assert(inner.take(0) =~= Seq::<char>::empty());
        assert(opened + inner.take(0) =~= opened);
        assert(flush_spec(b) == Ok::<ScanState, CalcError>(b));
        assert(b.acc =~= Seq::<char>::empty());
        assert(lift(b, initial_state()) =~~= ScanState {
            ops: b.ops.push('('),
            prev: Some('('),
            ..b
        }) by {
            assert(b.nums + Seq::<Ratio>::empty() =~= b.nums);
            assert(b.ops.push('(') + Seq::<char>::empty() =~= b.ops.push('('));
        }
        assert(opens(Seq::<char>::empty()) == 0);
    } else {
        lemma_scan_lift(pre, inner, i - 1);
        let c = inner[i - 1];
        let t = inner.take(i);
        assert(t.drop_last() =~= inner.take(i - 1));
        assert(t.last() == c);
        let lt = pre.push('(') + t;
        assert(lt.drop_last() =~= pre.push('(') + inner.take(i - 1));
        assert(lt.last() == c);
        let s = scan_spec(inner.take(i - 1))->Ok_0;
        assert(depth(t) >= 0);
        lemma_step_lift(b, s, c);
    }
}

/// A parenthesised group whose inside is balanced and has a value acts, for
/// the operators around it, as one operand with that value: the scan after
/// the group is the scan before it with the value pushed, as if the group had
/// been replaced by a number literal of that value and moved onto the stack.
pub proof fn lemma_group_is_operand(pre: Seq<char>, inner: Seq<char>)
    requires
        scan_spec(pre) is Ok,
        scan_spec(pre)->Ok_0.acc.len() == 0,
        balanced(inner),
        eval_spec(inner) is Ok,
    ensures
        scan_spec(pre + seq!['('] + inner + seq![')']) == Ok::<ScanState, CalcError>(
            ScanState {
                nums: scan_spec(pre)->Ok_0.nums.push(eval_spec(inner)->Ok_0),
                prev: Some(')'),
                ..scan_spec(pre)->Ok_0
            },
        ),
{
    let b = scan_spec(pre)->Ok_0;
    let n = inner.len() as int;
    lemma_scan_lift(pre, inner, n);
    assert(inner.take(n) =~= inner);
    let s = scan_spec(inner)->Ok_0;
    let f = flush_spec(s)->Ok_0;
    let ls = lift(b, s);
    let lf = flush_spec(ls)->Ok_0;
    assert(lf == lift(b, f)) by {
        if s.acc.len() > 0 {
            assert(b.nums + s.nums.push(f.nums.last()) =~= (b.nums + s.nums).push(f.nums.last()));
        }
    }
    lemma_drain_close(b.nums, b.ops, f.nums, f.ops);
    let dn = drain_spec(f.nums, f.ops)->Ok_0;
    assert(dn.len() == 1);
    assert(b.nums + dn =~= b.nums.push(dn[0]));
    let whole = pre + seq!['('] + inner + seq![')'];
    assert(pre + seq!['('] =~= pre.push('('));
    assert(whole.drop_last() =~= pre.push('(') + inner);
    assert(whole.last() == ')');
    assert(eval_spec(inner) == Ok::<Ratio, CalcError>(dn[0]));
    assert(f.acc.len() == 0);
    assert(f.acc =~= b.acc);
    assert(scan_spec(whole) == step_spec(ls, ')'));
    assert(step_spec(ls, ')') == Ok::<ScanState, CalcError>(
        ScanState { nums: b.nums + dn, ops: b.ops, prev: Some(')'), ..lf },
    ));
    assert(ScanState { nums: b.nums + dn, ops: b.ops, prev: Some(')'), ..lf } == ScanState {
        nums: b.nums.push(dn[0]),
        prev: Some(')'),
        ..b
    });
}

/// Dividing by a parenthesised group whose value is zero gives no value,
/// wherever the division stands: after any text, and followed by nothing, by
/// an operator or by `)`.
pub proof fn lemma_division_by_zero_group(p: Seq<char>, inner: Seq<char>, q: Seq<char>)
    requires
        balanced(inner),
        eval_spec(inner) is Ok,
        eval_spec(inner)->Ok_0.num == 0,
        q.len() == 0 || is_operator(q[0]) || q[0] == ')',
    ensures
        eval_spec(p + seq!['/'] + seq!['('] + inner + seq![')'] + q) is Err,
{
    let t = p.push('/');
    let u = t + seq!['('] + inner + seq![')'];
    let whole = p + seq!['/'] + seq!['('] + inner + seq![')'] + q;
    assert(p + seq!['/'] =~= t);
    assert(t.drop_last() =~= p);
    assert(t.last() == '/');
    assert(whole =~= u + q);
    if scan_spec(p) is Err {
        assert(whole.take(p.len() as int) =~= p);
        lemma_scan_error_stays(whole, p.len() as int);
    } else if scan_spec(t) is Err {
        assert(whole.take(t.len() as int) =~= t);
        lemma_scan_error_stays(whole, t.len() as int);
    } else {
        let st1 = scan_spec(t)->Ok_0;
        assert(st1.acc.len() == 0 && st1.ops.len() > 0 && st1.ops.last() == '/');
        lemma_group_is_operand(t, inner);
        let st2 = scan_spec(u)->Ok_0;
        assert(st2.acc.len() == 0);
        assert(flush_spec(st2) == Ok::<ScanState, CalcError>(st2));
        assert(apply_top(st2.nums, '/') is Err);
        if q.len() == 0 {
            assert(whole =~= u);
            assert(drain_spec(st2.nums, st2.ops) is Err);
        } else {
            let c = q[0];
            let w = u.push(c);
            assert(w.drop_last() =~= u);
            assert(w.last() == c);
            assert(!starts_operand(st2.prev));
            if c == ')' {
                assert(close_spec(st2.nums, st2.ops) is Err);
            } else {
                assert(reduce_spec(st2.nums, st2.ops, precedence_spec(c)) is Err);
            }
            assert(step_spec(st2, c) is Err);
            assert(scan_spec(w) is Err);
            assert(whole.take(w.len() as int) =~= w);
            lemma_scan_error_stays(whole, w.len() as int);
        }
    }
}

} // verus!
