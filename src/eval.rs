use vstd::prelude::*;
use crate::ratio::{CalcError, Ratio, apply_spec, apply_operator, make_reduced, reduce};
use crate::number::{parse_spec, parse_number, format_spec, format_ratio, round4, round_exec};

verus! {

pub open spec fn is_operator(c: char) -> bool {
    c == '+' || c == '-' || c == '*' || c == '/'
}

/// A `-` read here is the sign of the next number: at the start, or after an
/// operator or an opening parenthesis.
pub open spec fn starts_operand(prev: Option<char>) -> bool {
    match prev {
        None => true,
        Some(p) => is_operator(p) || p == '(',
    }
}

/// `+ -` bind at 1, `* /` at 2, anything else (the parenthesis) at 0.
pub open spec fn precedence_spec(c: char) -> int {
    if c == '+' || c == '-' {
        1
    } else if c == '*' || c == '/' {
        2
    } else {
        0
    }
}

/// Every fraction on the operand stack is well formed.
pub open spec fn all_wf(nums: Seq<Ratio>) -> bool {
    forall|i: int| 0 <= i < nums.len() ==> #[trigger] nums[i].wf()
}

/// Replaces the two topmost operands `a b` (`b` on top) by `a op b`.
pub open spec fn apply_top(nums: Seq<Ratio>, op: char) -> Result<Seq<Ratio>, CalcError> {
    if nums.len() < 2 {
        Err(CalcError::Unbalanced)
    } else {
        match apply_spec(nums[nums.len() - 2], nums[nums.len() - 1], op) {
            Ok(v) => Ok(nums.take(nums.len() - 2).push(v)),
            Err(e) => Err(e),
        }
    }
}

/// Applies operators from the top of the stack while they bind at least as
/// tightly as `p`.
pub open spec fn reduce_spec(nums: Seq<Ratio>, ops: Seq<char>, p: int) -> Result<
    (Seq<Ratio>, Seq<char>),
    CalcError,
>
    decreases ops.len(),
{
    if ops.len() > 0 && precedence_spec(ops.last()) >= p {
        match apply_top(nums, ops.last()) {
            Ok(n) => reduce_spec(n, ops.drop_last(), p),
            Err(e) => Err(e),
        }
    } else {
        Ok((nums, ops))
    }
}

/// Applies operators down to the nearest `(`, which is removed; an empty
/// stack ends it as well.
pub open spec fn close_spec(nums: Seq<Ratio>, ops: Seq<char>) -> Result<
    (Seq<Ratio>, Seq<char>),
    CalcError,
>
    decreases ops.len(),
{
    if ops.len() == 0 {
        Ok((nums, ops))
    } else if ops.last() == '(' {
        Ok((nums, ops.drop_last()))
    } else {
        match apply_top(nums, ops.last()) {
            Ok(n) => close_spec(n, ops.drop_last()),
            Err(e) => Err(e),
        }
    }
}

/// Applies every remaining operator, topmost first.
pub open spec fn drain_spec(nums: Seq<Ratio>, ops: Seq<char>) -> Result<Seq<Ratio>, CalcError>
    decreases ops.len(),
{
    if ops.len() == 0 {
        Ok(nums)
    } else {
        match apply_top(nums, ops.last()) {
            Ok(n) => drain_spec(n, ops.drop_last()),
            Err(e) => Err(e),
        }
    }
}

/// Where a scan stands between two characters.
pub struct ScanState {
    pub acc: Seq<char>,
    pub nums: Seq<Ratio>,
    pub ops: Seq<char>,
    pub prev: Option<char>,
}

pub open spec fn initial_state() -> ScanState {
    ScanState {
        acc: Seq::<char>::empty(),
        nums: Seq::<Ratio>::empty(),
        ops: Seq::<char>::empty(),
        prev: None,
    }
}

/// Moves a pending number literal onto the operand stack.
pub open spec fn flush_spec(st: ScanState) -> Result<ScanState, CalcError> {
    if st.acc.len() == 0 {
        Ok(st)
    } else {
        match parse_spec(st.acc) {
            Ok(v) => Ok(ScanState { acc: Seq::<char>::empty(), nums: st.nums.push(v), ..st }),
            Err(e) => Err(e),
        }
    }
}

/// What reading one character does to the scan.
pub open spec fn step_spec(st: ScanState, c: char) -> Result<ScanState, CalcError> {
    if ('0' <= c && c <= '9') || c == '.' || (c == '-' && starts_operand(st.prev)) {
        Ok(ScanState { acc: st.acc.push(c), prev: Some(c), ..st })
    } else if is_operator(c) || c == '(' || c == ')' {
        match flush_spec(st) {
            Err(e) => Err(e),
            Ok(f) => if c == '(' {
                Ok(ScanState { ops: f.ops.push(c), prev: Some(c), ..f })
            } else if c == ')' {
                match close_spec(f.nums, f.ops) {
                    Ok(no) => Ok(ScanState { nums: no.0, ops: no.1, prev: Some(c), ..f }),
                    Err(e) => Err(e),
                }
            } else {
                match reduce_spec(f.nums, f.ops, precedence_spec(c)) {
                    Ok(no) => Ok(ScanState { nums: no.0, ops: no.1.push(c), prev: Some(c), ..f }),
                    Err(e) => Err(e),
                }
            },
        }
    } else {
        Err(CalcError::InvalidOperator)
    }
}

/// The scan after reading all of `s`, or the first error met.
pub open spec fn scan_spec(s: Seq<char>) -> Result<ScanState, CalcError>
    decreases s.len(),
{
    if s.len() == 0 {
        Ok(initial_state())
    } else {
        match scan_spec(s.drop_last()) {
            Ok(st) => step_spec(st, s.last()),
            Err(e) => Err(e),
        }
    }
}

/// The fraction that the text of `r` with four places reads back as.
pub open spec fn shown_value(r: Ratio) -> Result<Ratio, CalcError> {
    make_reduced(if r.num < 0 { -(round4(r) as int) } else { round4(r) as int }, 10000)
}

/// A result is given only where the text it is shown as reads back as a
/// number; otherwise it is out of range.
pub open spec fn checked_result(r: Ratio) -> Result<Ratio, CalcError> {
    if shown_value(r) is Ok {
        Ok(r)
    } else {
        Err(CalcError::Overflow)
    }
}

/// The value of an expression: scan it, move the last literal over, apply
/// what is left on the operator stack; exactly one operand must remain, and
/// its shown text must read back.
pub open spec fn eval_spec(s: Seq<char>) -> Result<Ratio, CalcError> {
    match scan_spec(s) {
        Err(e) => Err(e),
        Ok(st) => match flush_spec(st) {
            Err(e) => Err(e),
            Ok(f) => match drain_spec(f.nums, f.ops) {
                Err(e) => Err(e),
                Ok(n) => if n.len() == 1 {
                    checked_result(n[0])
                } else {
                    Err(CalcError::Unbalanced)
                },
            },
        },
    }
}

/// What the calculator shows for an expression.
pub open spec fn display_spec(s: Seq<char>) -> Seq<char> {
    match eval_spec(s) {
        Ok(v) => format_spec(v),
        Err(_) => invalid_text(),
    }
}

pub open spec fn invalid_text() -> Seq<char> {
    seq!['I', 'n', 'v', 'a', 'l', 'i', 'd', ' ', 'i', 'n', 'p', 'u', 't']
}

/// Binding strength of an operator symbol.
pub fn precedence(c: char) -> (r: u8)
    ensures
        r == precedence_spec(c),
{
    if c == '+' || c == '-' {
        1
    } else if c == '*' || c == '/' {
        2
    } else {
        0
    }
}

fn apply_top_exec(nums: &mut Vec<Ratio>, op: char) -> (r: Result<(), CalcError>)
    requires
        all_wf(old(nums)@),
    ensures
        r is Ok <==> apply_top(old(nums)@, op) is Ok,
        r is Ok ==> final(nums)@ == apply_top(old(nums)@, op)->Ok_0 && all_wf(final(nums)@),
        r is Err ==> apply_top(old(nums)@, op) == Err::<Seq<Ratio>, CalcError>(r->Err_0),
{
    let len = nums.len();
    if len < 2 {
        return Err(CalcError::Unbalanced);
    }
    let ghost before = nums@;
    let b = nums.pop().unwrap();
    let a = nums.pop().unwrap();
    proof {
        crate::ratio::lemma_apply_wf(a, b, op);
    }
    match apply_operator(a, b, op) {
        Ok(v) => {
            nums.push(v);
            assert(nums@ =~= before.take(before.len() - 2).push(v));
            Ok(())
        },
        Err(e) => Err(e),
    }
}

fn reduce_exec(nums: &mut Vec<Ratio>, ops: &mut Vec<char>, p: u8) -> (r: Result<(), CalcError>)
    requires
        all_wf(old(nums)@),
    ensures
        r is Ok <==> reduce_spec(old(nums)@, old(ops)@, p as int) is Ok,
        r is Ok ==> (final(nums)@, final(ops)@) == reduce_spec(old(nums)@, old(ops)@, p as int)->Ok_0
            && all_wf(final(nums)@),
        r is Err ==> reduce_spec(old(nums)@, old(ops)@, p as int) == Err::<
            (Seq<Ratio>, Seq<char>),
            CalcError,
        >(r->Err_0),
{
    let ghost goal = reduce_spec(nums@, ops@, p as int);
    while ops.len() > 0 && precedence(ops[ops.len() - 1]) >= p
        invariant
            all_wf(nums@),
            reduce_spec(nums@, ops@, p as int) == goal,
            goal == reduce_spec(old(nums)@, old(ops)@, p as int),
        decreases ops.len(),
    {
        let top = ops.pop().unwrap();
        match apply_top_exec(nums, top) {
            Ok(()) => {},
            Err(e) => {
                return Err(e);
            },
        }
    }
    Ok(())
}

fn close_exec(nums: &mut Vec<Ratio>, ops: &mut Vec<char>) -> (r: Result<(), CalcError>)
    requires
        all_wf(old(nums)@),
    ensures
        r is Ok <==> close_spec(old(nums)@, old(ops)@) is Ok,
        r is Ok ==> (final(nums)@, final(ops)@) == close_spec(old(nums)@, old(ops)@)->Ok_0
            && all_wf(final(nums)@),
        r is Err ==> close_spec(old(nums)@, old(ops)@) == Err::<
            (Seq<Ratio>, Seq<char>),
            CalcError,
        >(r->Err_0),
{
    let ghost goal = close_spec(nums@, ops@);
    while ops.len() > 0
        invariant
            all_wf(nums@),
            close_spec(nums@, ops@) == goal,
            goal == close_spec(old(nums)@, old(ops)@),
        decreases ops.len(),
    {
        let top = ops.pop().unwrap();
        if top == '(' {
            return Ok(());
        }
        match apply_top_exec(nums, top) {
            Ok(()) => {},
            Err(e) => {
                return Err(e);
            },
        }
    }
    Ok(())
}

fn drain_exec(nums: &mut Vec<Ratio>, ops: &mut Vec<char>) -> (r: Result<(), CalcError>)
    requires
        all_wf(old(nums)@),
    ensures
        r is Ok <==> drain_spec(old(nums)@, old(ops)@) is Ok,
        r is Ok ==> final(nums)@ == drain_spec(old(nums)@, old(ops)@)->Ok_0 && all_wf(final(nums)@),
        r is Err ==> drain_spec(old(nums)@, old(ops)@) == Err::<Seq<Ratio>, CalcError>(r->Err_0),
{
    let ghost goal = drain_spec(nums@, ops@);
    while ops.len() > 0
        invariant
            all_wf(nums@),
            drain_spec(nums@, ops@) == goal,
            goal == drain_spec(old(nums)@, old(ops)@),
        decreases ops.len(),
    {
        let top = ops.pop().unwrap();
        match apply_top_exec(nums, top) {
            Ok(()) => {},
            Err(e) => {
                return Err(e);
            },
        }
    }
    Ok(())
}

fn flush_exec(acc: &mut Vec<char>, nums: &mut Vec<Ratio>) -> (r: Result<(), CalcError>)
    requires
        all_wf(old(nums)@),
    ensures
        ({
            let st = ScanState { acc: old(acc)@, nums: old(nums)@, ops: Seq::empty(), prev: None };
            &&& r is Ok <==> flush_spec(st) is Ok
            &&& r is Ok ==> final(acc)@ == flush_spec(st)->Ok_0.acc
                && final(nums)@ == flush_spec(st)->Ok_0.nums && all_wf(final(nums)@)
            &&& r is Err ==> flush_spec(st) == Err::<ScanState, CalcError>(r->Err_0)
        }),
{
    if acc.len() == 0 {
        return Ok(());
    }
    match parse_number(acc) {
        Ok(v) => {
            nums.push(v);
            acc.clear();
            Ok(())
        },
        Err(e) => Err(e),
    }
}

pub proof fn lemma_scan_error_stays(s: Seq<char>, i: int)
    requires
        0 <= i <= s.len(),
        scan_spec(s.take(i)) is Err,
    ensures
        scan_spec(s) == scan_spec(s.take(i)),
    decreases s.len() - i,
{
    if i < s.len() {
        assert(s.take(i + 1).drop_last() =~= s.take(i));
        lemma_scan_error_stays(s, i + 1);
    } else {
        assert(s.take(i) =~= s);
    }
}

/// Evaluates an expression over digits, `.`, `+ - * /` and parentheses, with
/// the usual precedence, left associativity and unary minus, exactly.
pub fn evaluate_expression(sequence: &str) -> (r: Result<Ratio, CalcError>)
    ensures
        r == eval_spec(sequence@),
        r is Ok ==> r->Ok_0.wf(),
{
    let n = sequence.unicode_len();
    let ghost s = sequence@;
    let mut acc: Vec<char> = Vec::new();
    let mut nums: Vec<Ratio> = Vec::new();
    let mut ops: Vec<char> = Vec::new();
    let mut prev: Option<char> = None;
    let mut i: usize = 0;
    assert(s.take(0) =~= Seq::<char>::empty());
    while i < n
        invariant
            n == s.len(),
            s == sequence@,
            0 <= i <= n,
            all_wf(nums@),
            scan_spec(s.take(i as int)) == Ok::<ScanState, CalcError>(
                ScanState { acc: acc@, nums: nums@, ops: ops@, prev },
            ),
        decreases n - i,
    {
        let c = sequence.get_char(i);
        let ghost st = ScanState { acc: acc@, nums: nums@, ops: ops@, prev };
        assert(s.take(i + 1).drop_last() =~= s.take(i as int));
        assert(s.take(i + 1).last() == c);
        let sign = match prev {
            None => true,
            Some(p) => p == '+' || p == '-' || p == '*' || p == '/' || p == '(',
        };
        if ('0' <= c && c <= '9') || c == '.' || (c == '-' && sign) {
            acc.push(c);
        } else if c == '+' || c == '-' || c == '*' || c == '/' || c == '(' || c == ')' {
            let fl = flush_exec(&mut acc, &mut nums);
            if fl.is_err() {
                proof {
                    lemma_scan_error_stays(s, i + 1);
                }
                return Err(fl.unwrap_err());
            }
            if c == '(' {
                ops.push(c);
            } else if c == ')' {
                let cl = close_exec(&mut nums, &mut ops);
                if cl.is_err() {
                    proof {
                        lemma_scan_error_stays(s, i + 1);
                    }
                    return Err(cl.unwrap_err());
                }
            } else {
                let rd = reduce_exec(&mut nums, &mut ops, precedence(c));
                if rd.is_err() {
                    proof {
                        lemma_scan_error_stays(s, i + 1);
                    }
                    return Err(rd.unwrap_err());
                }
                ops.push(c);
            }
        } else {
            proof {
                lemma_scan_error_stays(s, i + 1);
            }
            return Err(CalcError::InvalidOperator);
        }
        prev = Some(c);
        i = i + 1;
    }
    assert(s.take(n as int) =~= s);
    let fl = flush_exec(&mut acc, &mut nums);
    if fl.is_err() {
        return Err(fl.unwrap_err());
    }
    let dr = drain_exec(&mut nums, &mut ops);
    if dr.is_err() {
        return Err(dr.unwrap_err());
    }
    if nums.len() == 1 {
        let r = nums[0];
        let q = round_exec(r) as i128;
        match reduce(if r.num < 0 { -q } else { q }, 10000) {
            Ok(_) => Ok(r),
            Err(_) => Err(CalcError::Overflow),
        }
    } else {
        Err(CalcError::Unbalanced)
    }
}

/// Evaluates an expression and renders it as the calculator shows it: four
/// decimal places, or `Invalid input` where it has no value.
pub fn evaluate(sequence: &str) -> (s: String)
    ensures
        s@ == display_spec(sequence@),
{
    match evaluate_expression(sequence) {
        Ok(v) => format_ratio(v),
        Err(_) => {
            let t = String::from_str("Invalid input");
            proof {
                reveal_strlit("Invalid input");
            }
            assert(t@ =~= invalid_text());
            t
        },
    }
}

} // verus!
