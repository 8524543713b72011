use vstd::prelude::*;
use crate::interp::{
    Model, PendM, EffM, ErrM, FaultM, StepRes, RunRes, cmd_kind_sp, cmd_of, args_of, step_spec,
    step_to, adv, rand_bounds_sp, math_resume_spec, math_op_sp, subst_iter, subst_step,
    subst_done_sp, tok_eq_word, tok_eq_sym, ran_step, runs_to, terminal_match, input_resume_spec,
    wait_resume_spec,
};
use crate::text::{prefix2_sp, prefix4_sp, join_sp, find2_sp, trim_sp};
use crate::num::idec_sp;

verus! {

/// A line whose command neither jumps, halts, asks for an effect, nor
/// can fail: a comment, a blank line, a waypoint declaration, or a
/// `set` with a name.
pub open spec fn plain_line(sline: Seq<u8>) -> bool {
    ||| cmd_kind_sp(cmd_of(sline)) is Comment
    ||| cmd_kind_sp(cmd_of(sline)) is Empty
    ||| cmd_kind_sp(cmd_of(sline)) is At
    ||| (cmd_kind_sp(cmd_of(sline)) is Assign && args_of(sline).len() >= 1)
}

/// Execution order equals line order wherever no jump runs: a plain
/// line moves the cursor to the next line, succeeds, and leaves the
/// run flag, the call stack and the program untouched.  A program made
/// of such lines therefore runs top to bottom and halts at its end.
pub proof fn lemma_plain_line_advances(m: Model, sline: Seq<u8>, rnd: int)
    requires
        plain_line(sline),
    ensures
        step_spec(m, sline, rnd).0.cursor == m.cursor + 1,
        step_spec(m, sline, rnd).0.running == m.running,
        step_spec(m, sline, rnd).0.stack == m.stack,
        step_spec(m, sline, rnd).0.failed == m.failed,
        step_spec(m, sline, rnd).0.pending == m.pending,
        step_spec(m, sline, rnd).0.code == m.code,
        step_spec(m, sline, rnd).1 is None,
{
}

/// Every line of the program is jump-free and marker-free: besides
/// the plain lines it may print (`out`) and clear the terminal, the
/// two effects that need no reply from the host.
pub open spec fn straight_program(code: Seq<Seq<u8>>) -> bool {
    forall|i: int|
        0 <= i < code.len() ==> (plain_line(#[trigger] code[i]) || cmd_kind_sp(cmd_of(code[i]))
            is Out || cmd_kind_sp(cmd_of(code[i])) is ClearTerm) && find2_sp(
            code[i],
            '{' as u8,
            '{' as u8,
        ) < 0
}

proof fn lemma_straight_line_step(m: Model, sline: Seq<u8>, rnd: int)
    requires
        plain_line(sline) || cmd_kind_sp(cmd_of(sline)) is Out || cmd_kind_sp(cmd_of(sline))
            is ClearTerm,
    ensures
        step_spec(m, sline, rnd).0.cursor == m.cursor + 1,
        step_spec(m, sline, rnd).0.running == m.running,
        step_spec(m, sline, rnd).0.stack == m.stack,
        step_spec(m, sline, rnd).0.failed == m.failed,
        step_spec(m, sline, rnd).0.pending == m.pending,
        step_spec(m, sline, rnd).0.code == m.code,
        step_spec(m, sline, rnd).0.wps == m.wps,
        plain_line(sline) <==> step_spec(m, sline, rnd).1 is None,
{
    if plain_line(sline) {
        lemma_plain_line_advances(m, sline, rnd);
    }
}

/// Execution order equals line order, terminating at end-of-file with
/// success: in a program whose lines only print, clear, assign,
/// declare or comment — no jump commands — a run executes the lines
/// in index order, the cursor standing `k` lines further after `k`
/// completed instructions.  It ends past the last line with success,
/// spends its whole budget, or hands the host a print or clear with
/// the next line due; it never fails and never halts early, and a
/// suspended state satisfies these same hypotheses again, so the law
/// carries across every later `run`.
pub proof fn lemma_straight_program_runs_in_order(m: Model, m2: Model, k: nat, r: RunRes)
    requires
        runs_to(m, m2, k, r),
        m.failed is None,
        m.pending is Idle,
        m.running,
        straight_program(m.code),
    ensures
        r is Done || r is Spent || r is Suspended,
        r is Done ==> m2.cursor == m.cursor + k && m2.cursor >= m2.code.len() && m2.running
            && m2.failed is None,
        r is Spent ==> m2.cursor == m.cursor + k && m2.running && m2.failed is None && m2.pending
            is Idle && m2.code == m.code,
        r is Suspended ==> m2.cursor == m.cursor + k + 1 && m2.running && m2.failed is None
            && m2.pending is Idle && m2.code == m.code,
    decreases k,
{
    if k == 0 {
        match r {
            RunRes::Done => {
            },
            RunRes::Spent => {
            },
            RunRes::AwaitingReply => {
                assert(false);
            },
            RunRes::Failed(f) => {
                if m2 == m && m.failed == Some(f) {
                    assert(false);
                } else {
                    let (n, rnd) = choose|n: nat, rnd: int|
                        #[trigger] step_to(m, n, rnd, m2, StepRes::Failed(f));
                    lemma_no_marker_no_subst(m.code[m.cursor], m.vars, n);
                    lemma_straight_line_step(m, m.code[m.cursor], rnd);
                    assert(false);
                }
            },
            RunRes::Suspended(e) => {
                let (n, rnd) = choose|n: nat, rnd: int|
                    #[trigger] step_to(m, n, rnd, m2, StepRes::Suspended(e));
                lemma_no_marker_no_subst(m.code[m.cursor], m.vars, n);
                lemma_straight_line_step(m, m.code[m.cursor], rnd);
            },
        }
    } else {
        let mid = choose|mid: Model| #[trigger] ran_step(m, mid) && runs_to(mid, m2, (k - 1) as nat, r);
        let (n, rnd) = choose|n: nat, rnd: int| #[trigger] step_to(m, n, rnd, mid, StepRes::Ran);
        lemma_no_marker_no_subst(m.code[m.cursor], m.vars, n);
        lemma_straight_line_step(m, m.code[m.cursor], rnd);
        assert(mid.code == m.code);
        assert(mid.failed is None);
        assert(mid.pending is Idle);
        assert(mid.running);
        assert(mid.cursor == m.cursor + 1);
        lemma_straight_program_runs_in_order(mid, m2, (k - 1) as nat, r);
    }
}

/// `to X` on a declared waypoint pushes the current line onto the call
/// stack and moves the cursor to the waypoint's line.
pub proof fn lemma_to_jumps(m: Model, sline: Seq<u8>, rnd: int)
    requires
        cmd_kind_sp(cmd_of(sline)) is To,
        args_of(sline).len() >= 1,
        m.wps.contains_key(args_of(sline)[0]),
    ensures
        step_spec(m, sline, rnd).0.cursor == m.wps[args_of(sline)[0]],
        step_spec(m, sline, rnd).0.stack == m.stack.push(m.cursor),
        step_spec(m, sline, rnd).0.failed == m.failed,
        step_spec(m, sline, rnd).1 is None,
{
}

/// `ret` pops the call stack and resumes on the line immediately after
/// the jump that pushed last.  With the lemma above: a `to` whose
/// pushed entry is still on top when a `ret` runs resumes right after
/// the `to`.
pub proof fn lemma_ret_returns(m: Model, sline: Seq<u8>, rnd: int, pushed: int)
    requires
        cmd_kind_sp(cmd_of(sline)) is Ret,
        m.stack.len() > 0,
        m.stack.last() == pushed,
    ensures
        step_spec(m, sline, rnd).0.cursor == pushed + 1,
        step_spec(m, sline, rnd).0.stack == m.stack.drop_last(),
        step_spec(m, sline, rnd).0.failed == m.failed,
{
}

/// `to X` followed eventually by `ret` resumes just after the `to`:
/// the `to` pushes its own line, and a later `ret` that runs once that
/// entry is back on top of the stack moves the cursor to that line
/// plus one — for any declared waypoint `X` and any work in between
/// that restored the stack.
pub proof fn lemma_to_then_ret_resumes_after(
    m: Model,
    sline: Seq<u8>,
    rnd: int,
    m2: Model,
    sline2: Seq<u8>,
    rnd2: int,
)
    requires
        cmd_kind_sp(cmd_of(sline)) is To,
        args_of(sline).len() >= 1,
        m.wps.contains_key(args_of(sline)[0]),
        m2.stack == step_spec(m, sline, rnd).0.stack,
        cmd_kind_sp(cmd_of(sline2)) is Ret,
    ensures
        step_spec(m2, sline2, rnd2).0.cursor == m.cursor + 1,
        step_spec(m2, sline2, rnd2).0.stack == m.stack,
{
    lemma_to_jumps(m, sline, rnd);
    assert(m2.stack.last() == m.cursor);
    lemma_ret_returns(m2, sline2, rnd2, m.cursor);
    assert(m2.stack.drop_last() =~= m.stack);
}

/// `if x eq x t L` always jumps: equal operand tokens take the `t`
/// action, pushing the current line and moving to the waypoint.
pub proof fn lemma_if_self_equal_jumps(m: Model, sline: Seq<u8>, rnd: int)
    requires
        cmd_kind_sp(cmd_of(sline)) is Cond,
        args_of(sline).len() >= 5,
        args_of(sline)[1] == tok_eq_word() || args_of(sline)[1] == tok_eq_sym(),
        args_of(sline)[0] == args_of(sline)[2],
        args_of(sline)[3] == seq!['t' as u8],
        m.wps.contains_key(args_of(sline)[4]),
    ensures
        step_spec(m, sline, rnd).0.cursor == m.wps[args_of(sline)[4]],
        step_spec(m, sline, rnd).0.stack == m.stack.push(m.cursor),
        step_spec(m, sline, rnd).0.failed == m.failed,
{
}

/// `if x eq y …` with distinct operands never jumps: the state moves
/// to the next line and nothing else changes, whatever the action and
/// target tokens hold.
pub proof fn lemma_if_distinct_never_jumps(m: Model, sline: Seq<u8>, rnd: int)
    requires
        cmd_kind_sp(cmd_of(sline)) is Cond,
        args_of(sline).len() >= 3,
        args_of(sline)[1] == tok_eq_word() || args_of(sline)[1] == tok_eq_sym(),
        args_of(sline)[0] != args_of(sline)[2],
    ensures
        step_spec(m, sline, rnd).0 == adv(m),
        step_spec(m, sline, rnd).1 is None,
{
}

/// An executed `rand` with sound bounds stores the written form of the
/// drawn value under the named variable, and the draw lies in the
/// half-open range: `[0, low)` with one bound given, `[low, high)`
/// with two.
pub proof fn lemma_rand_stores_in_range(
    m: Model,
    n: nat,
    rnd: int,
    m2: Model,
    lo: int,
    hi: int,
)
    requires
        step_to(m, n, rnd, m2, StepRes::Ran),
        cmd_kind_sp(cmd_of(subst_iter(m.code[m.cursor], m.vars, n))) is Rand,
        args_of(subst_iter(m.code[m.cursor], m.vars, n)).len() >= 3,
        rand_bounds_sp(args_of(subst_iter(m.code[m.cursor], m.vars, n))) == Some((lo, hi)),
        lo < hi,
    ensures
        lo <= rnd < hi,
        m2.vars == m.vars.insert(
            args_of(subst_iter(m.code[m.cursor], m.vars, n))[0],
            idec_sp(rnd),
        ),
        m2.cursor == m.cursor + 1,
{
}

/// An unbalanced `ret` — no pushed jump to return to — yields the
/// `NotEnoughArgs` error on the current line, never a crash.
pub proof fn lemma_unbalanced_ret_is_error(m: Model, sline: Seq<u8>, rnd: int)
    requires
        cmd_kind_sp(cmd_of(sline)) is Ret,
        m.stack.len() == 0,
    ensures
        step_spec(m, sline, rnd).0.failed == Some(
            FaultM { error: ErrM::NotEnoughArgs, line: Some(m.cursor) },
        ),
{
}

/// `to` on an undeclared waypoint fails with `NoWaypoint` carrying the
/// attempted name and the current line index.
pub proof fn lemma_to_missing_waypoint_named(m: Model, sline: Seq<u8>, rnd: int)
    requires
        cmd_kind_sp(cmd_of(sline)) is To,
        args_of(sline).len() >= 1,
        !m.wps.contains_key(args_of(sline)[0]),
    ensures
        step_spec(m, sline, rnd).0.failed == Some(
            FaultM { error: ErrM::NoWaypoint(args_of(sline)[0]), line: Some(m.cursor) },
        ),
{
}

/// `if … t` on an undeclared waypoint fails the same way, naming the
/// target it tried.
pub proof fn lemma_if_missing_waypoint_named(m: Model, sline: Seq<u8>, rnd: int)
    requires
        cmd_kind_sp(cmd_of(sline)) is Cond,
        args_of(sline).len() >= 5,
        args_of(sline)[1] == tok_eq_word() || args_of(sline)[1] == tok_eq_sym(),
        args_of(sline)[0] == args_of(sline)[2],
        args_of(sline)[3] == seq!['t' as u8],
        !m.wps.contains_key(args_of(sline)[4]),
    ensures
        step_spec(m, sline, rnd).0.failed == Some(
            FaultM { error: ErrM::NoWaypoint(args_of(sline)[4]), line: Some(m.cursor) },
        ),
{
}

/// `out` emits exactly one print: with a first token `end=<suffix>`,
/// the remaining tokens space-joined followed by the suffix and no
/// newline; otherwise all tokens space-joined followed by one newline.
pub proof fn lemma_out_prints(m: Model, sline: Seq<u8>, rnd: int)
    requires
        cmd_kind_sp(cmd_of(sline)) is Out,
    ensures
        step_spec(m, sline, rnd).0 == adv(m),
        ({
            let a = args_of(sline);
            if a.len() >= 1 && prefix4_sp(a[0], 'e' as u8, 'n' as u8, 'd' as u8, '=' as u8) {
                step_spec(m, sline, rnd).1 == Some(
                    EffM::Print(join_sp(a.drop_first()) + a[0].skip(4)),
                )
            } else {
                step_spec(m, sline, rnd).1 == Some(EffM::Print(join_sp(a) + seq![10u8]))
            }
        }),
{
}

/// A line with no opening marker is beyond the reach of substitution:
/// any number of rewriting steps leaves it as it stands.
pub proof fn lemma_no_marker_no_subst(line: Seq<u8>, vars: Map<Seq<u8>, Seq<u8>>, n: nat)
    requires
        find2_sp(line, '{' as u8, '{' as u8) < 0,
    ensures
        subst_iter(line, vars, n) == line,
        subst_done_sp(line, vars),
{
    assert(subst_step(line, vars) is None);
}

/// Execution order equals line order, stated on whole instructions: in
/// a program whose current line holds no marker and no jump, one
/// executed instruction moves the cursor from its line to the next and
/// ends in a live, unfailed state.
pub proof fn lemma_straight_line_order(m: Model, n: nat, rnd: int, m2: Model)
    requires
        step_to(m, n, rnd, m2, StepRes::Ran),
        find2_sp(m.code[m.cursor], '{' as u8, '{' as u8) < 0,
        plain_line(m.code[m.cursor]),
    ensures
        m2.cursor == m.cursor + 1,
        m2.running,
        m2.code == m.code,
        m2.stack == m.stack,
        m2.failed is None,
        m2.pending is Idle,
{
    lemma_no_marker_no_subst(m.code[m.cursor], m.vars, n);
    lemma_plain_line_advances(m, m.code[m.cursor], rnd);
}

/// A reply to `input` stores the trimmed line under the awaited name
/// and resumes on the next line, so an `input` line too runs exactly
/// once, in index order.
pub proof fn lemma_input_resume_advances(m: Model, nm: Seq<u8>, line: Seq<u8>)
    requires
        m.pending == (PendM::AwaitInput { name: Some(nm) }),
    ensures
        input_resume_spec(m, line).cursor == m.cursor + 1,
        input_resume_spec(m, line).vars == m.vars.insert(nm, trim_sp(line)),
        input_resume_spec(m, line).failed == m.failed,
        input_resume_spec(m, line).pending is Idle,
        input_resume_spec(m, line).running == m.running,
        input_resume_spec(m, line).code == m.code,
{
}

/// A `wait` whose duration parsed resumes on the next line with the
/// state otherwise unchanged, so a `wait` line too runs exactly once,
/// in index order.
pub proof fn lemma_wait_resume_advances(m: Model)
    requires
        m.pending is AwaitWait,
    ensures
        wait_resume_spec(m, true).cursor == m.cursor + 1,
        wait_resume_spec(m, true).vars == m.vars,
        wait_resume_spec(m, true).failed == m.failed,
        wait_resume_spec(m, true).pending is Idle,
        wait_resume_spec(m, true).running == m.running,
        wait_resume_spec(m, true).code == m.code,
{
}

/// A comment line never affects control flow or state: whatever
/// follows the `//`, only the cursor moves, by one.
pub proof fn lemma_comment_is_no_op(m: Model, sline: Seq<u8>, rnd: int)
    requires
        prefix2_sp(cmd_of(sline), '/' as u8, '/' as u8),
    ensures
        step_spec(m, sline, rnd).0 == adv(m),
        step_spec(m, sline, rnd).1 is None,
{
}

/// `math … div` with a divisor that parsed to zero fails with
/// `ZeroDivision`; with a nonzero divisor it stores the evaluated
/// result under the named variable and moves on.
pub proof fn lemma_math_div(m: Model, name: Seq<u8>, op: Seq<u8>, value: Seq<u8>)
    requires
        m.pending == (PendM::AwaitMath { name, op, b_present: true }),
        math_op_sp(op) is Div,
    ensures
        math_resume_spec(m, true, true, true, value).failed == Some(
            FaultM { error: ErrM::ZeroDivision, line: Some(m.cursor) },
        ),
        math_resume_spec(m, true, true, false, value).vars == m.vars.insert(name, value),
        math_resume_spec(m, true, true, false, value).cursor == m.cursor + 1,
        math_resume_spec(m, true, true, false, value).failed == m.failed,
{
}

} // verus!
