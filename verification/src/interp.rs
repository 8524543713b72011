use vstd::prelude::*;
use crate::text::{
    lower_sp, trim_start_sp, trim_sp, split_sp, join_sp, concat_sp, prompt_sp, find2_sp,
    lemma_find2, prefix2_sp, prefix4_sp, has_prefix2, has_prefix4, bytes_eq, push_all, subvec,
    splice, lower, trim, trim_start, find2, split_bytes, join_spaces, concat_parts, prompt_parts,
    lemma_split_len, lemma_deep_u8,
};
use crate::num::{parse_usize_sp, parse_i32_sp, idec_sp, parse_usize, parse_i32, format_i32};
use crate::table::{WpTable, VarTable};

verus! {

// ---------------------------------------------------------------------------
// Errors, effects, and their mathematical views
// ---------------------------------------------------------------------------

/// A failure of a running script, tagged as the reporting boundary
/// shows it.
#[derive(Debug)]
pub enum LangError {
    NoFilename,
    FileNotFound,
    NoCmdNamed(Vec<u8>),
    NotEnoughArgs,
    NoWaypoint(Vec<u8>),
    NotInteger,
    ZeroDivision,
    UnknownOperation,
}

/// Spec-level form of `LangError`.
pub enum ErrM {
    NoFilename,
    FileNotFound,
    NoCmdNamed(Seq<u8>),
    NotEnoughArgs,
    NoWaypoint(Seq<u8>),
    NotInteger,
    ZeroDivision,
    UnknownOperation,
}

impl View for LangError {
    type V = ErrM;

    open spec fn view(&self) -> ErrM {
        match self {
            LangError::NoFilename => ErrM::NoFilename,
            LangError::FileNotFound => ErrM::FileNotFound,
            LangError::NoCmdNamed(c) => ErrM::NoCmdNamed(c@),
            LangError::NotEnoughArgs => ErrM::NotEnoughArgs,
            LangError::NoWaypoint(w) => ErrM::NoWaypoint(w@),
            LangError::NotInteger => ErrM::NotInteger,
            LangError::ZeroDivision => ErrM::ZeroDivision,
            LangError::UnknownOperation => ErrM::UnknownOperation,
        }
    }
}

/// An error paired with the line it arose on (`None` for load-time
/// failures before any line ran).
#[derive(Debug)]
pub struct Fault {
    pub error: LangError,
    pub line: Option<usize>,
}

pub struct FaultM {
    pub error: ErrM,
    pub line: Option<int>,
}

impl View for Fault {
    type V = FaultM;

    open spec fn view(&self) -> FaultM {
        FaultM {
            error: self.error@,
            line: match self.line {
                Some(l) => Some(l as int),
                None => None,
            },
        }
    }
}

/// Work the engine asks its host to perform.
pub enum Effect {
    /// Write these bytes to standard output, exactly as given.
    Print(Vec<u8>),
    /// Write the prompt, then read one line and hand it back.
    Input(Vec<u8>),
    /// Parse the token as seconds, sleep that long, and report whether
    /// the token parsed.
    Wait(Vec<u8>),
    /// Clear the terminal.
    Clear,
    /// Evaluate an arithmetic operation on the given tokens and hand
    /// back the outcome.
    Math { op: Vec<u8>, a: Vec<u8>, b: Option<Vec<u8>> },
}

pub enum EffM {
    Print(Seq<u8>),
    Input(Seq<u8>),
    Wait(Seq<u8>),
    Clear,
    Math { op: Seq<u8>, a: Seq<u8>, b: Option<Seq<u8>> },
}

impl View for Effect {
    type V = EffM;

    open spec fn view(&self) -> EffM {
        match self {
            Effect::Print(v) => EffM::Print(v@),
            Effect::Input(v) => EffM::Input(v@),
            Effect::Wait(v) => EffM::Wait(v@),
            Effect::Clear => EffM::Clear,
            Effect::Math { op, a, b } => EffM::Math {
                op: op@,
                a: a@,
                b: match b {
                    Some(x) => Some(x@),
                    None => None,
                },
            },
        }
    }
}

/// What the engine waits on after handing out an effect.
#[allow(inconsistent_fields)]
pub enum Pending {
    Idle,
    AwaitInput { name: Option<Vec<u8>> },
    AwaitWait,
    AwaitMath { name: Vec<u8>, op: Vec<u8>, b_present: bool },
}

#[allow(inconsistent_fields)]
pub enum PendM {
    Idle,
    AwaitInput { name: Option<Seq<u8>> },
    AwaitWait,
    AwaitMath { name: Seq<u8>, op: Seq<u8>, b_present: bool },
}

impl View for Pending {
    type V = PendM;

    open spec fn view(&self) -> PendM {
        match self {
            Pending::Idle => PendM::Idle,
            Pending::AwaitInput { name } => PendM::AwaitInput {
                name: match name {
                    Some(n) => Some(n@),
                    None => None,
                },
            },
            Pending::AwaitWait => PendM::AwaitWait,
            Pending::AwaitMath { name, op, b_present } => PendM::AwaitMath {
                name: name@,
                op: op@,
                b_present: *b_present,
            },
        }
    }
}

// ---------------------------------------------------------------------------
// Tokens and classifiers
// ---------------------------------------------------------------------------

pub open spec fn tok_quit() -> Seq<u8> {
    seq!['q' as u8, 'u' as u8, 'i' as u8, 't' as u8]
}

pub open spec fn tok_exit() -> Seq<u8> {
    seq!['e' as u8, 'x' as u8, 'i' as u8, 't' as u8]
}

pub open spec fn tok_if() -> Seq<u8> {
    seq!['i' as u8, 'f' as u8]
}

pub open spec fn tok_at() -> Seq<u8> {
    seq!['a' as u8, 't' as u8]
}

pub open spec fn tok_to() -> Seq<u8> {
    seq!['t' as u8, 'o' as u8]
}

pub open spec fn tok_ret() -> Seq<u8> {
    seq!['r' as u8, 'e' as u8, 't' as u8]
}

pub open spec fn tok_cursor() -> Seq<u8> {
    seq!['c' as u8, 'u' as u8, 'r' as u8, 's' as u8, 'o' as u8, 'r' as u8]
}

pub open spec fn tok_set() -> Seq<u8> {
    seq!['s' as u8, 'e' as u8, 't' as u8]
}

pub open spec fn tok_input() -> Seq<u8> {
    seq!['i' as u8, 'n' as u8, 'p' as u8, 'u' as u8, 't' as u8]
}

pub open spec fn tok_rand() -> Seq<u8> {
    seq!['r' as u8, 'a' as u8, 'n' as u8, 'd' as u8]
}

pub open spec fn tok_math() -> Seq<u8> {
    seq!['m' as u8, 'a' as u8, 't' as u8, 'h' as u8]
}

pub open spec fn tok_wait() -> Seq<u8> {
    seq!['w' as u8, 'a' as u8, 'i' as u8, 't' as u8]
}

pub open spec fn tok_out() -> Seq<u8> {
    seq!['o' as u8, 'u' as u8, 't' as u8]
}

pub open spec fn tok_clear_term() -> Seq<u8> {
    seq![
        'c' as u8, 'l' as u8, 'e' as u8, 'a' as u8, 'r' as u8, '_' as u8, 't' as u8, 'e' as u8,
        'r' as u8, 'm' as u8,
    ]
}

pub open spec fn tok_eq_word() -> Seq<u8> {
    seq!['e' as u8, 'q' as u8]
}

pub open spec fn tok_eq_sym() -> Seq<u8> {
    seq!['=' as u8, '=' as u8]
}

pub open spec fn tok_noteq_word() -> Seq<u8> {
    seq!['n' as u8, 'o' as u8, 't' as u8, 'e' as u8, 'q' as u8]
}

pub open spec fn tok_noteq_sym() -> Seq<u8> {
    seq!['!' as u8, '=' as u8]
}

pub open spec fn tok_add() -> Seq<u8> {
    seq!['a' as u8, 'd' as u8, 'd' as u8]
}

pub open spec fn tok_sub() -> Seq<u8> {
    seq!['s' as u8, 'u' as u8, 'b' as u8]
}

pub open spec fn tok_mul() -> Seq<u8> {
    seq!['m' as u8, 'u' as u8, 'l' as u8]
}

pub open spec fn tok_div() -> Seq<u8> {
    seq!['d' as u8, 'i' as u8, 'v' as u8]
}

pub open spec fn tok_mod() -> Seq<u8> {
    seq!['m' as u8, 'o' as u8, 'd' as u8]
}

pub open spec fn tok_pow() -> Seq<u8> {
    seq!['p' as u8, 'o' as u8, 'w' as u8]
}

pub open spec fn tok_sqrt() -> Seq<u8> {
    seq!['s' as u8, 'q' as u8, 'r' as u8, 't' as u8]
}

/// "%OPEN", seeded with the literal opening marker.
pub open spec fn name_open() -> Seq<u8> {
    seq!['%' as u8, 'O' as u8, 'P' as u8, 'E' as u8, 'N' as u8]
}

/// "%CLOES", seeded with the literal closing marker.
pub open spec fn name_cloes() -> Seq<u8> {
    seq!['%' as u8, 'C' as u8, 'L' as u8, 'O' as u8, 'E' as u8, 'S' as u8]
}

pub open spec fn marker_open() -> Seq<u8> {
    seq!['{' as u8, '{' as u8]
}

pub open spec fn marker_close() -> Seq<u8> {
    seq!['}' as u8, '}' as u8]
}

/// The command named by the first token, lowercased and trimmed.
pub enum CmdKind {
    Comment,
    Quit,
    Cond,
    At,
    To,
    Ret,
    Cursor,
    Assign,
    Input,
    Rand,
    Math,
    Wait,
    Out,
    ClearTerm,
    Empty,
    Other,
}

pub open spec fn cmd_kind_sp(t: Seq<u8>) -> CmdKind {
    if prefix2_sp(t, '/' as u8, '/' as u8) {
        CmdKind::Comment
    } else if t == tok_quit() || t == tok_exit() {
        CmdKind::Quit
    } else if t == tok_if() {
        CmdKind::Cond
    } else if t == tok_at() {
        CmdKind::At
    } else if t == tok_to() {
        CmdKind::To
    } else if t == tok_ret() {
        CmdKind::Ret
    } else if t == tok_cursor() {
        CmdKind::Cursor
    } else if t == tok_set() {
        CmdKind::Assign
    } else if t == tok_input() {
        CmdKind::Input
    } else if t == tok_rand() {
        CmdKind::Rand
    } else if t == tok_math() {
        CmdKind::Math
    } else if t == tok_wait() {
        CmdKind::Wait
    } else if t == tok_out() {
        CmdKind::Out
    } else if t == tok_clear_term() {
        CmdKind::ClearTerm
    } else if t.len() == 0 {
        CmdKind::Empty
    } else {
        CmdKind::Other
    }
}

pub fn cmd_kind(t: &Vec<u8>) -> (k: CmdKind)
    ensures
        k == cmd_kind_sp(t@),
{
    if has_prefix2(t, '/' as u8, '/' as u8) {
        return CmdKind::Comment;
    }
    let n = t.len();
    if n == 0 {
        return CmdKind::Empty;
    }
    if n == 2 {
        if t[0] == 'i' as u8 && t[1] == 'f' as u8 {
            proof {
                assert(t@ =~= tok_if());
            }
            return CmdKind::Cond;
        }
        if t[0] == 'a' as u8 && t[1] == 't' as u8 {
            proof {
                assert(t@ =~= tok_at());
            }
            return CmdKind::At;
        }
        if t[0] == 't' as u8 && t[1] == 'o' as u8 {
            proof {
                assert(t@ =~= tok_to());
            }
            return CmdKind::To;
        }
        return CmdKind::Other;
    }
    if n == 3 {
        if t[0] == 'r' as u8 && t[1] == 'e' as u8 && t[2] == 't' as u8 {
            proof {
                assert(t@ =~= tok_ret());
            }
            return CmdKind::Ret;
        }
        if t[0] == 's' as u8 && t[1] == 'e' as u8 && t[2] == 't' as u8 {
            proof {
                assert(t@ =~= tok_set());
            }
            return CmdKind::Assign;
        }
        if t[0] == 'o' as u8 && t[1] == 'u' as u8 && t[2] == 't' as u8 {
            proof {
                assert(t@ =~= tok_out());
            }
            return CmdKind::Out;
        }
        return CmdKind::Other;
    }
    if n == 4 {
        if t[0] == 'q' as u8 && t[1] == 'u' as u8 && t[2] == 'i' as u8 && t[3] == 't' as u8 {
            proof {
                assert(t@ =~= tok_quit());
            }
            return CmdKind::Quit;
        }
        if t[0] == 'e' as u8 && t[1] == 'x' as u8 && t[2] == 'i' as u8 && t[3] == 't' as u8 {
            proof {
                assert(t@ =~= tok_exit());
            }
            return CmdKind::Quit;
        }
        if t[0] == 'r' as u8 && t[1] == 'a' as u8 && t[2] == 'n' as u8 && t[3] == 'd' as u8 {
            proof {
                assert(t@ =~= tok_rand());
            }
            return CmdKind::Rand;
        }
        if t[0] == 'm' as u8 && t[1] == 'a' as u8 && t[2] == 't' as u8 && t[3] == 'h' as u8 {
            proof {
                assert(t@ =~= tok_math());
            }
            return CmdKind::Math;
        }
        if t[0] == 'w' as u8 && t[1] == 'a' as u8 && t[2] == 'i' as u8 && t[3] == 't' as u8 {
            proof {
                assert(t@ =~= tok_wait());
            }
            return CmdKind::Wait;
        }
        return CmdKind::Other;
    }
    if n == 5 {
        if t[0] == 'i' as u8 && t[1] == 'n' as u8 && t[2] == 'p' as u8 && t[3] == 'u' as u8 && t[4]
            == 't' as u8 {
            proof {
                assert(t@ =~= tok_input());
            }
            return CmdKind::Input;
        }
        return CmdKind::Other;
    }
    if n == 6 {
        if t[0] == 'c' as u8 && t[1] == 'u' as u8 && t[2] == 'r' as u8 && t[3] == 's' as u8 && t[4]
            == 'o' as u8 && t[5] == 'r' as u8 {
            proof {
                assert(t@ =~= tok_cursor());
            }
            return CmdKind::Cursor;
        }
        return CmdKind::Other;
    }
    if n == 10 {
        if t[0] == 'c' as u8 && t[1] == 'l' as u8 && t[2] == 'e' as u8 && t[3] == 'a' as u8 && t[4]
            == 'r' as u8 && t[5] == '_' as u8 && t[6] == 't' as u8 && t[7] == 'e' as u8 && t[8]
            == 'r' as u8 && t[9] == 'm' as u8 {
            proof {
                assert(t@ =~= tok_clear_term());
            }
            return CmdKind::ClearTerm;
        }
        return CmdKind::Other;
    }
    CmdKind::Other
}

/// The comparator token of an `if`.
pub enum CmpKind {
    CmpEq,
    CmpNe,
    CmpBad,
}

pub open spec fn cmp_kind_sp(t: Seq<u8>) -> CmpKind {
    if t == tok_eq_sym() || t == tok_eq_word() {
        CmpKind::CmpEq
    } else if t == tok_noteq_sym() || t == tok_noteq_word() {
        CmpKind::CmpNe
    } else {
        CmpKind::CmpBad
    }
}

pub fn cmp_kind(t: &Vec<u8>) -> (k: CmpKind)
    ensures
        k == cmp_kind_sp(t@),
{
    let n = t.len();
    if n == 2 {
        if t[0] == '=' as u8 && t[1] == '=' as u8 {
            proof {
                assert(t@ =~= tok_eq_sym());
            }
            return CmpKind::CmpEq;
        }
        if t[0] == 'e' as u8 && t[1] == 'q' as u8 {
            proof {
                assert(t@ =~= tok_eq_word());
            }
            return CmpKind::CmpEq;
        }
        if t[0] == '!' as u8 && t[1] == '=' as u8 {
            proof {
                assert(t@ =~= tok_noteq_sym());
            }
            return CmpKind::CmpNe;
        }
        return CmpKind::CmpBad;
    }
    if n == 5 {
        if t[0] == 'n' as u8 && t[1] == 'o' as u8 && t[2] == 't' as u8 && t[3] == 'e' as u8 && t[4]
            == 'q' as u8 {
            proof {
                assert(t@ =~= tok_noteq_word());
            }
            return CmpKind::CmpNe;
        }
        return CmpKind::CmpBad;
    }
    CmpKind::CmpBad
}

/// The action token of an `if` whose condition held.
pub enum ActKind {
    ActT,
    ActR,
    ActC,
    ActOther,
}

pub open spec fn act_kind_sp(t: Seq<u8>) -> ActKind {
    if t == seq!['t' as u8] {
        ActKind::ActT
    } else if t == seq!['r' as u8] {
        ActKind::ActR
    } else if t == seq!['c' as u8] {
        ActKind::ActC
    } else {
        ActKind::ActOther
    }
}

pub fn act_kind(t: &Vec<u8>) -> (k: ActKind)
    ensures
        k == act_kind_sp(t@),
{
    if t.len() == 1 {
        if t[0] == 't' as u8 {
            proof {
                assert(t@ =~= seq!['t' as u8]);
            }
            return ActKind::ActT;
        }
        if t[0] == 'r' as u8 {
            proof {
                assert(t@ =~= seq!['r' as u8]);
            }
            return ActKind::ActR;
        }
        if t[0] == 'c' as u8 {
            proof {
                assert(t@ =~= seq!['c' as u8]);
            }
            return ActKind::ActC;
        }
    }
    ActKind::ActOther
}

/// The operation token of a `math` command.
pub enum MathOp {
    Add,
    Sub,
    Mul,
    Div,
    Mod,
    Pow,
    Sqrt,
    Bad,
}

pub open spec fn math_op_sp(t: Seq<u8>) -> MathOp {
    if t == tok_add() {
        MathOp::Add
    } else if t == tok_sub() {
        MathOp::Sub
    } else if t == tok_mul() {
        MathOp::Mul
    } else if t == tok_div() {
        MathOp::Div
    } else if t == tok_mod() {
        MathOp::Mod
    } else if t == tok_pow() {
        MathOp::Pow
    } else if t == tok_sqrt() {
        MathOp::Sqrt
    } else {
        MathOp::Bad
    }
}

pub fn math_op(t: &Vec<u8>) -> (k: MathOp)
    ensures
        k == math_op_sp(t@),
{
    let n = t.len();
    if n == 3 {
        if t[0] == 'a' as u8 && t[1] == 'd' as u8 && t[2] == 'd' as u8 {
            proof {
                assert(t@ =~= tok_add());
            }
            return MathOp::Add;
        }
        if t[0] == 's' as u8 && t[1] == 'u' as u8 && t[2] == 'b' as u8 {
            proof {
                assert(t@ =~= tok_sub());
            }
            return MathOp::Sub;
        }
        if t[0] == 'm' as u8 && t[1] == 'u' as u8 && t[2] == 'l' as u8 {
            proof {
                assert(t@ =~= tok_mul());
            }
            return MathOp::Mul;
        }
        if t[0] == 'd' as u8 && t[1] == 'i' as u8 && t[2] == 'v' as u8 {
            proof {
                assert(t@ =~= tok_div());
            }
            return MathOp::Div;
        }
        if t[0] == 'm' as u8 && t[1] == 'o' as u8 && t[2] == 'd' as u8 {
            proof {
                assert(t@ =~= tok_mod());
            }
            return MathOp::Mod;
        }
        if t[0] == 'p' as u8 && t[1] == 'o' as u8 && t[2] == 'w' as u8 {
            proof {
                assert(t@ =~= tok_pow());
            }
            return MathOp::Pow;
        }
        return MathOp::Bad;
    }
    if n == 4 {
        if t[0] == 's' as u8 && t[1] == 'q' as u8 && t[2] == 'r' as u8 && t[3] == 't' as u8 {
            proof {
                assert(t@ =~= tok_sqrt());
            }
            return MathOp::Sqrt;
        }
        return MathOp::Bad;
    }
    MathOp::Bad
}

// ---------------------------------------------------------------------------
// Lines and tokens of a line
// ---------------------------------------------------------------------------

/// The command name of a substituted line: its first space-separated
/// token, lowercased and trimmed.
pub open spec fn cmd_of(line: Seq<u8>) -> Seq<u8> {
    trim_sp(lower_sp(split_sp(line, 32)[0]))
}

/// The arguments of a substituted line: every token after the first.
pub open spec fn args_of(line: Seq<u8>) -> Seq<Seq<u8>> {
    split_sp(line, 32).drop_first()
}

// ---------------------------------------------------------------------------
// Marker substitution
// ---------------------------------------------------------------------------

/// One substitution attempt: find the first `{{` and the first `}}`;
/// when both exist in order and the name between them is bound,
/// replace the whole span with the binding.  Anything else stops the
/// rewriting for this line.
pub open spec fn subst_step(line: Seq<u8>, vars: Map<Seq<u8>, Seq<u8>>) -> Option<Seq<u8>> {
    let st = find2_sp(line, '{' as u8, '{' as u8);
    let e0 = find2_sp(line, '}' as u8, '}' as u8);
    if st >= 0 && e0 >= 0 && st + 2 <= e0 && vars.contains_key(line.subrange(st + 2, e0)) {
        Some(line.take(st) + vars[line.subrange(st + 2, e0)] + line.skip(e0 + 2))
    } else {
        None
    }
}

pub open spec fn subst_done_sp(line: Seq<u8>, vars: Map<Seq<u8>, Seq<u8>>) -> bool {
    subst_step(line, vars) is None
}

/// `n` substitution attempts applied in order, stopping early when no
/// attempt applies.
pub open spec fn subst_iter(line: Seq<u8>, vars: Map<Seq<u8>, Seq<u8>>, n: nat) -> Seq<u8>
    decreases n,
{
    if n == 0 {
        line
    } else {
        match subst_step(line, vars) {
            Some(l2) => subst_iter(l2, vars, (n - 1) as nat),
            None => line,
        }
    }
}

/// Rewriting that the engine performs: some number of steps were
/// taken, and afterwards no further step applies unless the fuel ran
/// out.
pub open spec fn subst_fuel() -> nat {
    0xffff_ffff_ffff_ffff as nat
}

pub open spec fn subst_result(orig: Seq<u8>, vars: Map<Seq<u8>, Seq<u8>>, n: nat, sline: Seq<u8>) -> bool {
    &&& n <= subst_fuel()
    &&& sline == subst_iter(orig, vars, n)
    &&& (subst_done_sp(sline, vars) || n == subst_fuel())
}

proof fn lemma_subst_iter_snoc(line: Seq<u8>, vars: Map<Seq<u8>, Seq<u8>>, n: nat)
    ensures
        subst_iter(line, vars, n + 1) == (match subst_step(subst_iter(line, vars, n), vars) {
            Some(l2) => l2,
            None => subst_iter(line, vars, n),
        }),
    decreases n,
{
    if n == 0 {
        match subst_step(line, vars) {
            Some(l2) => {
                assert(subst_iter(line, vars, 1) == subst_iter(l2, vars, 0));
                assert(subst_iter(l2, vars, 0) == l2);
            },
            None => {
                assert(subst_iter(line, vars, 1) == line);
            },
        }
    } else {
        match subst_step(line, vars) {
            Some(l2) => {
                lemma_subst_iter_snoc(l2, vars, (n - 1) as nat);
            },
            None => {},
        }
    }
}

/// Applies marker substitution to one line against the variable store.
pub fn substitute(line: &Vec<u8>, vars: &VarTable) -> (r: Vec<u8>)
    ensures
        exists|n: nat| subst_result(line@, vars@, n, r@),
{
    let mut cur: Vec<u8> = clone_bytes(line);
    let mut fuel: u64 = 0xffff_ffff_ffff_ffff;
    let ghost mut n: nat = 0;
    while fuel > 0
        invariant
            n == subst_fuel() - fuel,
            cur@ == subst_iter(line@, vars@, n),
        decreases fuel,
    {
        proof {
            lemma_find2(cur@, '{' as u8, '{' as u8);
            lemma_find2(cur@, '}' as u8, '}' as u8);
        }
        let st_opt = find2(&cur, '{' as u8, '{' as u8);
        let st: usize = match st_opt {
            Some(v) => v,
            None => {
                proof {
                    assert(subst_done_sp(cur@, vars@));
                    assert(subst_result(line@, vars@, n, cur@));
                }
                return cur;
            },
        };
        let e0_opt = find2(&cur, '}' as u8, '}' as u8);
        let e0: usize = match e0_opt {
            Some(v) => v,
            None => {
                proof {
                    assert(subst_done_sp(cur@, vars@));
                    assert(subst_result(line@, vars@, n, cur@));
                }
                return cur;
            },
        };
        let cl: usize = cur.len();
        proof {
            assert(st + 2 <= cl);
            assert(e0 + 2 <= cl);
        }
        if st + 2 > e0 {
            proof {
                assert(subst_done_sp(cur@, vars@));
                assert(subst_result(line@, vars@, n, cur@));
            }
            return cur;
        }
        let name = subvec(&cur, st + 2, e0);
        proof {
            assert(name@ =~= cur@.subrange(st + 2, e0 as int));
        }
        let rep: Vec<u8> = match vars.get(&name) {
            Some(v) => clone_bytes(v),
            None => {
                proof {
                    assert(subst_done_sp(cur@, vars@));
                    assert(subst_result(line@, vars@, n, cur@));
                }
                return cur;
            },
        };
        let ghost prev = cur@;
        cur = splice(&cur, st, e0 + 2, &rep);
        proof {
            lemma_subst_iter_snoc(line@, vars@, n);
            assert(subst_step(prev, vars@) == Some(cur@));
            n = n + 1;
        }
        fuel -= 1;
    }
    proof {
        assert(n == subst_fuel());
        assert(subst_result(line@, vars@, n, cur@));
    }
    cur
}

/// A bytewise copy, stated exactly.
pub fn clone_bytes(v: &Vec<u8>) -> (r: Vec<u8>)
    ensures
        r@ == v@,
{
    let mut r: Vec<u8> = Vec::new();
    push_all(&mut r, v);
    r
}

// ---------------------------------------------------------------------------
// The execution model
// ---------------------------------------------------------------------------

/// The mathematical state of the engine.
#[verifier::ext_equal]
pub struct Model {
    pub code: Seq<Seq<u8>>,
    pub wps: Map<Seq<u8>, int>,
    pub vars: Map<Seq<u8>, Seq<u8>>,
    pub stack: Seq<int>,
    pub cursor: int,
    pub running: bool,
    pub pending: PendM,
    pub failed: Option<FaultM>,
}

/// The state after a command that only moves to the next line.
pub open spec fn adv(m: Model) -> Model {
    Model { cursor: m.cursor + 1, ..m }
}

/// The state after a failure on the current line.
pub open spec fn failm(m: Model, e: ErrM) -> Model {
    Model { failed: Some(FaultM { error: e, line: Some(m.cursor) }), ..m }
}

/// The bounds a `rand` command draws from, when its tokens parse.
pub open spec fn rand_bounds_sp(a: Seq<Seq<u8>>) -> Option<(int, int)> {
    match parse_i32_sp(a[2]) {
        None => None,
        Some(lo) => if a.len() >= 5 {
            match parse_i32_sp(a[4]) {
                None => None,
                Some(hi) => Some((lo, hi)),
            }
        } else {
            Some((0, lo))
        },
    }
}

/// One `if` command, on the argument tokens, when its condition and
/// action decide the outcome.
pub open spec fn if_step(m: Model, a: Seq<Seq<u8>>) -> (Model, Option<EffM>) {
    if a.len() < 2 {
        (failm(m, ErrM::NotEnoughArgs), None)
    } else if cmp_kind_sp(a[1]) is CmpBad {
        (failm(m, ErrM::UnknownOperation), None)
    } else if a.len() < 3 {
        (failm(m, ErrM::NotEnoughArgs), None)
    } else {
        let cond = if cmp_kind_sp(a[1]) is CmpEq {
            a[0] == a[2]
        } else {
            a[0] != a[2]
        };
        if !cond {
            (adv(m), None)
        } else if a.len() < 4 {
            (failm(m, ErrM::NotEnoughArgs), None)
        } else {
            match act_kind_sp(a[3]) {
                ActKind::ActT => {
                    if a.len() < 5 {
                        (failm(m, ErrM::NotEnoughArgs), None)
                    } else if m.wps.contains_key(a[4]) {
                        (Model { stack: m.stack.push(m.cursor), cursor: m.wps[a[4]], ..m }, None)
                    } else {
                        (failm(m, ErrM::NoWaypoint(a[4])), None)
                    }
                },
                ActKind::ActR => {
                    if m.stack.len() == 0 {
                        (failm(m, ErrM::NotEnoughArgs), None)
                    } else {
                        (Model { cursor: m.stack.last() + 1, stack: m.stack.drop_last(), ..m },
                        None)
                    }
                },
                ActKind::ActC => {
                    if a.len() < 5 {
                        (failm(m, ErrM::NotEnoughArgs), None)
                    } else {
                        match parse_usize_sp(a[4]) {
                            Some(v) => (Model { cursor: v, ..m }, None),
                            None => (failm(m, ErrM::NotInteger), None),
                        }
                    }
                },
                ActKind::ActOther => (adv(m), None),
            }
        }
    }
}

/// One instruction, dispatched on the substituted line.  `rnd` stands
/// for the value a `rand` command drew.
pub open spec fn step_spec(m: Model, sline: Seq<u8>, rnd: int) -> (Model, Option<EffM>) {
    let cmd = cmd_of(sline);
    let a = args_of(sline);
    match cmd_kind_sp(cmd) {
        CmdKind::Comment => (adv(m), None),
        CmdKind::Empty => (adv(m), None),
        CmdKind::At => (adv(m), None),
        CmdKind::Quit => (adv(Model { running: false, ..m }), None),
        CmdKind::Cond => if_step(m, a),
        CmdKind::To => {
            if a.len() < 1 {
                (failm(m, ErrM::NotEnoughArgs), None)
            } else if m.wps.contains_key(a[0]) {
                (Model { stack: m.stack.push(m.cursor), cursor: m.wps[a[0]], ..m }, None)
            } else {
                (failm(m, ErrM::NoWaypoint(a[0])), None)
            }
        },
        CmdKind::Ret => {
            if m.stack.len() == 0 {
                (failm(m, ErrM::NotEnoughArgs), None)
            } else {
                (Model { cursor: m.stack.last() + 1, stack: m.stack.drop_last(), ..m }, None)
            }
        },
        CmdKind::Cursor => {
            if a.len() < 1 {
                (failm(m, ErrM::NotEnoughArgs), None)
            } else {
                match parse_usize_sp(a[0]) {
                    Some(v) => (Model { cursor: v, ..m }, None),
                    None => (failm(m, ErrM::NotInteger), None),
                }
            }
        },
        CmdKind::Assign => {
            if a.len() < 1 {
                (failm(m, ErrM::NotEnoughArgs), None)
            } else {
                (adv(
                    Model { vars: m.vars.insert(trim_sp(a[0]), concat_sp(a.drop_first())), ..m },
                ), None)
            }
        },
        CmdKind::Input => {
            let prompt = if a.len() >= 1 {
                prompt_sp(a.drop_first())
            } else {
                Seq::empty()
            };
            let nm = if a.len() >= 1 {
                Some(a[0])
            } else {
                None
            };
            (Model { pending: PendM::AwaitInput { name: nm }, ..m }, Some(EffM::Input(prompt)))
        },
        CmdKind::Rand => {
            if a.len() < 3 {
                (failm(m, ErrM::NotEnoughArgs), None)
            } else {
                match rand_bounds_sp(a) {
                    None => (failm(m, ErrM::NotInteger), None),
                    Some((lo, hi)) => if lo >= hi {
                        (failm(m, ErrM::NotInteger), None)
                    } else {
                        (adv(Model { vars: m.vars.insert(a[0], idec_sp(rnd)), ..m }), None)
                    },
                }
            }
        },
        CmdKind::Math => {
            if a.len() < 3 {
                (failm(m, ErrM::NotEnoughArgs), None)
            } else {
                (
                    Model {
                        pending: PendM::AwaitMath {
                            name: a[0],
                            op: a[1],
                            b_present: a.len() >= 4,
                        },
                        ..m
                    },
                    Some(
                        EffM::Math {
                            op: a[1],
                            a: a[2],
                            b: if a.len() >= 4 {
                                Some(a[3])
                            } else {
                                None
                            },
                        },
                    ),
                )
            }
        },
        CmdKind::Wait => {
            if a.len() < 1 {
                (failm(m, ErrM::NotEnoughArgs), None)
            } else {
                (Model { pending: PendM::AwaitWait, ..m }, Some(EffM::Wait(a[0])))
            }
        },
        CmdKind::Out => {
            let text = if a.len() >= 1 && prefix4_sp(a[0], 'e' as u8, 'n' as u8, 'd' as u8, '=' as u8) {
                join_sp(a.drop_first()) + a[0].skip(4)
            } else {
                join_sp(a) + seq![10u8]
            };
            (adv(m), Some(EffM::Print(text)))
        },
        CmdKind::ClearTerm => (adv(m), Some(EffM::Clear)),
        CmdKind::Other => (failm(m, ErrM::NoCmdNamed(cmd)), None),
    }
}

/// What one call of `step` reports.
pub enum StepRes {
    Ran,
    Done,
    Failed(FaultM),
    Suspended(EffM),
    AwaitingReply,
}

pub enum StepResult {
    Ran,
    Done,
    Failed(Fault),
    Suspended(Effect),
    AwaitingReply,
}

impl View for StepResult {
    type V = StepRes;

    open spec fn view(&self) -> StepRes {
        match self {
            StepResult::Ran => StepRes::Ran,
            StepResult::Done => StepRes::Done,
            StepResult::Failed(f) => StepRes::Failed(f@),
            StepResult::Suspended(e) => StepRes::Suspended(e@),
            StepResult::AwaitingReply => StepRes::AwaitingReply,
        }
    }
}

pub open spec fn res_of(m2: Model, eff: Option<EffM>) -> StepRes {
    match m2.failed {
        Some(f) => StepRes::Failed(f),
        None => match eff {
            Some(e) => StepRes::Suspended(e),
            None => StepRes::Ran,
        },
    }
}

/// The drawn value respects the bounds of the line, when the line is a
/// well-formed `rand` command.
pub open spec fn rand_ok(sline: Seq<u8>, rnd: int) -> bool {
    if cmd_kind_sp(cmd_of(sline)) is Rand && args_of(sline).len() >= 3 {
        match rand_bounds_sp(args_of(sline)) {
            Some(b) => b.0 < b.1 ==> b.0 <= rnd < b.1,
            None => true,
        }
    } else {
        true
    }
}

/// One executed instruction: `n` substitution steps rewrote the
/// current line, `rnd` was drawn if the line asked for randomness, and
/// the state moved as `step_spec` says.
pub open spec fn step_to(m: Model, n: nat, rnd: int, m2: Model, r: StepRes) -> bool {
    let orig = m.code[m.cursor];
    let sline = subst_iter(orig, m.vars, n);
    let out = step_spec(m, sline, rnd);
    &&& m.failed is None
    &&& m.pending is Idle
    &&& m.running
    &&& 0 <= m.cursor < m.code.len()
    &&& subst_result(orig, m.vars, n, sline)
    &&& rand_ok(sline, rnd)
    &&& m2 == out.0
    &&& r == res_of(out.0, out.1)
}

/// Everything `step` promises, for every starting state.
pub open spec fn step_ensure(m: Model, m2: Model, r: StepRes) -> bool {
    match m.failed {
        Some(f) => m2 == m && r == StepRes::Failed(f),
        None => if !(m.pending is Idle) {
            m2 == m && r == StepRes::AwaitingReply
        } else if !m.running || m.cursor >= m.code.len() {
            m2 == m && r == StepRes::Done
        } else {
            exists|n: nat, rnd: int| #[trigger] step_to(m, n, rnd, m2, r)
        },
    }
}

// ---------------------------------------------------------------------------
// The engine
// ---------------------------------------------------------------------------

/// Relies on rand::random_range: a uniform draw from a nonempty
/// half-open integer range.
#[verifier::external_body]
fn draw_in_range(low: i32, high: i32) -> (r: i32)
    requires
        low < high,
    ensures
        low <= r < high,
{
    rand::random_range(low..high)
}

fn dup_error(e: &LangError) -> (r: LangError)
    ensures
        r@ == e@,
{
    match e {
        LangError::NoFilename => LangError::NoFilename,
        LangError::FileNotFound => LangError::FileNotFound,
        LangError::NoCmdNamed(c) => LangError::NoCmdNamed(clone_bytes(c)),
        LangError::NotEnoughArgs => LangError::NotEnoughArgs,
        LangError::NoWaypoint(w) => LangError::NoWaypoint(clone_bytes(w)),
        LangError::NotInteger => LangError::NotInteger,
        LangError::ZeroDivision => LangError::ZeroDivision,
        LangError::UnknownOperation => LangError::UnknownOperation,
    }
}

/// The execution engine: a program, its waypoints, its variables, and
/// the cursor-driven machine that walks them.
pub struct Interp {
    code: Vec<Vec<u8>>,
    wps: WpTable,
    vars: VarTable,
    stack: Vec<usize>,
    cursor: usize,
    running: bool,
    pending: Pending,
    failed: Option<Fault>,
}

impl View for Interp {
    type V = Model;

    closed spec fn view(&self) -> Model {
        Model {
            code: self.code.deep_view(),
            wps: self.wps@,
            vars: self.vars@,
            stack: Seq::new(self.stack@.len(), |i: int| self.stack@[i] as int),
            cursor: self.cursor as int,
            running: self.running,
            pending: self.pending@,
            failed: match self.failed {
                Some(ref f) => Some(f@),
                None => None,
            },
        }
    }
}

impl Interp {
    /// Return stack entries point into the program, and a pending
    /// effect always has a line under the cursor.
    pub open spec fn inv(self) -> bool {
        &&& forall|i: int|
            0 <= i < self@.stack.len() ==> 0 <= #[trigger] self@.stack[i] < self@.code.len()
        &&& !(self@.pending is Idle) ==> 0 <= self@.cursor < self@.code.len()
    }

    fn fail(&mut self, e: LangError) -> (r: StepResult)
        ensures
            final(self)@ == failm(old(self)@, e@),
            r@ == StepRes::Failed(FaultM { error: e@, line: Some(old(self)@.cursor) }),
            old(self).inv() ==> final(self).inv(),
    {
        let c = self.cursor;
        let e2 = dup_error(&e);
        self.failed = Some(Fault { error: e, line: Some(c) });
        proof {
            assert(self@ =~~= failm(old(self)@, e@));
            if old(self).inv() {
                assert forall|i: int| 0 <= i < self@.stack.len() implies 0 <= #[trigger] self@.stack[i]
                    < self@.code.len() by {
                    assert(self@.stack[i] == old(self)@.stack[i]);
                }
            }
        }
        StepResult::Failed(Fault { error: e2, line: Some(c) })
    }

    /// Executes the instruction under the cursor, or reports why it
    /// cannot run: a recorded failure, a pending effect, or the end of
    /// the program.
    pub fn step(&mut self) -> (r: StepResult)
        requires
            old(self).inv(),
        ensures
            final(self).inv(),
            step_ensure(old(self)@, final(self)@, r@),
    {
        let ghost m = old(self)@;
        match &self.failed {
            Some(f) => {
                let fe = dup_error(&f.error);
                let fl = f.line;
                return StepResult::Failed(Fault { error: fe, line: fl });
            },
            None => {},
        }
        match &self.pending {
            Pending::Idle => {},
            _ => {
                return StepResult::AwaitingReply;
            },
        }
        let n_code = self.code.len();
        if !self.running || self.cursor >= n_code {
            return StepResult::Done;
        }
        let c = self.cursor;
        let sline = substitute(&self.code[c], &self.vars);
        proof {
            lemma_deep_u8(self.code@[c as int]);
        }
        let ghost fuel = choose|nn: nat| subst_result(m.code[c as int], m.vars, nn, sline@);
        let toks = split_bytes(&sline, 32);
        proof {
            lemma_split_len(sline@, 32);
        }
        let cmd_low = lower(&toks[0]);
        let cmd = trim(&cmd_low);
        let ghost aa = args_of(sline@);
        proof {
            lemma_deep_u8(toks@[0]);
            assert(toks.deep_view()[0] == toks@[0]@);
            assert(cmd@ == cmd_of(sline@));
            assert(aa =~~= toks.deep_view().skip(1));
            assert(toks@.len() == aa.len() + 1);
            assert forall|j: int| 0 <= j < aa.len() implies #[trigger] aa[j] == toks@[j + 1]@ by {
                lemma_deep_u8(toks@[j + 1]);
            }
        }
        let ghost mut rnd: int = 0;
        let kind = cmd_kind(&cmd);
        match kind {
            CmdKind::Comment => {
                self.cursor = c + 1;
                let r = StepResult::Ran;
                proof {
                    assert(self@ =~~= adv(m));
                    assert(step_to(m, fuel, rnd, self@, r@));
                }
                r
            },
            CmdKind::Empty => {
                self.cursor = c + 1;
                let r = StepResult::Ran;
                proof {
                    assert(self@ =~~= adv(m));
                    assert(step_to(m, fuel, rnd, self@, r@));
                }
                r
            },
            CmdKind::At => {
                self.cursor = c + 1;
                let r = StepResult::Ran;
                proof {
                    assert(self@ =~~= adv(m));
                    assert(step_to(m, fuel, rnd, self@, r@));
                }
                r
            },
            CmdKind::Quit => {
                self.running = false;
                self.cursor = c + 1;
                let r = StepResult::Ran;
                proof {
                    assert(self@ =~~= adv(Model { running: false, ..m }));
                    assert(step_to(m, fuel, rnd, self@, r@));
                }
                r
            },
            CmdKind::Cond => {
                if toks.len() < 3 {
                    let r = self.fail(LangError::NotEnoughArgs);
                    proof {
                        assert(step_to(m, fuel, rnd, self@, r@));
                    }
                    return r;
                }
                let ck = cmp_kind(&toks[2]);
                let ck_bad = match ck {
                    CmpKind::CmpBad => true,
                    _ => false,
                };
                if ck_bad {
                    let r = self.fail(LangError::UnknownOperation);
                    proof {
                        assert(step_to(m, fuel, rnd, self@, r@));
                    }
                    return r;
                }
                if toks.len() < 4 {
                    let r = self.fail(LangError::NotEnoughArgs);
                    proof {
                        assert(step_to(m, fuel, rnd, self@, r@));
                    }
                    return r;
                }
                let eqv = bytes_eq(&toks[1], &toks[3]);
                let cond = match ck {
                    CmpKind::CmpEq => eqv,
                    _ => !eqv,
                };
                if !cond {
                    self.cursor = c + 1;
                    let r = StepResult::Ran;
                    proof {
                        assert(self@ =~~= adv(m));
                        assert(step_to(m, fuel, rnd, self@, r@));
                    }
                    return r;
                }
                if toks.len() < 5 {
                    let r = self.fail(LangError::NotEnoughArgs);
                    proof {
                        assert(step_to(m, fuel, rnd, self@, r@));
                    }
                    return r;
                }
                match act_kind(&toks[4]) {
                    ActKind::ActT => {
                        if toks.len() < 6 {
                            let r = self.fail(LangError::NotEnoughArgs);
                            proof {
                                assert(step_to(m, fuel, rnd, self@, r@));
                            }
                            return r;
                        }
                        match self.wps.get(&toks[5]) {
                            Some(w) => {
                                self.stack.push(c);
                                self.cursor = w;
                                let r = StepResult::Ran;
                                proof {
                                    assert(self@.stack =~= m.stack.push(m.cursor));
                                    assert(self@ =~~= Model {
                                        stack: m.stack.push(m.cursor),
                                        cursor: m.wps[aa[4]],
                                        ..m
                                    });
                                    assert(step_to(m, fuel, rnd, self@, r@));
                                }
                                r
                            },
                            None => {
                                let r = self.fail(LangError::NoWaypoint(clone_bytes(&toks[5])));
                                proof {
                                    assert(step_to(m, fuel, rnd, self@, r@));
                                }
                                r
                            },
                        }
                    },
                    ActKind::ActR => {
                        if self.stack.len() == 0 {
                            let r = self.fail(LangError::NotEnoughArgs);
                            proof {
                                assert(step_to(m, fuel, rnd, self@, r@));
                            }
                            return r;
                        }
                        let p = self.stack[self.stack.len() - 1];
                        self.stack.pop();
                        self.cursor = p + 1;
                        let r = StepResult::Ran;
                        proof {
                            assert(m.stack.last() == p as int);
                            assert(self@.stack =~= m.stack.drop_last());
                            assert(self@ =~~= Model {
                                cursor: m.stack.last() + 1,
                                stack: m.stack.drop_last(),
                                ..m
                            });
                            assert(step_to(m, fuel, rnd, self@, r@));
                        }
                        r
                    },
                    ActKind::ActC => {
                        if toks.len() < 6 {
                            let r = self.fail(LangError::NotEnoughArgs);
                            proof {
                                assert(step_to(m, fuel, rnd, self@, r@));
                            }
                            return r;
                        }
                        match parse_usize(&toks[5]) {
                            Some(v) => {
                                self.cursor = v;
                                let r = StepResult::Ran;
                                proof {
                                    assert(self@ =~~= Model { cursor: v as int, ..m });
                                    assert(step_to(m, fuel, rnd, self@, r@));
                                }
                                r
                            },
                            None => {
                                let r = self.fail(LangError::NotInteger);
                                proof {
                                    assert(step_to(m, fuel, rnd, self@, r@));
                                }
                                r
                            },
                        }
                    },
                    ActKind::ActOther => {
                        self.cursor = c + 1;
                        let r = StepResult::Ran;
                        proof {
                            assert(self@ =~~= adv(m));
                            assert(step_to(m, fuel, rnd, self@, r@));
                        }
                        r
                    },
                }
            },
            CmdKind::To => {
                if toks.len() < 2 {
                    let r = self.fail(LangError::NotEnoughArgs);
                    proof {
                        assert(step_to(m, fuel, rnd, self@, r@));
                    }
                    return r;
                }
                match self.wps.get(&toks[1]) {
                    Some(w) => {
                        self.stack.push(c);
                        self.cursor = w;
                        let r = StepResult::Ran;
                        proof {
                            assert(self@.stack =~= m.stack.push(m.cursor));
                            assert(self@ =~~= Model {
                                stack: m.stack.push(m.cursor),
                                cursor: m.wps[aa[0]],
                                ..m
                            });
                            assert(step_to(m, fuel, rnd, self@, r@));
                        }
                        r
                    },
                    None => {
                        let r = self.fail(LangError::NoWaypoint(clone_bytes(&toks[1])));
                        proof {
                            assert(step_to(m, fuel, rnd, self@, r@));
                        }
                        r
                    },
                }
            },
            CmdKind::Ret => {
                if self.stack.len() == 0 {
                    let r = self.fail(LangError::NotEnoughArgs);
                    proof {
                        assert(step_to(m, fuel, rnd, self@, r@));
                    }
                    return r;
                }
                let p = self.stack[self.stack.len() - 1];
                self.stack.pop();
                self.cursor = p + 1;
                let r = StepResult::Ran;
                proof {
                    assert(m.stack.last() == p as int);
                    assert(self@.stack =~= m.stack.drop_last());
                    assert(self@ =~~= Model {
                        cursor: m.stack.last() + 1,
                        stack: m.stack.drop_last(),
                        ..m
                    });
                    assert(step_to(m, fuel, rnd, self@, r@));
                }
                r
            },
            CmdKind::Cursor => {
                if toks.len() < 2 {
                    let r = self.fail(LangError::NotEnoughArgs);
                    proof {
                        assert(step_to(m, fuel, rnd, self@, r@));
                    }
                    return r;
                }
                match parse_usize(&toks[1]) {
                    Some(v) => {
                        self.cursor = v;
                        let r = StepResult::Ran;
                        proof {
                            assert(self@ =~~= Model { cursor: v as int, ..m });
                            assert(step_to(m, fuel, rnd, self@, r@));
                        }
                        r
                    },
                    None => {
                        let r = self.fail(LangError::NotInteger);
                        proof {
                            assert(step_to(m, fuel, rnd, self@, r@));
                        }
                        r
                    },
                }
            },
            CmdKind::Assign => {
                if toks.len() < 2 {
                    let r = self.fail(LangError::NotEnoughArgs);
                    proof {
                        assert(step_to(m, fuel, rnd, self@, r@));
                    }
                    return r;
                }
                let name = trim(&toks[1]);
                let value = concat_parts(&toks, 2);
                proof {
                    assert(aa.drop_first() =~~= toks.deep_view().skip(2));
                    assert(name@ == trim_sp(aa[0]));
                    assert(value@ == concat_sp(aa.drop_first()));
                }
                self.vars.insert(name, value);
                self.cursor = c + 1;
                let r = StepResult::Ran;
                proof {
                    assert(self@ =~~= adv(Model {
                        vars: m.vars.insert(trim_sp(aa[0]), concat_sp(aa.drop_first())),
                        ..m
                    }));
                    assert(step_to(m, fuel, rnd, self@, r@));
                }
                r
            },
            CmdKind::Input => {
                let nm_present = toks.len() >= 2;
                let prompt = if nm_present {
                    prompt_parts(&toks, 2)
                } else {
                    Vec::new()
                };
                let nm: Option<Vec<u8>> = if nm_present {
                    Some(clone_bytes(&toks[1]))
                } else {
                    None
                };
                proof {
                    if aa.len() >= 1 {
                        assert(aa.drop_first() =~~= toks.deep_view().skip(2));
                    }
                }
                self.pending = Pending::AwaitInput { name: nm };
                let r = StepResult::Suspended(Effect::Input(prompt));
                proof {
                    assert(self@ =~~= step_spec(m, sline@, rnd).0);
                    assert(step_to(m, fuel, rnd, self@, r@));
                }
                r
            },
            CmdKind::Rand => {
                if toks.len() < 4 {
                    let r = self.fail(LangError::NotEnoughArgs);
                    proof {
                        assert(step_to(m, fuel, rnd, self@, r@));
                    }
                    return r;
                }
                let lo_tok = parse_i32(&toks[3]);
                let lo: i32 = match lo_tok {
                    Some(v) => v,
                    None => {
                        let r = self.fail(LangError::NotInteger);
                        proof {
                            assert(step_to(m, fuel, rnd, self@, r@));
                        }
                        return r;
                    },
                };
                let lo2: i32;
                let hi2: i32;
                if toks.len() >= 6 {
                    match parse_i32(&toks[5]) {
                        Some(h) => {
                            lo2 = lo;
                            hi2 = h;
                        },
                        None => {
                            let r = self.fail(LangError::NotInteger);
                            proof {
                                assert(step_to(m, fuel, rnd, self@, r@));
                            }
                            return r;
                        },
                    }
                } else {
                    lo2 = 0;
                    hi2 = lo;
                }
                proof {
                    assert(rand_bounds_sp(aa) == Some((lo2 as int, hi2 as int)));
                }
                if lo2 >= hi2 {
                    let r = self.fail(LangError::NotInteger);
                    proof {
                        assert(step_to(m, fuel, rnd, self@, r@));
                    }
                    return r;
                }
                let v = draw_in_range(lo2, hi2);
                let bytes = format_i32(v);
                let name = clone_bytes(&toks[1]);
                self.vars.insert(name, bytes);
                self.cursor = c + 1;
                let r = StepResult::Ran;
                proof {
                    rnd = v as int;
                    assert(rand_ok(sline@, rnd));
                    assert(self@ =~~= adv(Model {
                        vars: m.vars.insert(aa[0], idec_sp(rnd)),
                        ..m
                    }));
                    assert(step_to(m, fuel, rnd, self@, r@));
                }
                r
            },
            CmdKind::Math => {
                if toks.len() < 4 {
                    let r = self.fail(LangError::NotEnoughArgs);
                    proof {
                        assert(step_to(m, fuel, rnd, self@, r@));
                    }
                    return r;
                }
                let name = clone_bytes(&toks[1]);
                let op = clone_bytes(&toks[2]);
                let op2 = clone_bytes(&toks[2]);
                let a_tok = clone_bytes(&toks[3]);
                let b_present = toks.len() >= 5;
                let b_tok: Option<Vec<u8>> = if b_present {
                    Some(clone_bytes(&toks[4]))
                } else {
                    None
                };
                self.pending = Pending::AwaitMath { name, op, b_present };
                let r = StepResult::Suspended(Effect::Math { op: op2, a: a_tok, b: b_tok });
                proof {
                    assert(self@ =~~= step_spec(m, sline@, rnd).0);
                    assert(step_to(m, fuel, rnd, self@, r@));
                }
                r
            },
            CmdKind::Wait => {
                if toks.len() < 2 {
                    let r = self.fail(LangError::NotEnoughArgs);
                    proof {
                        assert(step_to(m, fuel, rnd, self@, r@));
                    }
                    return r;
                }
                let t = clone_bytes(&toks[1]);
                self.pending = Pending::AwaitWait;
                let r = StepResult::Suspended(Effect::Wait(t));
                proof {
                    assert(self@ =~~= step_spec(m, sline@, rnd).0);
                    assert(step_to(m, fuel, rnd, self@, r@));
                }
                r
            },
            CmdKind::Out => {
                let with_end = toks.len() >= 2 && has_prefix4(
                    &toks[1],
                    'e' as u8,
                    'n' as u8,
                    'd' as u8,
                    '=' as u8,
                );
                let text: Vec<u8>;
                if with_end {
                    let mut val = join_spaces(&toks, 2);
                    let t1len = toks[1].len();
                    let suffix = subvec(&toks[1], 4, t1len);
                    push_all(&mut val, &suffix);
                    text = val;
                    proof {
                        assert(aa.drop_first() =~~= toks.deep_view().skip(2));
                        assert(aa[0].skip(4) =~= toks@[1]@.subrange(4, toks@[1]@.len() as int));
                        assert(text@ == join_sp(aa.drop_first()) + aa[0].skip(4));
                    }
                } else {
                    let mut val = join_spaces(&toks, 1);
                    val.push(10);
                    text = val;
                    proof {
                        assert(aa =~~= toks.deep_view().skip(1));
                        assert(text@ =~= join_sp(aa) + seq![10u8]);
                    }
                }
                self.cursor = c + 1;
                let r = StepResult::Suspended(Effect::Print(text));
                proof {
                    assert(self@ =~~= adv(m));
                    assert(step_to(m, fuel, rnd, self@, r@));
                }
                r
            },
            CmdKind::ClearTerm => {
                self.cursor = c + 1;
                let r = StepResult::Suspended(Effect::Clear);
                proof {
                    assert(self@ =~~= adv(m));
                    assert(step_to(m, fuel, rnd, self@, r@));
                }
                r
            },
            CmdKind::Other => {
                let r = self.fail(LangError::NoCmdNamed(cmd));
                proof {
                    assert(step_to(m, fuel, rnd, self@, r@));
                }
                r
            },
        }
    }
}

// ---------------------------------------------------------------------------
// Loading: preprocessing and waypoint indexing
// ---------------------------------------------------------------------------

/// One trailing carriage return removed, as line splitting does.
pub open spec fn strip_cr(s: Seq<u8>) -> Seq<u8> {
    if s.len() > 0 && s.last() == 13 {
        s.drop_last()
    } else {
        s
    }
}

/// The lines of a source text: split at newlines, `\r\n` endings
/// stripped, and a final empty segment dropped.
pub open spec fn raw_lines(src: Seq<u8>) -> Seq<Seq<u8>> {
    let p = split_sp(src, 10);
    let head = Seq::new((p.len() - 1) as nat, |i: int| strip_cr(p[i]));
    if p.last().len() == 0 {
        head
    } else {
        head.push(p.last())
    }
}

/// The program a source text loads to: its lines with leading
/// whitespace removed.
pub open spec fn lines_sp(src: Seq<u8>) -> Seq<Seq<u8>> {
    let rl = raw_lines(src);
    Seq::new(rl.len(), |i: int| trim_start_sp(rl[i]))
}

/// Does this line declare a waypoint?
pub open spec fn is_at_line(line: Seq<u8>) -> bool {
    lower_sp(split_sp(line, 32)[0]) == tok_at()
}

pub open spec fn at_ok(line: Seq<u8>) -> bool {
    split_sp(line, 32).len() >= 2
}

/// A waypoint declaration with no name: a load-time error.
pub open spec fn bad_at(line: Seq<u8>) -> bool {
    is_at_line(line) && !at_ok(line)
}

/// The waypoint table of a program, later declarations winning.
pub open spec fn wps_of(code: Seq<Seq<u8>>) -> Map<Seq<u8>, int>
    decreases code.len(),
{
    if code.len() == 0 {
        Map::empty()
    } else {
        let prev = wps_of(code.drop_last());
        if is_at_line(code.last()) && at_ok(code.last()) {
            prev.insert(split_sp(code.last(), 32)[1], code.len() - 1)
        } else {
            prev
        }
    }
}

/// The two seeded variables, which let a script write literal markers.
pub open spec fn init_vars() -> Map<Seq<u8>, Seq<u8>> {
    Map::empty().insert(name_open(), marker_open()).insert(name_cloes(), marker_close())
}

/// The state a freshly loaded program starts in.
pub open spec fn init_model(src: Seq<u8>) -> Model {
    Model {
        code: lines_sp(src),
        wps: wps_of(lines_sp(src)),
        vars: init_vars(),
        stack: Seq::empty(),
        cursor: 0,
        running: true,
        pending: PendM::Idle,
        failed: None,
    }
}

/// Line `i` is the first bad waypoint declaration.
pub open spec fn load_bad_at(code: Seq<Seq<u8>>, i: int) -> bool {
    &&& 0 <= i < code.len()
    &&& bad_at(code[i])
    &&& forall|j: int| 0 <= j < i ==> !bad_at(#[trigger] code[j])
}

fn preprocess(src: &Vec<u8>) -> (r: Vec<Vec<u8>>)
    ensures
        r.deep_view() == lines_sp(src@),
{
    let parts = split_bytes(src, 10);
    let n = parts.len();
    let mut out: Vec<Vec<u8>> = Vec::new();
    let mut i: usize = 0;
    while i < n - 1
        invariant
            n == parts@.len(),
            n >= 1,
            parts.deep_view() == split_sp(src@, 10),
            0 <= i <= n - 1,
            out.deep_view() =~~= Seq::new(i as nat, |j: int| trim_start_sp(strip_cr(parts.deep_view()[j]))),
        decreases n - 1 - i,
    {
        let ghost prev = out.deep_view();
        let pl = parts[i].len();
        proof {
            lemma_deep_u8(parts@[i as int]);
        }
        let stripped: Vec<u8> = if pl > 0 && parts[i][pl - 1] == 13 {
            subvec(&parts[i], 0, pl - 1)
        } else {
            clone_bytes(&parts[i])
        };
        proof {
            assert(stripped@ =~= strip_cr(parts.deep_view()[i as int]));
        }
        let t = trim_start(&stripped);
        out.push(t);
        proof {
            assert(out.deep_view() =~~= prev.push(
                trim_start_sp(strip_cr(parts.deep_view()[i as int])),
            ));
            assert(out.deep_view() =~~= Seq::new(
                (i + 1) as nat,
                |j: int| trim_start_sp(strip_cr(parts.deep_view()[j])),
            ));
        }
        i += 1;
    }
    let last_len = parts[n - 1].len();
    if last_len > 0 {
        let ghost prev = out.deep_view();
        proof {
            lemma_deep_u8(parts@[n - 1]);
        }
        let t = trim_start(&parts[n - 1]);
        out.push(t);
        proof {
            assert(out.deep_view() =~~= prev.push(trim_start_sp(parts.deep_view()[n - 1])));
            assert(parts.deep_view().last().len() > 0);
            assert(out.deep_view() =~~= lines_sp(src@));
        }
    } else {
        proof {
            assert(parts.deep_view().last().len() == 0);
            assert(out.deep_view() =~~= lines_sp(src@));
        }
    }
    out
}

fn open_name_vec() -> (r: Vec<u8>)
    ensures
        r@ == name_open(),
{
    let mut v: Vec<u8> = Vec::new();
    v.push('%' as u8);
    v.push('O' as u8);
    v.push('P' as u8);
    v.push('E' as u8);
    v.push('N' as u8);
    proof {
        assert(v@ =~= name_open());
    }
    v
}

fn cloes_name_vec() -> (r: Vec<u8>)
    ensures
        r@ == name_cloes(),
{
    let mut v: Vec<u8> = Vec::new();
    v.push('%' as u8);
    v.push('C' as u8);
    v.push('L' as u8);
    v.push('O' as u8);
    v.push('E' as u8);
    v.push('S' as u8);
    proof {
        assert(v@ =~= name_cloes());
    }
    v
}

fn open_marker_vec() -> (r: Vec<u8>)
    ensures
        r@ == marker_open(),
{
    let mut v: Vec<u8> = Vec::new();
    v.push('{' as u8);
    v.push('{' as u8);
    proof {
        assert(v@ =~= marker_open());
    }
    v
}

fn close_marker_vec() -> (r: Vec<u8>)
    ensures
        r@ == marker_close(),
{
    let mut v: Vec<u8> = Vec::new();
    v.push('}' as u8);
    v.push('}' as u8);
    proof {
        assert(v@ =~= marker_close());
    }
    v
}

impl Interp {
    /// Loads a source text: trims its lines, indexes every waypoint,
    /// and seeds the variable store.  Fails on the first `at` with no
    /// name, naming that line.
    pub fn load(source: &Vec<u8>) -> (r: Result<Interp, Fault>)
        ensures
            match r {
                Ok(it) => it.inv() && it@ == init_model(source@) && (forall|j: int|
                    0 <= j < lines_sp(source@).len() ==> !bad_at(#[trigger] lines_sp(source@)[j])),
                Err(f) => exists|i: int|
                    #[trigger] load_bad_at(lines_sp(source@), i) && f@ == FaultM {
                        error: ErrM::NotEnoughArgs,
                        line: Some(i),
                    },
            },
    {
        let code = preprocess(source);
        let ghost lines = code.deep_view();
        let mut wps = WpTable::new();
        let n = code.len();
        let mut i: usize = 0;
        while i < n
            invariant
                n == code@.len(),
                lines == code.deep_view(),
                lines == lines_sp(source@),
                0 <= i <= n,
                wps@ == wps_of(lines.take(i as int)),
                forall|j: int| 0 <= j < i ==> !bad_at(#[trigger] lines[j]),
            decreases n - i,
        {
            let toks = split_bytes(&code[i], 32);
            let low0 = lower(&toks[0]);
            proof {
                lemma_deep_u8(code@[i as int]);
                lemma_split_len(lines[i as int], 32);
                lemma_deep_u8(toks@[0]);
                assert(toks.deep_view()[0] == toks@[0]@);
                assert(low0@ == lower_sp(split_sp(lines[i as int], 32)[0]));
                assert(lines.take(i + 1).drop_last() =~~= lines.take(i as int));
                assert(lines.take(i + 1).last() == lines[i as int]);
            }
            let is_at = low0.len() == 2 && low0[0] == 'a' as u8 && low0[1] == 't' as u8;
            if is_at {
                proof {
                    assert(low0@ =~= tok_at());
                    assert(is_at_line(lines[i as int]));
                }
                if toks.len() < 2 {
                    proof {
                        assert(bad_at(lines[i as int]));
                        assert(load_bad_at(lines, i as int));
                    }
                    return Err(Fault { error: LangError::NotEnoughArgs, line: Some(i) });
                }
                let nm = clone_bytes(&toks[1]);
                proof {
                    lemma_deep_u8(toks@[1]);
                    assert(nm@ == split_sp(lines[i as int], 32)[1]);
                }
                wps.insert(nm, i);
            } else {
                proof {
                    assert(low0@ != tok_at());
                    assert(!is_at_line(lines[i as int]));
                }
            }
            i += 1;
        }
        proof {
            assert(lines.take(n as int) =~= lines);
        }
        let mut vars = VarTable::new();
        vars.insert(open_name_vec(), open_marker_vec());
        vars.insert(cloes_name_vec(), close_marker_vec());
        let it = Interp {
            code,
            wps,
            vars,
            stack: Vec::new(),
            cursor: 0,
            running: true,
            pending: Pending::Idle,
            failed: None,
        };
        proof {
            assert(it@ =~~= init_model(source@));
        }
        Ok(it)
    }
}

// ---------------------------------------------------------------------------
// Replies to effects
// ---------------------------------------------------------------------------

/// The state after the host hands back the line that `input` read.
pub open spec fn input_resume_spec(m: Model, line: Seq<u8>) -> Model {
    match m.pending {
        PendM::AwaitInput { name } => match name {
            Some(nm) => Model {
                vars: m.vars.insert(nm, trim_sp(line)),
                cursor: m.cursor + 1,
                pending: PendM::Idle,
                ..m
            },
            None => Model {
                failed: Some(FaultM { error: ErrM::NotEnoughArgs, line: Some(m.cursor) }),
                pending: PendM::Idle,
                ..m
            },
        },
        _ => m,
    }
}

/// The state after the host slept, or failed to parse the duration.
pub open spec fn wait_resume_spec(m: Model, ok: bool) -> Model {
    match m.pending {
        PendM::AwaitWait => if ok {
            Model { cursor: m.cursor + 1, pending: PendM::Idle, ..m }
        } else {
            Model {
                failed: Some(FaultM { error: ErrM::NotInteger, line: Some(m.cursor) }),
                pending: PendM::Idle,
                ..m
            }
        },
        _ => m,
    }
}

pub open spec fn math_fail(m: Model, e: ErrM) -> Model {
    Model {
        failed: Some(FaultM { error: e, line: Some(m.cursor) }),
        pending: PendM::Idle,
        ..m
    }
}

pub open spec fn math_store(m: Model, name: Seq<u8>, value: Seq<u8>) -> Model {
    Model { vars: m.vars.insert(name, value), cursor: m.cursor + 1, pending: PendM::Idle, ..m }
}

/// The state after the host evaluated a `math` command: `a_ok` and
/// `b_ok` say whether the operand tokens parsed as numbers, `b_zero`
/// whether the second parsed to zero, and `value` is the written form
/// of the result.  Errors keep the order the engine checks them in:
/// first operand, then operation, then second operand, then division
/// by zero.
pub open spec fn math_resume_spec(
    m: Model,
    a_ok: bool,
    b_ok: bool,
    b_zero: bool,
    value: Seq<u8>,
) -> Model {
    match m.pending {
        PendM::AwaitMath { name, op, b_present } => {
            if !a_ok {
                math_fail(m, ErrM::NotInteger)
            } else {
                match math_op_sp(op) {
                    MathOp::Bad => math_fail(m, ErrM::UnknownOperation),
                    MathOp::Sqrt => math_store(m, name, value),
                    MathOp::Div => if !b_present {
                        math_fail(m, ErrM::NotEnoughArgs)
                    } else if !b_ok {
                        math_fail(m, ErrM::NotInteger)
                    } else if b_zero {
                        math_fail(m, ErrM::ZeroDivision)
                    } else {
                        math_store(m, name, value)
                    },
                    _ => if !b_present {
                        math_fail(m, ErrM::NotEnoughArgs)
                    } else if !b_ok {
                        math_fail(m, ErrM::NotInteger)
                    } else {
                        math_store(m, name, value)
                    },
                }
            }
        },
        _ => m,
    }
}

impl Interp {
    /// Hands back the line that an `input` effect read.  Returns
    /// whether the engine was waiting for it.
    pub fn resume_input(&mut self, line: &Vec<u8>) -> (ok: bool)
        requires
            old(self).inv(),
        ensures
            final(self).inv(),
            final(self)@ == input_resume_spec(old(self)@, line@),
            ok == (old(self)@.pending is AwaitInput),
    {
        let ghost m = old(self)@;
        let name_c: Option<Vec<u8>>;
        match &self.pending {
            Pending::AwaitInput { name } => {
                name_c = match name {
                    Some(nm) => Some(clone_bytes(nm)),
                    None => None,
                };
            },
            _ => {
                proof {
                    assert(self@ =~~= input_resume_spec(m, line@));
                }
                return false;
            },
        }
        self.pending = Pending::Idle;
        match name_c {
            Some(nm) => {
                let v = trim(line);
                self.vars.insert(nm, v);
                let nlen = self.code.len();
                proof {
                    assert(self@.cursor < nlen);
                }
                self.cursor = self.cursor + 1;
                proof {
                    assert(self@ =~~= input_resume_spec(m, line@));
                }
            },
            None => {
                let c = self.cursor;
                self.failed = Some(Fault { error: LangError::NotEnoughArgs, line: Some(c) });
                proof {
                    assert(self@ =~~= input_resume_spec(m, line@));
                }
            },
        }
        true
    }

    /// Reports the outcome of a `wait` effect: whether the duration
    /// token parsed.  Returns whether the engine was waiting for it.
    pub fn resume_wait(&mut self, parsed: bool) -> (ok: bool)
        requires
            old(self).inv(),
        ensures
            final(self).inv(),
            final(self)@ == wait_resume_spec(old(self)@, parsed),
            ok == (old(self)@.pending is AwaitWait),
    {
        let ghost m = old(self)@;
        match &self.pending {
            Pending::AwaitWait => {},
            _ => {
                proof {
                    assert(self@ =~~= wait_resume_spec(m, parsed));
                }
                return false;
            },
        }
        self.pending = Pending::Idle;
        if parsed {
            let nlen = self.code.len();
            proof {
                assert(self@.cursor < nlen);
            }
            self.cursor = self.cursor + 1;
            proof {
                assert(self@ =~~= wait_resume_spec(m, parsed));
            }
        } else {
            let c = self.cursor;
            self.failed = Some(Fault { error: LangError::NotInteger, line: Some(c) });
            proof {
                assert(self@ =~~= wait_resume_spec(m, parsed));
            }
        }
        true
    }

    /// Reports the outcome of a `math` effect.  Returns whether the
    /// engine was waiting for it.
    pub fn resume_math(&mut self, a_ok: bool, b_ok: bool, b_zero: bool, value: &Vec<u8>) -> (ok:
        bool)
        requires
            old(self).inv(),
        ensures
            final(self).inv(),
            final(self)@ == math_resume_spec(old(self)@, a_ok, b_ok, b_zero, value@),
            ok == (old(self)@.pending is AwaitMath),
    {
        let ghost m = old(self)@;
        let name_c: Vec<u8>;
        let op_c: Vec<u8>;
        let b_present_c: bool;
        match &self.pending {
            Pending::AwaitMath { name, op, b_present } => {
                name_c = clone_bytes(name);
                op_c = clone_bytes(op);
                b_present_c = *b_present;
            },
            _ => {
                proof {
                    assert(self@ =~~= math_resume_spec(m, a_ok, b_ok, b_zero, value@));
                }
                return false;
            },
        }
        self.pending = Pending::Idle;
        if !a_ok {
            let c = self.cursor;
            self.failed = Some(Fault { error: LangError::NotInteger, line: Some(c) });
            proof {
                assert(self@ =~~= math_resume_spec(m, a_ok, b_ok, b_zero, value@));
            }
            return true;
        }
        let opk = math_op(&op_c);
        let needs_b = match opk {
            MathOp::Bad => false,
            MathOp::Sqrt => false,
            _ => true,
        };
        match opk {
            MathOp::Bad => {
                let c = self.cursor;
                self.failed = Some(Fault { error: LangError::UnknownOperation, line: Some(c) });
                proof {
                    assert(self@ =~~= math_resume_spec(m, a_ok, b_ok, b_zero, value@));
                }
                return true;
            },
            _ => {},
        }
        if needs_b {
            if !b_present_c {
                let c = self.cursor;
                self.failed = Some(Fault { error: LangError::NotEnoughArgs, line: Some(c) });
                proof {
                    assert(self@ =~~= math_resume_spec(m, a_ok, b_ok, b_zero, value@));
                }
                return true;
            }
            if !b_ok {
                let c = self.cursor;
                self.failed = Some(Fault { error: LangError::NotInteger, line: Some(c) });
                proof {
                    assert(self@ =~~= math_resume_spec(m, a_ok, b_ok, b_zero, value@));
                }
                return true;
            }
            let is_div = match opk {
                MathOp::Div => true,
                _ => false,
            };
            if is_div && b_zero {
                let c = self.cursor;
                self.failed = Some(Fault { error: LangError::ZeroDivision, line: Some(c) });
                proof {
                    assert(self@ =~~= math_resume_spec(m, a_ok, b_ok, b_zero, value@));
                }
                return true;
            }
        }
        let v = clone_bytes(value);
        self.vars.insert(name_c, v);
        let nlen = self.code.len();
        proof {
            assert(self@.cursor < nlen);
        }
        self.cursor = self.cursor + 1;
        proof {
            assert(self@ =~~= math_resume_spec(m, a_ok, b_ok, b_zero, value@));
        }
        true
    }
}

// ---------------------------------------------------------------------------
// The driving loop
// ---------------------------------------------------------------------------

/// One completed instruction that neither failed nor asked for an
/// effect.
pub open spec fn ran_step(m1: Model, m2: Model) -> bool {
    exists|n: nat, rnd: int| #[trigger] step_to(m1, n, rnd, m2, StepRes::Ran)
}

/// `k` completed instructions in a row.
pub open spec fn reaches(m1: Model, m2: Model, k: nat) -> bool
    decreases k,
{
    if k == 0 {
        m1 == m2
    } else {
        exists|mid: Model| #[trigger] ran_step(m1, mid) && reaches(mid, m2, (k - 1) as nat)
    }
}

pub enum RunRes {
    Done,
    Failed(FaultM),
    Suspended(EffM),
    AwaitingReply,
    Spent,
}

pub enum RunResult {
    Done,
    Failed(Fault),
    Suspended(Effect),
    AwaitingReply,
    Spent,
}

impl View for RunResult {
    type V = RunRes;

    open spec fn view(&self) -> RunRes {
        match self {
            RunResult::Done => RunRes::Done,
            RunResult::Failed(f) => RunRes::Failed(f@),
            RunResult::Suspended(e) => RunRes::Suspended(e@),
            RunResult::AwaitingReply => RunRes::AwaitingReply,
            RunResult::Spent => RunRes::Spent,
        }
    }
}

/// How a run ends, related to the state it ends in.
pub open spec fn terminal_match(m: Model, m2: Model, r: RunRes) -> bool {
    match r {
        RunRes::Done => m2 == m && m.failed is None && m.pending is Idle && (!m.running
            || m.cursor >= m.code.len()),
        RunRes::AwaitingReply => m2 == m && m.failed is None && !(m.pending is Idle),
        RunRes::Failed(f) => (m2 == m && m.failed == Some(f)) || (exists|n: nat, rnd: int|
            #[trigger] step_to(m, n, rnd, m2, StepRes::Failed(f))),
        RunRes::Suspended(e) => exists|n: nat, rnd: int|
            #[trigger] step_to(m, n, rnd, m2, StepRes::Suspended(e)),
        RunRes::Spent => m2 == m,
    }
}

/// A whole run: `k` completed instructions, then the ending that `r`
/// names.
pub open spec fn runs_to(m1: Model, m2: Model, k: nat, r: RunRes) -> bool
    decreases k,
{
    if k == 0 {
        terminal_match(m1, m2, r)
    } else {
        exists|mid: Model| #[trigger] ran_step(m1, mid) && runs_to(mid, m2, (k - 1) as nat, r)
    }
}

proof fn lemma_reaches_snoc(m0: Model, m1: Model, m2: Model, k: nat)
    requires
        reaches(m0, m1, k),
        ran_step(m1, m2),
    ensures
        reaches(m0, m2, k + 1),
    decreases k,
{
    if k == 0 {
        assert(ran_step(m0, m2) && reaches(m2, m2, 0));
    } else {
        let mid = choose|mid: Model| #[trigger] ran_step(m0, mid) && reaches(mid, m1, (k - 1) as nat);
        lemma_reaches_snoc(mid, m1, m2, (k - 1) as nat);
        assert(ran_step(m0, mid) && reaches(mid, m2, k as nat));
    }
}

proof fn lemma_reaches_terminal(m0: Model, m1: Model, m2: Model, k: nat, r: RunRes)
    requires
        reaches(m0, m1, k),
        terminal_match(m1, m2, r),
    ensures
        runs_to(m0, m2, k, r),
    decreases k,
{
    if k == 0 {
    } else {
        let mid = choose|mid: Model| #[trigger] ran_step(m0, mid) && reaches(mid, m1, (k - 1) as nat);
        lemma_reaches_terminal(mid, m1, m2, (k - 1) as nat, r);
        assert(ran_step(m0, mid) && runs_to(mid, m2, (k - 1) as nat, r));
    }
}

impl Interp {
    /// Drives the engine until it finishes, fails, asks for an effect,
    /// or exhausts the given budget: `Spent` comes only after exactly
    /// `budget` completed instructions.
    pub fn run(&mut self, budget: u64) -> (r: RunResult)
        requires
            old(self).inv(),
        ensures
            final(self).inv(),
            exists|k: nat|
                #[trigger] runs_to(old(self)@, final(self)@, k, r@) && (r@ is Spent ==> k
                    == budget),
    {
        let mut left: u64 = budget;
        let ghost mut k: nat = 0;
        while left > 0
            invariant
                self.inv(),
                reaches(old(self)@, self@, k),
                k + left == budget,
            decreases left,
        {
            let ghost pre = self@;
            match self.step() {
                StepResult::Ran => {
                    proof {
                        assert(ran_step(pre, self@));
                        lemma_reaches_snoc(old(self)@, pre, self@, k);
                        k = k + 1;
                    }
                },
                StepResult::Done => {
                    let r = RunResult::Done;
                    proof {
                        assert(terminal_match(self@, self@, r@));
                        lemma_reaches_terminal(old(self)@, self@, self@, k, r@);
                        assert(runs_to(old(self)@, self@, k, r@));
                    }
                    return r;
                },
                StepResult::Failed(f) => {
                    let r = RunResult::Failed(f);
                    proof {
                        assert(terminal_match(pre, self@, r@));
                        lemma_reaches_terminal(old(self)@, pre, self@, k, r@);
                        assert(runs_to(old(self)@, self@, k, r@));
                    }
                    return r;
                },
                StepResult::Suspended(e) => {
                    let r = RunResult::Suspended(e);
                    proof {
                        assert(terminal_match(pre, self@, r@));
                        lemma_reaches_terminal(old(self)@, pre, self@, k, r@);
                        assert(runs_to(old(self)@, self@, k, r@));
                    }
                    return r;
                },
                StepResult::AwaitingReply => {
                    let r = RunResult::AwaitingReply;
                    proof {
                        assert(terminal_match(self@, self@, r@));
                        lemma_reaches_terminal(old(self)@, self@, self@, k, r@);
                        assert(runs_to(old(self)@, self@, k, r@));
                    }
                    return r;
                },
            }
            left -= 1;
        }
        let r = RunResult::Spent;
        proof {
            assert(terminal_match(self@, self@, r@));
            lemma_reaches_terminal(old(self)@, self@, self@, k, r@);
            assert(runs_to(old(self)@, self@, k, r@) && k == budget);
        }
        r
    }

    /// The line the cursor stands on.
    pub fn cursor_pos(&self) -> (r: usize)
        ensures
            r as int == self@.cursor,
    {
        self.cursor
    }

    /// Whether `quit`/`exit` has run.
    pub fn is_running(&self) -> (r: bool)
        ensures
            r == self@.running,
    {
        self.running
    }

    /// How many return positions the call stack holds.
    pub fn stack_depth(&self) -> (r: usize)
        ensures
            r as int == self@.stack.len(),
    {
        self.stack.len()
    }

    /// The value of a variable, if one is stored under this name.
    pub fn var_value(&self, name: &Vec<u8>) -> (r: Option<Vec<u8>>)
        ensures
            match r {
                Some(v) => self@.vars.contains_key(name@) && self@.vars[name@] == v@,
                None => !self@.vars.contains_key(name@),
            },
    {
        match self.vars.get(name) {
            Some(v) => Some(clone_bytes(v)),
            None => None,
        }
    }
}

} // verus!

