use vstd::prelude::*;
use crate::calcdep::{calc_unary, parse_display, sqrt_display_of, sqrt_session};
use crate::display::{render_sized, sized_spec};
use crate::number::{abs_norm, add_norm, div_norm, inv_norm, le_one, mul_norm, neg_norm,
    percent_norm, rat_abs, rat_add, rat_div, rat_inv, rat_le_one, rat_mul, rat_neg, rat_percent,
    rat_sub, sabs, sub_norm, Number};
use crate::text::{append_chars, append_fill, char_digit, digit_char, digit_to_char, digits_val,
    frac_digits, is_digit_char, lemma_digits_val_bound, lemma_pow10_18, lemma_pow10_mono,
    nat_digits, pow10, pow10_u64, push_frac_digits, push_nat_digits};
use crate::token::{classify, classify_spec, func_name, func_name_chars, op_char, op_char_exec,
    BinOp, CalcError, Func, Token};

verus! {

/// How many fraction digits a value is rendered with before the width rules
/// cut it further.
pub const RENDER_FRAC: u64 = 16;

/// Engine configuration.
#[derive(Clone, Copy, PartialEq, Eq, Structural, Debug)]
pub struct Config {
    pub enable_undo: bool,
    pub enable_history: bool,
    pub max_undo_depth: usize,
}

/// An operand mid-entry: integer digits and, once the decimal key was
/// pressed, fraction digits.
#[derive(Clone, PartialEq, Eq, Debug)]
pub struct Entry {
    pub ip: Vec<char>,
    pub fp: Option<Vec<char>>,
}

#[verifier::ext_equal]
pub ghost struct EntryV {
    pub ip: Seq<char>,
    pub fp: Option<Seq<char>>,
}

impl View for Entry {
    type V = EntryV;

    open spec fn view(&self) -> EntryV {
        EntryV {
            ip: self.ip@,
            fp: match self.fp {
                Some(f) => Some(f@),
                None => None,
            },
        }
    }
}

impl EntryV {
    /// The operand text as typed.
    pub open spec fn text(self) -> Seq<char> {
        self.ip + (match self.fp {
            Some(f) => seq!['.'] + f,
            None => Seq::empty(),
        })
    }

    pub open spec fn digits(self) -> Seq<char> {
        self.ip + (match self.fp {
            Some(f) => f,
            None => Seq::empty(),
        })
    }

    pub open spec fn fp_len(self) -> nat {
        match self.fp {
            Some(f) => f.len(),
            None => 0,
        }
    }

    pub open spec fn wf(self) -> bool {
        &&& self.ip.len() >= 1
        &&& self.digits().len() <= 18
        &&& forall|i: int| 0 <= i < self.ip.len() ==> is_digit_char(#[trigger] self.ip[i])
        &&& match self.fp {
            Some(f) => forall|i: int| 0 <= i < f.len() ==> is_digit_char(#[trigger] f[i]),
            None => true,
        }
    }

    /// The value the entry denotes.
    pub open spec fn val(self) -> Number {
        Number { num: digits_val(self.digits()) as i64, den: pow10(self.fp_len()) as i64 }
    }
}

/// An operator-stack element: a pending binary operator or an open bracket.
#[derive(Clone, Copy, PartialEq, Eq, Structural, Debug)]
pub enum OpEnt {
    B(BinOp),
    Open,
}

/// One completed calculation.
#[derive(Clone, PartialEq, Eq, Debug)]
pub struct Hist {
    pub expr: Vec<char>,
    pub res: Vec<char>,
}

#[verifier::ext_equal]
pub ghost struct HistV {
    pub expr: Seq<char>,
    pub res: Seq<char>,
}

impl View for Hist {
    type V = HistV;

    open spec fn view(&self) -> HistV {
        HistV { expr: self.expr@, res: self.res@ }
    }
}

/// The undoable part of the engine state.
#[derive(Clone, PartialEq, Eq, Debug)]
pub struct Snap {
    pub entry: Option<Entry>,
    pub acc: Option<Number>,
    pub ops: Vec<OpEnt>,
    pub vals: Vec<Number>,
    pub last_op: Option<BinOp>,
    pub expr: Vec<char>,
    pub err: Option<CalcError>,
}

#[verifier::ext_equal]
pub ghost struct CoreV {
    pub entry: Option<EntryV>,
    pub acc: Option<Number>,
    pub ops: Seq<OpEnt>,
    pub vals: Seq<Number>,
    pub last_op: Option<BinOp>,
    pub expr: Seq<char>,
    pub err: Option<CalcError>,
}

impl View for Snap {
    type V = CoreV;

    open spec fn view(&self) -> CoreV {
        CoreV {
            entry: match self.entry {
                Some(e) => Some(e@),
                None => None,
            },
            acc: self.acc,
            ops: self.ops@,
            vals: self.vals@,
            last_op: self.last_op,
            expr: self.expr@,
            err: self.err,
        }
    }
}

#[verifier::ext_equal]
pub ghost struct StV {
    pub core: CoreV,
    pub history: Seq<HistV>,
    pub undo: Seq<CoreV>,
    pub cfg: Config,
}

/// The calculator engine: a token-driven expression evaluator with undo,
/// history, bracket tracking and fixed-width display rendering.
#[derive(Clone, PartialEq, Debug)]
pub struct Engine {
    pub entry: Option<Entry>,
    pub acc: Option<Number>,
    pub ops: Vec<OpEnt>,
    pub vals: Vec<Number>,
    pub last_op: Option<BinOp>,
    pub expr: Vec<char>,
    pub history: Vec<Hist>,
    pub undo_stack: Vec<Snap>,
    pub err: Option<CalcError>,
    pub cfg: Config,
}

impl View for Engine {
    type V = StV;

    open spec fn view(&self) -> StV {
        StV {
            core: CoreV {
                entry: match self.entry {
                    Some(e) => Some(e@),
                    None => None,
                },
                acc: self.acc,
                ops: self.ops@,
                vals: self.vals@,
                last_op: self.last_op,
                expr: self.expr@,
                err: self.err,
            },
            history: self.history@.map_values(|h: Hist| h@),
            undo: self.undo_stack@.map_values(|s: Snap| s@),
            cfg: self.cfg,
        }
    }
}

/// Pending binary operators on the stack.
pub open spec fn count_bins(ops: Seq<OpEnt>) -> nat
    decreases ops.len(),
{
    if ops.len() == 0 {
        0
    } else {
        count_bins(ops.drop_last()) + (if ops.last() is B {
            1nat
        } else {
            0nat
        })
    }
}

/// Unmatched open brackets on the stack.
pub open spec fn count_opens(ops: Seq<OpEnt>) -> nat
    decreases ops.len(),
{
    if ops.len() == 0 {
        0
    } else {
        count_opens(ops.drop_last()) + (if ops.last() is Open {
            1nat
        } else {
            0nat
        })
    }
}

/// Internal consistency of the undoable state: a well-formed entry, sound
/// rational values, and one waiting operand per pending binary operator.
pub open spec fn core_inv(c: CoreV) -> bool {
    &&& match c.entry {
        Some(e) => e.wf(),
        None => true,
    }
    &&& match c.acc {
        Some(v) => v.wf(),
        None => true,
    }
    &&& forall|i: int| 0 <= i < c.vals.len() ==> (#[trigger] c.vals[i]).wf()
    &&& count_bins(c.ops) == c.vals.len()
}

/// Engine invariant: the live state, and everything on the undo stack, is
/// internally consistent; the undo stack respects its configured bound.
pub open spec fn inv(s: StV) -> bool {
    &&& core_inv(s.core)
    &&& forall|i: int| 0 <= i < s.undo.len() ==> core_inv(#[trigger] s.undo[i])
    &&& if s.cfg.enable_undo {
        s.undo.len() <= s.cfg.max_undo_depth
    } else {
        s.undo.len() == 0
    }
}

pub open spec fn opt_to_res(o: Option<Number>) -> Result<Number, CalcError> {
    match o {
        Some(v) => Ok(v),
        None => Err(CalcError::OverflowError),
    }
}

/// What one binary reduction yields: the exact rational, a divide-by-zero,
/// or an overflow when the reduced value leaves the 64-bit range.
pub open spec fn bin_res(op: BinOp, a: Number, b: Number) -> Result<Number, CalcError> {
    match op {
        BinOp::Add => opt_to_res(add_norm(a, b)),
        BinOp::Sub => opt_to_res(sub_norm(a, b)),
        BinOp::Mul => opt_to_res(mul_norm(a, b)),
        BinOp::Div => if b.num == 0 {
            Err(CalcError::DivideByZero)
        } else {
            opt_to_res(div_norm(a, b))
        },
    }
}

/// Shunting-yard reduction before pushing an operator of precedence `p`:
/// pop-and-apply while the stack top is a binary operator binding at least
/// as tightly; an open bracket stops it.
pub open spec fn reduce_bin(ops: Seq<OpEnt>, vals: Seq<Number>, cur: Number, p: nat) -> Result<
    (Seq<OpEnt>, Seq<Number>, Number),
    CalcError,
>
    decreases ops.len(),
{
    if ops.len() > 0 && (ops.last() matches OpEnt::B(op2) && crate::token::prec(op2) >= p) {
        match ops.last() {
            OpEnt::B(op2) => match bin_res(op2, vals.last(), cur) {
                Ok(v) => reduce_bin(ops.drop_last(), vals.drop_last(), v, p),
                Err(e) => Err(e),
            },
            OpEnt::Open => Err(CalcError::MalformedExpression),
        }
    } else {
        Ok((ops, vals, cur))
    }
}

/// Reduction for a closing bracket: apply pending operators down to the
/// matching open bracket and pop it.
pub open spec fn reduce_close(ops: Seq<OpEnt>, vals: Seq<Number>, cur: Number) -> Result<
    (Seq<OpEnt>, Seq<Number>, Number),
    CalcError,
>
    decreases ops.len(),
{
    if ops.len() == 0 {
        Ok((ops, vals, cur))
    } else {
        match ops.last() {
            OpEnt::Open => Ok((ops.drop_last(), vals, cur)),
            OpEnt::B(op2) => match bin_res(op2, vals.last(), cur) {
                Ok(v) => reduce_close(ops.drop_last(), vals.drop_last(), v),
                Err(e) => Err(e),
            },
        }
    }
}

/// Full reduction for `=`: unmatched open brackets are treated as closed at
/// the end of the expression.
pub open spec fn reduce_all(ops: Seq<OpEnt>, vals: Seq<Number>, cur: Number) -> Result<
    Number,
    CalcError,
>
    decreases ops.len(),
{
    if ops.len() == 0 {
        Ok(cur)
    } else {
        match ops.last() {
            OpEnt::Open => reduce_all(ops.drop_last(), vals, cur),
            OpEnt::B(op2) => match bin_res(op2, vals.last(), cur) {
                Ok(v) => reduce_all(ops.drop_last(), vals.drop_last(), v),
                Err(e) => Err(e),
            },
        }
    }
}

/// The operand a token acts on: the entry being typed, or the value just
/// computed.
pub open spec fn cur_val(c: CoreV) -> Option<Number> {
    match c.entry {
        Some(e) => Some(e.val()),
        None => c.acc,
    }
}

/// The operand a closing bracket reduces: the one in hand, or zero when the
/// bracket pair is empty, as a permissive keypad fills it.
pub open spec fn cur_or_zero(c: CoreV) -> Number {
    match cur_val(c) {
        Some(v) => v,
        None => Number { num: 0, den: 1 },
    }
}

/// The magnitude of `v` rendered as plain decimal text, the fraction cut at
/// `k` digits.
pub open spec fn render_mag(v: Number, k: nat) -> Seq<char> {
    let un = sabs(v.num as int);
    let d = v.den as nat;
    let f = frac_digits(un % d, d, k);
    if f.len() == 0 {
        nat_digits(un / d)
    } else {
        nat_digits(un / d) + seq!['.'] + f
    }
}

pub open spec fn render_full(v: Number, k: nat) -> Seq<char> {
    if v.num < 0 {
        seq!['-'] + render_mag(v, k)
    } else {
        render_mag(v, k)
    }
}

/// The expression text a new operator or evaluation continues from: when an
/// evaluation just completed, its result's rendering, else the keys typed.
pub open spec fn expr_base(c: CoreV) -> Seq<char> {
    if c.entry is None && c.expr.len() == 0 && c.acc is Some {
        render_full(c.acc->0, RENDER_FRAC as nat)
    } else {
        c.expr
    }
}

/// The key units handed to the outside calculator for one unary function:
/// the operand's magnitude, a negation key when negative, then the function
/// key.
pub open spec fn keys_for(f: Func, v: Number) -> Seq<Seq<char>> {
    let base = seq![render_mag(v, RENDER_FRAC as nat)];
    let wneg = if v.num < 0 {
        base.push(func_name(Func::Neg))
    } else {
        base
    };
    wneg.push(func_name(f))
}

/// An outcome the outside calculator can hand back: the parse of some
/// displayed text. The display operations behind the trig, logarithm and
/// power keys carry unspecified precision, so their value cannot be pinned;
/// what every outcome shares is the shape `parse_display` gives it.
pub open spec fn possible_outcome(uo: Result<Number, CalcError>) -> bool {
    exists|disp: Seq<char>| uo == #[trigger] parse_display(disp)
}

/// What one unary function key may yield. The exact functions are computed
/// on the engine's rationals and are pinned; the domain checks are the
/// engine's own; the square root is pinned to the named display of an
/// exactly specified operation; the remaining real-valued keys admit the
/// parse of whatever display came back.
pub open spec fn unary_ok(f: Func, v: Number, uo: Result<Number, CalcError>) -> bool {
    match f {
        Func::Neg => uo == opt_to_res(neg_norm(v)),
        Func::Abs => uo == opt_to_res(abs_norm(v)),
        Func::Square => uo == opt_to_res(mul_norm(v, v)),
        Func::Inv => if v.num == 0 {
            uo == Err::<Number, CalcError>(CalcError::DomainError)
        } else {
            uo == opt_to_res(inv_norm(v))
        },
        Func::Sqrt => if v.num < 0 {
            uo == Err::<Number, CalcError>(CalcError::DomainError)
        } else {
            uo == parse_display(sqrt_display_of(keys_for(f, v)))
        },
        Func::Asin | Func::Acos => if !le_one(v) {
            uo == Err::<Number, CalcError>(CalcError::DomainError)
        } else {
            possible_outcome(uo)
        },
        Func::Log | Func::Ln => if v.num <= 0 {
            uo == Err::<Number, CalcError>(CalcError::DomainError)
        } else {
            possible_outcome(uo)
        },
        Func::Sin | Func::Cos | Func::Tan | Func::Atan | Func::Pow10 => possible_outcome(uo),
    }
}

/// The outcome of one core transition: the new undoable state, a history
/// record if an evaluation completed, whether a snapshot is owed, and what
/// `push` reports.
pub ghost struct StepOut {
    pub core: CoreV,
    pub hist: Option<HistV>,
    pub snap: bool,
    pub res: Result<(), CalcError>,
}

pub open spec fn stay(c: CoreV, res: Result<(), CalcError>) -> StepOut {
    StepOut { core: c, hist: None, snap: false, res }
}

pub open spec fn fail(c: CoreV, e: CalcError) -> StepOut {
    StepOut { core: CoreV { err: Some(e), ..c }, hist: None, snap: true, res: Err(e) }
}

pub open spec fn step_digit(c: CoreV, d: u8) -> StepOut {
    let dc = digit_char(d as nat);
    match c.entry {
        Some(e) => {
            if e.fp is None && e.ip == seq!['0'] {
                if d == 0 {
                    stay(c, Ok(()))
                } else {
                    StepOut {
                        core: CoreV {
                            entry: Some(EntryV { ip: seq![dc], fp: None }),
                            expr: c.expr + seq![dc],
                            ..c
                        },
                        hist: None,
                        snap: true,
                        res: Ok(()),
                    }
                }
            } else if e.digits().len() >= 18 {
                stay(c, Err(CalcError::OverflowError))
            } else {
                let e2 = match e.fp {
                    None => EntryV { ip: e.ip.push(dc), fp: None },
                    Some(f) => EntryV { ip: e.ip, fp: Some(f.push(dc)) },
                };
                StepOut {
                    core: CoreV { entry: Some(e2), expr: c.expr + seq![dc], ..c },
                    hist: None,
                    snap: true,
                    res: Ok(()),
                }
            }
        },
        None => {
            if c.acc is Some && c.ops.len() > 0 {
                stay(c, Err(CalcError::MalformedExpression))
            } else {
                StepOut {
                    core: CoreV {
                        entry: Some(EntryV { ip: seq![dc], fp: None }),
                        acc: None,
                        expr: if c.acc is Some {
                            seq![dc]
                        } else {
                            c.expr + seq![dc]
                        },
                        ..c
                    },
                    hist: None,
                    snap: true,
                    res: Ok(()),
                }
            }
        },
    }
}

pub open spec fn step_decimal(c: CoreV) -> StepOut {
    match c.entry {
        Some(e) => {
            if e.fp is Some {
                stay(c, Ok(()))
            } else {
                StepOut {
                    core: CoreV {
                        entry: Some(EntryV { ip: e.ip, fp: Some(Seq::empty()) }),
                        expr: c.expr + seq!['.'],
                        ..c
                    },
                    hist: None,
                    snap: true,
                    res: Ok(()),
                }
            }
        },
        None => {
            if c.acc is Some && c.ops.len() > 0 {
                stay(c, Err(CalcError::MalformedExpression))
            } else {
                StepOut {
                    core: CoreV {
                        entry: Some(EntryV { ip: seq!['0'], fp: Some(Seq::empty()) }),
                        acc: None,
                        expr: if c.acc is Some {
                            seq!['0', '.']
                        } else {
                            c.expr + seq!['0', '.']
                        },
                        ..c
                    },
                    hist: None,
                    snap: true,
                    res: Ok(()),
                }
            }
        },
    }
}

pub open spec fn step_bin(c: CoreV, op: BinOp) -> StepOut {
    match cur_val(c) {
        None => stay(c, Err(CalcError::MalformedExpression)),
        Some(v0) => match reduce_bin(c.ops, c.vals, v0, crate::token::prec(op)) {
            Ok((ops2, vals2, v2)) => StepOut {
                core: CoreV {
                    entry: None,
                    acc: None,
                    ops: ops2.push(OpEnt::B(op)),
                    vals: vals2.push(v2),
                    last_op: Some(op),
                    expr: expr_base(c) + seq![op_char(op)],
                    err: None,
                },
                hist: None,
                snap: true,
                res: Ok(()),
            },
            Err(e) => fail(c, e),
        },
    }
}

pub open spec fn step_unary(c: CoreV, f: Func, uo: Result<Number, CalcError>) -> StepOut {
    match cur_val(c) {
        None => stay(c, Ok(())),
        Some(v0) => match uo {
            Ok(r) => StepOut {
                core: CoreV {
                    entry: None,
                    acc: Some(r),
                    expr: expr_base(c) + func_name(f),
                    ..c
                },
                hist: None,
                snap: true,
                res: Ok(()),
            },
            Err(e) => fail(c, e),
        },
    }
}

pub open spec fn step_percent(c: CoreV) -> StepOut {
    match cur_val(c) {
        None => stay(c, Ok(())),
        Some(v0) => match opt_to_res(percent_norm(v0)) {
            Ok(r) => StepOut {
                core: CoreV {
                    entry: None,
                    acc: Some(r),
                    expr: expr_base(c) + seq!['%'],
                    ..c
                },
                hist: None,
                snap: true,
                res: Ok(()),
            },
            Err(e) => fail(c, e),
        },
    }
}

pub open spec fn step_open(c: CoreV) -> StepOut {
    if c.entry is Some {
        stay(c, Err(CalcError::MalformedExpression))
    } else if c.acc is Some && c.ops.len() > 0 {
        stay(c, Err(CalcError::MalformedExpression))
    } else {
        StepOut {
            core: CoreV {
                entry: None,
                acc: None,
                ops: c.ops.push(OpEnt::Open),
                expr: if c.acc is Some {
                    seq!['(']
                } else {
                    c.expr + seq!['(']
                },
                ..c
            },
            hist: None,
            snap: true,
            res: Ok(()),
        }
    }
}

pub open spec fn step_close(c: CoreV) -> StepOut {
    if count_opens(c.ops) == 0 {
        stay(c, Ok(()))
    } else {
        match cur_or_zero(c) {
            v0 => match reduce_close(c.ops, c.vals, v0) {
                Ok((ops2, vals2, v2)) => StepOut {
                    core: CoreV {
                        entry: None,
                        acc: Some(v2),
                        ops: ops2,
                        vals: vals2,
                        expr: c.expr + seq![')'],
                        ..c
                    },
                    hist: None,
                    snap: true,
                    res: Ok(()),
                },
                Err(e) => fail(c, e),
            },
        }
    }
}

pub open spec fn step_eval(c: CoreV) -> StepOut {
    match cur_val(c) {
        None => if c.ops.len() == 0 {
            stay(c, Ok(()))
        } else {
            fail(c, CalcError::MalformedExpression)
        },
        Some(v0) => match reduce_all(c.ops, c.vals, v0) {
            Ok(r) => StepOut {
                core: CoreV {
                    entry: None,
                    acc: Some(r),
                    ops: Seq::empty(),
                    vals: Seq::empty(),
                    last_op: None,
                    expr: Seq::empty(),
                    err: None,
                },
                hist: Some(
                    HistV {
                        expr: if c.expr.len() == 0 {
                            render_full(v0, RENDER_FRAC as nat)
                        } else {
                            c.expr
                        },
                        res: render_full(r, RENDER_FRAC as nat),
                    },
                ),
                snap: true,
                res: Ok(()),
            },
            Err(e) => fail(c, e),
        },
    }
}

/// One core transition; `ClearAll` and `Undo` are handled by `push_spec`.
/// `uo` is the outcome the outside calculator handed back; only a unary key
/// consults it (see `uo_valid` for what it is allowed to be).
pub open spec fn core_step(c: CoreV, t: Token, uo: Result<Number, CalcError>) -> StepOut {
    match t {
        Token::Digit(d) => step_digit(c, d),
        Token::Decimal => step_decimal(c),
        Token::Bin(op) => step_bin(c, op),
        Token::Percent => step_percent(c),
        Token::Unary(f) => step_unary(c, f, uo),
        Token::Open => step_open(c),
        Token::Close => step_close(c),
        Token::Evaluate => step_eval(c),
        Token::ClearAll => stay(c, Ok(())),
        Token::Undo => stay(c, Ok(())),
    }
}

/// What the outside calculator's outcome is allowed to be for this token:
/// constrained only at a unary key that is actually processed, with an
/// operand in hand.
pub open spec fn uo_valid(c: CoreV, t: Token, uo: Result<Number, CalcError>) -> bool {
    if c.err is Some {
        true
    } else {
        match t {
            Token::Unary(f) => match cur_val(c) {
                Some(v) => unary_ok(f, v, uo),
                None => true,
            },
            _ => true,
        }
    }
}

/// A cleared undoable state; history, undo stack and configuration are kept.
pub open spec fn reset_core() -> CoreV {
    CoreV {
        entry: None,
        acc: None,
        ops: Seq::empty(),
        vals: Seq::empty(),
        last_op: None,
        expr: Seq::empty(),
        err: None,
    }
}

/// The undo stack after recording `c`, with the oldest snapshot evicted at
/// the configured bound.
pub open spec fn push_snap(s: StV, c: CoreV) -> Seq<CoreV> {
    if !s.cfg.enable_undo || s.cfg.max_undo_depth == 0 {
        s.undo
    } else if s.undo.len() >= s.cfg.max_undo_depth {
        s.undo.subrange(s.undo.len() - s.cfg.max_undo_depth + 1, s.undo.len() as int).push(c)
    } else {
        s.undo.push(c)
    }
}

/// What `undo` does: restore and discard the latest snapshot; report whether
/// one existed. History is never undone.
pub open spec fn undo_spec(s: StV) -> (StV, bool) {
    if s.undo.len() == 0 {
        (s, false)
    } else {
        (
            StV { core: s.undo.last(), history: s.history, undo: s.undo.drop_last(), cfg: s.cfg },
            true,
        )
    }
}

/// What `push` does for one classified token, given the outcome `uo` the
/// outside calculator handed back (consulted only at a unary key).
pub open spec fn push_spec(s: StV, t: Token, uo: Result<Number, CalcError>) -> (StV, Result<
    (),
    CalcError,
>) {
    match t {
        Token::ClearAll => (
            StV {
                core: reset_core(),
                history: s.history,
                undo: push_snap(s, s.core),
                cfg: s.cfg,
            },
            Ok(()),
        ),
        Token::Undo => (undo_spec(s).0, Ok(())),
        _ => {
            if s.core.err is Some {
                (s, Err(s.core.err->0))
            } else {
                let o = core_step(s.core, t, uo);
                (
                    StV {
                        core: o.core,
                        history: if o.hist is Some && s.cfg.enable_history {
                            s.history.push(o.hist->0)
                        } else {
                            s.history
                        },
                        undo: if o.snap {
                            push_snap(s, s.core)
                        } else {
                            s.undo
                        },
                        cfg: s.cfg,
                    },
                    o.res,
                )
            }
        },
    }
}

/// `push` for a raw key string: unknown keys are rejected without any state
/// change.
pub open spec fn push_raw_spec(s: StV, raw: Seq<char>, uo: Result<Number, CalcError>) -> (
    StV,
    Result<(), CalcError>,
) {
    match classify_spec(raw) {
        Some(t) => push_spec(s, t, uo),
        None => (s, Err(CalcError::UnknownToken)),
    }
}

/// What the outside calculator's outcome may be for this raw key.
pub open spec fn uo_valid_raw(s: StV, raw: Seq<char>, uo: Result<Number, CalcError>) -> bool {
    match classify_spec(raw) {
        Some(t) => uo_valid(s.core, t, uo),
        None => true,
    }
}

/// One admissible outside outcome explains the transition exactly.
pub open spec fn push_matches(
    s0: StV,
    raw: Seq<char>,
    uo: Result<Number, CalcError>,
    s1: StV,
    r: Result<(), CalcError>,
) -> bool {
    &&& push_raw_spec(s0, raw, uo).0 == s1
    &&& push_raw_spec(s0, raw, uo).1 == r
    &&& uo_valid_raw(s0, raw, uo)
}

/// `push`'s full contract: for some admissible outside outcome `uo`, the new
/// state and the report are exactly `push_raw_spec`. Every key other than
/// the real-valued unary functions ignores `uo`, so their behavior is pinned
/// outright (`lemma_push_uo_independent`).
pub open spec fn push_post(s0: StV, raw: Seq<char>, s1: StV, r: Result<(), CalcError>) -> bool {
    exists|uo: Result<Number, CalcError>| #[trigger] push_matches(s0, raw, uo, s1, r)
}

fn clone_chars(v: &Vec<char>) -> (r: Vec<char>)
    ensures
        r@ == v@,
{
    let mut r: Vec<char> = Vec::new();
    append_chars(&mut r, v);
    r
}

fn clone_entry(e: &Entry) -> (r: Entry)
    ensures
        r@ == e@,
{
    let ip = clone_chars(&e.ip);
    let fp = match &e.fp {
        Some(f) => Some(clone_chars(f)),
        None => None,
    };
    Entry { ip, fp }
}

fn clone_opt_entry(e: &Option<Entry>) -> (r: Option<Entry>)
    ensures
        (match (r, e) {
            (Some(a), Some(b)) => a@ == b@,
            (None, None) => true,
            _ => false,
        }),
{
    match e {
        Some(x) => Some(clone_entry(x)),
        None => None,
    }
}

fn clone_ops(v: &Vec<OpEnt>) -> (r: Vec<OpEnt>)
    ensures
        r@ == v@,
{
    let mut r: Vec<OpEnt> = Vec::new();
    let mut i: usize = 0;
    while i < v.len()
        invariant
            i <= v@.len(),
            r@ == v@.take(i as int),
        decreases v@.len() - i,
    {
        r.push(v[i]);
        assert(r@ =~= v@.take(i + 1));
        i = i + 1;
    }
    assert(v@.take(v@.len() as int) =~= v@);
    r
}

fn clone_nums(v: &Vec<Number>) -> (r: Vec<Number>)
    ensures
        r@ == v@,
{
    let mut r: Vec<Number> = Vec::new();
    let mut i: usize = 0;
    while i < v.len()
        invariant
            i <= v@.len(),
            r@ == v@.take(i as int),
        decreases v@.len() - i,
    {
        r.push(v[i]);
        assert(r@ =~= v@.take(i + 1));
        i = i + 1;
    }
    assert(v@.take(v@.len() as int) =~= v@);
    r
}

/// Parses a well-formed entry into its exact rational value.
fn parse_entry(e: &Entry) -> (n: Number)
    requires
        e@.wf(),
    ensures
        n == e@.val(),
        n.wf(),
{
    let ghost digs = e@.digits();
    let mut acc: u64 = 0;
    let mut i: usize = 0;
    let ni = e.ip.len();
    let nf = match &e.fp {
        Some(f) => f.len(),
        None => 0,
    };
    proof {
        lemma_pow10_18();
    }
    while i < ni + nf
        invariant
            i <= ni + nf,
            ni + nf == digs.len() <= 18,
            ni == e@.ip.len(),
            e@.wf(),
            digs == e@.digits(),
            nf == e@.fp_len(),
            acc as nat == digits_val(digs.take(i as int)),
            acc < 1000000000000000000,
        decreases ni + nf - i,
    {
        let c = if i < ni {
            e.ip[i]
        } else {
            match &e.fp {
                Some(f) => f[i - ni],
                None => '0',
            }
        };
        assert(c == digs[i as int]);
        let d: u64 = if c == '0' {
            0
        } else if c == '1' {
            1
        } else if c == '2' {
            2
        } else if c == '3' {
            3
        } else if c == '4' {
            4
        } else if c == '5' {
            5
        } else if c == '6' {
            6
        } else if c == '7' {
            7
        } else if c == '8' {
            8
        } else {
            9
        };
        assert(d as nat == char_digit(c));
        proof {
            lemma_digits_val_bound(digs.take(i as int));
            lemma_pow10_mono(digs.take(i as int).len(), 17);
            lemma_pow10_18();
            assert(pow10(18) == 10 * pow10(17));
            assert(digs.take(i + 1).drop_last() =~= digs.take(i as int));
            assert(digs.take(i + 1).last() == digs[i as int]);
        }
        acc = acc * 10 + d;
        proof {
            lemma_digits_val_bound(digs.take(i + 1));
            lemma_pow10_mono(digs.take(i + 1).len(), 18);
        }
        i = i + 1;
    }
    proof {
        assert(digs.take(digs.len() as int) =~= digs);
        lemma_pow10_mono(nf as nat, 18);
    }
    let den = pow10_u64(nf as u64);
    Number { num: acc as i64, den: den as i64 }
}

/// Renders the magnitude of a value as plain decimal text.
pub fn render_mag_exec(v: Number) -> (r: Vec<char>)
    requires
        v.wf(),
    ensures
        r@ == render_mag(v, RENDER_FRAC as nat),
        r@.len() >= 1,
{
    let un: u64 = if v.num < 0 {
        (-(v.num as i128)) as u64
    } else {
        v.num as u64
    };
    assert(un as nat == sabs(v.num as int));
    let den: u64 = v.den as u64;
    let ip = un / den;
    let rem = un % den;
    let mut out: Vec<char> = Vec::new();
    push_nat_digits(&mut out, ip as u128);
    let mut fr: Vec<char> = Vec::new();
    push_frac_digits(&mut fr, rem, den, RENDER_FRAC);
    if fr.len() > 0 {
        out.push('.');
        append_chars(&mut out, &fr);
        assert(out@ =~= render_mag(v, RENDER_FRAC as nat));
    } else {
        assert(out@ =~= render_mag(v, RENDER_FRAC as nat));
    }
    proof {
        let q = (un / den) as nat;
        assert(nat_digits(q).len() >= 1);
    }
    out
}

pub fn render_full_exec(v: Number) -> (r: Vec<char>)
    requires
        v.wf(),
    ensures
        r@ == render_full(v, RENDER_FRAC as nat),
{
    let mag = render_mag_exec(v);
    if v.num < 0 {
        let mut out: Vec<char> = Vec::new();
        out.push('-');
        append_chars(&mut out, &mag);
        assert(out@ =~= render_full(v, RENDER_FRAC as nat));
        out
    } else {
        mag
    }
}

fn apply_bin_exec(op: BinOp, a: Number, b: Number) -> (r: Result<Number, CalcError>)
    requires
        a.wf(),
        b.wf(),
    ensures
        r == bin_res(op, a, b),
{
    match op {
        BinOp::Add => match rat_add(a, b) {
            Some(v) => Ok(v),
            None => Err(CalcError::OverflowError),
        },
        BinOp::Sub => match rat_sub(a, b) {
            Some(v) => Ok(v),
            None => Err(CalcError::OverflowError),
        },
        BinOp::Mul => match rat_mul(a, b) {
            Some(v) => Ok(v),
            None => Err(CalcError::OverflowError),
        },
        BinOp::Div => if b.num == 0 {
            Err(CalcError::DivideByZero)
        } else {
            match rat_div(a, b) {
                Some(v) => Ok(v),
                None => Err(CalcError::OverflowError),
            }
        },
    }
}

proof fn lemma_norm_wf(n: int, d: int)
    requires
        d >= 1,
    ensures
        norm_wf_ok(n, d),
{
    crate::number::lemma_norm_props(n, d);
}

pub open spec fn norm_wf_ok(n: int, d: int) -> bool {
    crate::number::norm(n, d) matches Some(v) ==> v.wf()
}

proof fn lemma_bin_res_wf(op: BinOp, a: Number, b: Number)
    requires
        a.wf(),
        b.wf(),
    ensures
        bin_res(op, a, b) matches Ok(v) ==> v.wf(),
{
    assert(a.den as int * b.den as int >= 1) by (nonlinear_arith)
        requires
            a.den >= 1,
            b.den >= 1,
    {}
    lemma_norm_wf(a.num * b.den + b.num * a.den, a.den * b.den);
    lemma_norm_wf(a.num * b.den - b.num * a.den, a.den * b.den);
    lemma_norm_wf(a.num * b.num, a.den * b.den);
    if b.num > 0 {
        assert(a.den as int * b.num as int >= 1) by (nonlinear_arith)
            requires
                a.den >= 1,
                b.num >= 1,
        {}
        lemma_norm_wf(a.num * b.den, a.den * b.num);
    } else if b.num < 0 {
        assert(a.den as int * -(b.num as int) >= 1) by (nonlinear_arith)
            requires
                a.den >= 1,
                -(b.num as int) >= 1,
        {}
        lemma_norm_wf(-(a.num * b.den), a.den * -b.num);
    }
}

proof fn lemma_exact_unary_wf(v: Number)
    requires
        v.wf(),
    ensures
        opt_to_res(neg_norm(v)) matches Ok(r) ==> r.wf(),
        opt_to_res(abs_norm(v)) matches Ok(r) ==> r.wf(),
        opt_to_res(mul_norm(v, v)) matches Ok(r) ==> r.wf(),
        v.num != 0 ==> (opt_to_res(inv_norm(v)) matches Ok(r) ==> r.wf()),
{
    lemma_norm_wf(-(v.num as int), v.den as int);
    lemma_norm_wf(sabs(v.num as int) as int, v.den as int);
    assert(v.den as int * v.den as int >= 1) by (nonlinear_arith)
        requires
            v.den >= 1,
    {}
    lemma_norm_wf(v.num * v.num, v.den * v.den);
    if v.num > 0 {
        lemma_norm_wf(v.den as int, v.num as int);
    } else if v.num < 0 {
        lemma_norm_wf(-(v.den as int), -(v.num as int));
    }
}

/// Evaluates one unary key, calling the outside calculator where real-valued
/// math is needed; the result is one the spec-level relation admits.
fn unary_eval_exec(f: Func, v: Number) -> (r: Result<Number, CalcError>)
    requires
        v.wf(),
    ensures
        unary_ok(f, v, r),
        r matches Ok(x) ==> x.wf(),
{
    proof {
        lemma_exact_unary_wf(v);
    }
    match f {
        Func::Neg => match rat_neg(v) {
            Some(x) => Ok(x),
            None => Err(CalcError::OverflowError),
        },
        Func::Abs => match rat_abs(v) {
            Some(x) => Ok(x),
            None => Err(CalcError::OverflowError),
        },
        Func::Square => match rat_mul(v, v) {
            Some(x) => Ok(x),
            None => Err(CalcError::OverflowError),
        },
        Func::Inv => if v.num == 0 {
            Err(CalcError::DomainError)
        } else {
            match rat_inv(v) {
                Some(x) => Ok(x),
                None => Err(CalcError::OverflowError),
            }
        },
        Func::Sqrt => if v.num < 0 {
            Err(CalcError::DomainError)
        } else {
            calc_call(f, v)
        },
        Func::Asin | Func::Acos => if !rat_le_one(v) {
            Err(CalcError::DomainError)
        } else {
            calc_call(f, v)
        },
        Func::Log | Func::Ln => if v.num <= 0 {
            Err(CalcError::DomainError)
        } else {
            calc_call(f, v)
        },
        Func::Sin | Func::Cos | Func::Tan | Func::Atan | Func::Pow10 => calc_call(f, v),
    }
}

proof fn lemma_digit_char_is(d: nat)
    ensures
        is_digit_char(digit_char(d)),
{
}

proof fn lemma_nat_digits_all(n: nat)
    ensures
        forall|i: int| 0 <= i < nat_digits(n).len() ==> is_digit_char(#[trigger] nat_digits(n)[i]),
    decreases n,
{
    if n < 10 {
        lemma_digit_char_is(n);
        assert(nat_digits(n)[0] == digit_char(n));
    } else {
        lemma_nat_digits_all(n / 10);
        let pre = nat_digits(n / 10);
        assert(nat_digits(n) == pre.push(digit_char(n % 10)));
        lemma_digit_char_is(n % 10);
        assert forall|i: int| 0 <= i < nat_digits(n).len() implies is_digit_char(
            #[trigger] nat_digits(n)[i],
        ) by {
            if i < pre.len() {
                assert(nat_digits(n)[i] == pre[i]);
            } else {
                assert(i == pre.len());
                assert(nat_digits(n)[i] == digit_char(n % 10));
            }
        }
    }
}

proof fn lemma_frac_digits_all(rem: nat, den: nat, k: nat)
    requires
        1 <= den,
        rem < den,
    ensures
        forall|i: int| 0 <= i < frac_digits(rem, den, k).len() ==> is_digit_char(
            #[trigger] frac_digits(rem, den, k)[i],
        ),
    decreases k,
{
    if k == 0 || rem == 0 {
    } else {
        vstd::arithmetic::div_mod::lemma_mod_division_less_than_divisor(
            (rem * 10) as int,
            den as int,
        );
        lemma_frac_digits_all(rem * 10 % den, den, (k - 1) as nat);
        let rest = frac_digits(rem * 10 % den, den, (k - 1) as nat);
        assert(frac_digits(rem, den, k) == seq![digit_char(rem * 10 / den)] + rest);
        lemma_digit_char_is(rem * 10 / den);
        assert forall|i: int| 0 <= i < frac_digits(rem, den, k).len() implies is_digit_char(
            #[trigger] frac_digits(rem, den, k)[i],
        ) by {
            if i == 0 {
                assert(frac_digits(rem, den, k)[0] == digit_char(rem * 10 / den));
            } else {
                assert(frac_digits(rem, den, k)[i] == rest[i - 1]);
            }
        }
    }
}

proof fn lemma_render_mag_key(v: Number)
    requires
        v.wf(),
    ensures
        crate::calcdep::is_operand_key(render_mag(v, RENDER_FRAC as nat)),
        render_mag(v, RENDER_FRAC as nat).len() >= 1,
{
    let un = sabs(v.num as int);
    let d = v.den as nat;
    vstd::arithmetic::div_mod::lemma_mod_division_less_than_divisor(un as int, d as int);
    lemma_nat_digits_all(un / d);
    lemma_frac_digits_all(un % d, d, RENDER_FRAC as nat);
    assert(nat_digits(un / d).len() >= 1);
}

proof fn lemma_func_name_key(f: Func)
    ensures
        crate::calcdep::is_name_key(func_name(f)),
        func_name(f).len() >= 1,
{
}

/// Hands one unary evaluation to the outside calculator. The result is the
/// parse of some display text; for the square-root key on a nonnegative
/// operand — the only way the engine reaches it — the session is the
/// operand-then-square-root shape, so the text is the named one.
fn calc_call(f: Func, v: Number) -> (r: Result<Number, CalcError>)
    requires
        v.wf(),
    ensures
        possible_outcome(r),
        f is Sqrt && v.num >= 0 ==> r == parse_display(sqrt_display_of(keys_for(f, v))),
        r matches Ok(x) ==> x.wf(),
{
    let mut keys: Vec<Vec<char>> = Vec::new();
    keys.push(render_mag_exec(v));
    if v.num < 0 {
        keys.push(func_name_chars(Func::Neg));
    }
    keys.push(func_name_chars(f));
    proof {
        lemma_render_mag_key(v);
        lemma_func_name_key(Func::Neg);
        lemma_func_name_key(f);
        assert(keys.deep_view() =~~= keys_for(f, v));
        assert(keys_for(f, v).last() == func_name(f));
        if v.num >= 0 {
            assert(keys_for(f, v).len() == 2);
            assert(keys_for(f, v)[0] == render_mag(v, RENDER_FRAC as nat));
            assert(f is Sqrt ==> sqrt_session(keys_for(f, v)));
        }
        assert(forall|i: int| 0 <= i < keys@.len() ==> crate::calcdep::valid_calc_key(
            #[trigger] keys@[i]@,
        ));
    }
    calc_unary(keys)
}


pub open spec fn hist_matches(h: Option<Hist>, hv: Option<HistV>) -> bool {
    match (h, hv) {
        (Some(a), Some(b)) => a@ == b,
        (None, None) => true,
        _ => false,
    }
}

/// What each core-transition handler guarantees, relative to its spec
/// transition `o`.
pub open spec fn step_ok(
    s0: StV,
    s1: StV,
    o: StepOut,
    outb: bool,
    outh: Option<Hist>,
    outr: Result<(), CalcError>,
) -> bool {
    &&& s1.core == o.core
    &&& s1.history == s0.history
    &&& s1.undo == s0.undo
    &&& s1.cfg == s0.cfg
    &&& core_inv(s1.core)
    &&& outb == o.snap
    &&& hist_matches(outh, o.hist)
    &&& outr == o.res
}

impl Engine {
    fn make_snap(&self) -> (sn: Snap)
        ensures
            sn@ == self@.core,
    {
        let sn = Snap {
            entry: clone_opt_entry(&self.entry),
            acc: self.acc,
            ops: clone_ops(&self.ops),
            vals: clone_nums(&self.vals),
            last_op: self.last_op,
            expr: clone_chars(&self.expr),
            err: self.err,
        };
        proof {
            assert(sn@ =~= self@.core);
        }
        sn
    }

    fn restore_from(&mut self, sn: &Snap)
        ensures
            final(self)@.core == sn@,
            final(self)@.history == old(self)@.history,
            final(self)@.undo == old(self)@.undo,
            final(self)@.cfg == old(self)@.cfg,
    {
        self.entry = clone_opt_entry(&sn.entry);
        self.acc = sn.acc;
        self.ops = clone_ops(&sn.ops);
        self.vals = clone_nums(&sn.vals);
        self.last_op = sn.last_op;
        self.expr = clone_chars(&sn.expr);
        self.err = sn.err;
        proof {
            assert(self@.core =~= sn@);
        }
    }

    fn undo_push(&mut self, sn: Snap)
        requires
            inv(old(self)@),
        ensures
            final(self)@.undo == push_snap(old(self)@, sn@),
            final(self)@.core == old(self)@.core,
            final(self)@.history == old(self)@.history,
            final(self)@.cfg == old(self)@.cfg,
    {
        if !self.cfg.enable_undo || self.cfg.max_undo_depth == 0 {
            return ;
        }
        if self.undo_stack.len() >= self.cfg.max_undo_depth {
            let _evicted = self.undo_stack.remove(0);
            proof {
                assert(self.undo_stack@.map_values(|s: Snap| s@) =~= old(
                    self,
                )@.undo.subrange(1, old(self)@.undo.len() as int));
            }
        }
        self.undo_stack.push(sn);
        proof {
            assert(final(self)@.undo =~= push_snap(old(self)@, sn@));
        }
    }

    /// Reduces before pushing a binary operator; on an error the stacks are
    /// left for the caller to restore.
    #[verifier::loop_isolation(false)]
    fn run_reduce_bin(&mut self, cur0: Number, op: BinOp) -> (r: Result<Number, CalcError>)
        requires
            core_inv(old(self)@.core),
            cur0.wf(),
        ensures
            final(self)@.entry_unchanged(old(self)@),
            ({
                let rr: Result<(Seq<OpEnt>, Seq<Number>, Number), CalcError> = reduce_bin(
                    old(self)@.core.ops, old(self)@.core.vals, cur0, crate::token::prec(op));
                match r {
                    Ok(v) => rr == Ok::<(Seq<OpEnt>, Seq<Number>, Number), CalcError>(
                        (final(self)@.core.ops, final(self)@.core.vals, v),
                    ) && v.wf() && core_inv_stack(final(self)@.core.ops, final(self)@.core.vals),
                    Err(e) => rr == Err::<(Seq<OpEnt>, Seq<Number>, Number), CalcError>(e),
                }
            }),
    {
        let mut cur = cur0;
        let ghost ops0 = self.ops@;
        let ghost vals0 = self.vals@;
        let ghost p = crate::token::prec(op);
        while should_reduce_bin(&self.ops, op)
            invariant
                core_inv_stack(self.ops@, self.vals@),
                cur.wf(),
                reduce_bin(ops0, vals0, cur0, p) == reduce_bin(self.ops@, self.vals@, cur, p),
                p == crate::token::prec(op),
                self@.entry_unchanged(old(self)@),
            decreases self.ops@.len(),
        {
            let ghost pops = self.ops@;
            let ghost pvals = self.vals@;
            let top = self.ops.pop();
            let op2 = match top {
                Some(OpEnt::B(x)) => x,
                _ => BinOp::Add,
            };
            proof {
                assert(pops.last() == OpEnt::B(op2));
                assert(count_bins(pops) == count_bins(pops.drop_last()) + 1);
                assert(self.vals@.len() >= 1);
                assert(pvals[pvals.len() - 1].wf());
            }
            let v1 = match self.vals.pop() {
                Some(v) => v,
                None => cur,
            };
            proof {
                lemma_bin_res_wf(op2, v1, cur);
            }
            match apply_bin_exec(op2, v1, cur) {
                Ok(v) => {
                    proof {
                        assert(reduce_bin(pops, pvals, cur, p) == reduce_bin(
                            pops.drop_last(),
                            pvals.drop_last(),
                            v,
                            p,
                        ));
                    }
                    cur = v;
                },
                Err(e) => {
                    proof {
                        assert(reduce_bin(pops, pvals, cur, p) == Err::<
                            (Seq<OpEnt>, Seq<Number>, Number),
                            CalcError,
                        >(e));
                        assert(reduce_bin(ops0, vals0, cur0, p) == Err::<
                            (Seq<OpEnt>, Seq<Number>, Number),
                            CalcError,
                        >(e));
                    }
                    return Err(e);
                },
            }
        }
        proof {
            assert(reduce_bin(self.ops@, self.vals@, cur, p) == Ok::<
                (Seq<OpEnt>, Seq<Number>, Number),
                CalcError,
            >((self.ops@, self.vals@, cur)));
        }
        Ok(cur)
    }

    /// Reduces down to the matching open bracket.
    #[verifier::loop_isolation(false)]
    fn run_reduce_close(&mut self, cur0: Number) -> (r: Result<Number, CalcError>)
        requires
            core_inv(old(self)@.core),
            cur0.wf(),
        ensures
            final(self)@.entry_unchanged(old(self)@),
            ({
                let rr: Result<(Seq<OpEnt>, Seq<Number>, Number), CalcError> = reduce_close(
                    old(self)@.core.ops, old(self)@.core.vals, cur0);
                match r {
                    Ok(v) => rr == Ok::<(Seq<OpEnt>, Seq<Number>, Number), CalcError>(
                        (final(self)@.core.ops, final(self)@.core.vals, v),
                    ) && v.wf() && core_inv_stack(final(self)@.core.ops, final(self)@.core.vals),
                    Err(e) => rr == Err::<(Seq<OpEnt>, Seq<Number>, Number), CalcError>(e),
                }
            }),
    {
        let mut cur = cur0;
        let ghost ops0 = self.ops@;
        let ghost vals0 = self.vals@;
        while should_reduce_any(&self.ops)
            invariant
                core_inv_stack(self.ops@, self.vals@),
                cur.wf(),
                reduce_close(ops0, vals0, cur0) == reduce_close(self.ops@, self.vals@, cur),
                self@.entry_unchanged(old(self)@),
            decreases self.ops@.len(),
        {
            let ghost pops = self.ops@;
            let ghost pvals = self.vals@;
            let top = self.ops.pop();
            let op2 = match top {
                Some(OpEnt::B(x)) => x,
                _ => BinOp::Add,
            };
            proof {
                assert(pops.last() == OpEnt::B(op2));
                assert(count_bins(pops) == count_bins(pops.drop_last()) + 1);
                assert(self.vals@.len() >= 1);
                assert(pvals[pvals.len() - 1].wf());
            }
            let v1 = match self.vals.pop() {
                Some(v) => v,
                None => cur,
            };
            proof {
                lemma_bin_res_wf(op2, v1, cur);
            }
            match apply_bin_exec(op2, v1, cur) {
                Ok(v) => {
                    proof {
                        assert(reduce_close(pops, pvals, cur) == reduce_close(
                            pops.drop_last(),
                            pvals.drop_last(),
                            v,
                        ));
                    }
                    cur = v;
                },
                Err(e) => {
                    proof {
                        assert(reduce_close(pops, pvals, cur) == Err::<
                            (Seq<OpEnt>, Seq<Number>, Number),
                            CalcError,
                        >(e));
                        assert(reduce_close(ops0, vals0, cur0) == Err::<
                            (Seq<OpEnt>, Seq<Number>, Number),
                            CalcError,
                        >(e));
                    }
                    return Err(e);
                },
            }
        }
        let ghost fops = self.ops@;
        let ghost fvals = self.vals@;
        if self.ops.len() > 0 {
            proof {
                assert(fops.last() is Open);
                assert(count_bins(fops) == count_bins(fops.drop_last()));
                assert(reduce_close(fops, fvals, cur) == Ok::<
                    (Seq<OpEnt>, Seq<Number>, Number),
                    CalcError,
                >((fops.drop_last(), fvals, cur)));
            }
            let _m = self.ops.pop();
        } else {
            proof {
                assert(reduce_close(fops, fvals, cur) == Ok::<
                    (Seq<OpEnt>, Seq<Number>, Number),
                    CalcError,
                >((fops, fvals, cur)));
            }
        }
        Ok(cur)
    }

    /// Full reduction for an evaluation.
    #[verifier::loop_isolation(false)]
    fn run_reduce_all(&mut self, cur0: Number) -> (r: Result<Number, CalcError>)
        requires
            core_inv(old(self)@.core),
            cur0.wf(),
        ensures
            final(self)@.entry_unchanged(old(self)@),
            ({
                let rr: Result<Number, CalcError> = reduce_all(old(self)@.core.ops,
                    old(self)@.core.vals, cur0);
                match r {
                    Ok(v) => rr == Ok::<Number, CalcError>(v) && v.wf(),
                    Err(e) => rr == Err::<Number, CalcError>(e),
                }
            }),
    {
        let mut cur = cur0;
        let ghost ops0 = self.ops@;
        let ghost vals0 = self.vals@;
        while self.ops.len() > 0
            invariant
                core_inv_stack(self.ops@, self.vals@),
                cur.wf(),
                reduce_all(ops0, vals0, cur0) == reduce_all(self.ops@, self.vals@, cur),
                self@.entry_unchanged(old(self)@),
            decreases self.ops@.len(),
        {
            let ghost pops = self.ops@;
            let ghost pvals = self.vals@;
            let top = self.ops.pop();
            match top {
                Some(OpEnt::Open) => {
                    proof {
                        assert(count_bins(pops) == count_bins(pops.drop_last()));
                    }
                },
                Some(OpEnt::B(op2)) => {
                    proof {
                        assert(pops.last() == OpEnt::B(op2));
                        assert(count_bins(pops) == count_bins(pops.drop_last()) + 1);
                        assert(self.vals@.len() >= 1);
                        assert(pvals[pvals.len() - 1].wf());
                    }
                    let v1 = match self.vals.pop() {
                        Some(v) => v,
                        None => cur,
                    };
                    proof {
                        lemma_bin_res_wf(op2, v1, cur);
                    }
                    match apply_bin_exec(op2, v1, cur) {
                        Ok(v) => {
                            proof {
                                assert(reduce_all(pops, pvals, cur) == reduce_all(
                                    pops.drop_last(),
                                    pvals.drop_last(),
                                    v,
                                ));
                            }
                            cur = v;
                        },
                        Err(e) => {
                            proof {
                                assert(reduce_all(pops, pvals, cur) == Err::<Number, CalcError>(
                                    e,
                                ));
                                assert(reduce_all(ops0, vals0, cur0) == Err::<Number, CalcError>(
                                    e,
                                ));
                            }
                            return Err(e);
                        },
                    }
                },
                None => {
                },
            }
        }
        proof {
            assert(reduce_all(self.ops@, self.vals@, cur) == Ok::<Number, CalcError>(cur));
        }
        Ok(cur)
    }

    /// The operand the next token acts on, if any.
    fn cur_val_exec(&self) -> (r: Option<Number>)
        requires
            core_inv(self@.core),
        ensures
            r == cur_val(self@.core),
            r matches Some(v) ==> v.wf(),
    {
        match &self.entry {
            Some(e) => Some(parse_entry(e)),
            None => self.acc,
        }
    }
}

/// The stack part of the core invariant, for the reduction loops.
pub open spec fn core_inv_stack(ops: Seq<OpEnt>, vals: Seq<Number>) -> bool {
    &&& count_bins(ops) == vals.len()
    &&& forall|i: int| 0 <= i < vals.len() ==> (#[trigger] vals[i]).wf()
}

impl StV {
    /// Everything but the operator and value stacks is unchanged.
    pub open spec fn entry_unchanged(self, s0: StV) -> bool {
        &&& self.core.entry == s0.core.entry
        &&& self.core.acc == s0.core.acc
        &&& self.core.last_op == s0.core.last_op
        &&& self.core.expr == s0.core.expr
        &&& self.core.err == s0.core.err
        &&& self.history == s0.history
        &&& self.undo == s0.undo
        &&& self.cfg == s0.cfg
    }
}

fn should_reduce_bin(ops: &Vec<OpEnt>, op: BinOp) -> (r: bool)
    ensures
        r == (ops@.len() > 0 && (ops@.last() matches OpEnt::B(op2) && crate::token::prec(op2)
            >= crate::token::prec(op))),
{
    let l = ops.len();
    if l == 0 {
        false
    } else {
        match ops[l - 1] {
            OpEnt::B(op2) => prec_exec(op2) >= prec_exec(op),
            OpEnt::Open => false,
        }
    }
}

fn should_reduce_any(ops: &Vec<OpEnt>) -> (r: bool)
    ensures
        r == (ops@.len() > 0 && ops@.last() is B),
{
    let l = ops.len();
    if l == 0 {
        false
    } else {
        match ops[l - 1] {
            OpEnt::B(_) => true,
            OpEnt::Open => false,
        }
    }
}

fn prec_exec(op: BinOp) -> (p: u8)
    ensures
        p as nat == crate::token::prec(op),
{
    match op {
        BinOp::Add => 1,
        BinOp::Sub => 1,
        BinOp::Mul => 2,
        BinOp::Div => 2,
    }
}


/// The history line for one entry: `<expr> = <result>`.
pub open spec fn hist_line(h: HistV) -> Seq<char> {
    h.expr + seq![' ', '=', ' '] + h.res
}

/// All history lines, oldest first, joined with newlines.
pub open spec fn hist_join(hs: Seq<HistV>) -> Seq<char>
    decreases hs.len(),
{
    if hs.len() == 0 {
        Seq::empty()
    } else if hs.len() == 1 {
        hist_line(hs[0])
    } else {
        hist_join(hs.drop_last()) + seq!['\n'] + hist_line(hs.last())
    }
}

/// The fixed-width display text: the error marker in an error state, the
/// operand text mid-entry, else the current value (`0` before any input).
pub open spec fn display_spec(s: StV, w: nat) -> Seq<char> {
    if s.core.err is Some {
        err_display(w)
    } else {
        match s.core.entry {
            Some(e) => sized_spec(
                false,
                e.ip,
                e.fp is Some,
                (match e.fp {
                    Some(f) => f,
                    None => Seq::empty(),
                }),
                w,
            ),
            None => match s.core.acc {
                Some(v) => num_sized(v, w),
                None => sized_spec(false, seq!['0'], false, Seq::empty(), w),
            },
        }
    }
}

pub open spec fn num_sized(v: Number, w: nat) -> Seq<char> {
    let un = sabs(v.num as int);
    let d = v.den as nat;
    sized_spec(
        v.num < 0,
        nat_digits(un / d),
        false,
        frac_digits(un % d, d, RENDER_FRAC as nat),
        w,
    )
}

/// `Error`, right-aligned; `#` marks when the width cannot hold it.
pub open spec fn err_display(w: nat) -> Seq<char> {
    if w >= 5 {
        Seq::new((w - 5) as nat, |i: int| ' ') + seq!['E', 'r', 'r', 'o', 'r']
    } else {
        Seq::new(w, |i: int| '#')
    }
}

proof fn lemma_frac_digits_len(rem: nat, den: nat, k: nat)
    requires
        1 <= den,
        rem < den,
    ensures
        frac_digits(rem, den, k).len() <= k,
    decreases k,
{
    if k == 0 || rem == 0 {
    } else {
        vstd::arithmetic::div_mod::lemma_mod_division_less_than_divisor(
            (rem * 10) as int,
            den as int,
        );
        lemma_frac_digits_len(rem * 10 % den, den, (k - 1) as nat);
    }
}

proof fn lemma_pow10_20()
    ensures
        pow10(20) == 100000000000000000000,
{
    lemma_pow10_18();
    assert(pow10(19) == 10 * pow10(18));
    assert(pow10(20) == 10 * pow10(19));
}

proof fn lemma_nat_digits_len_le(n: nat, k: nat)
    requires
        n < pow10(k),
        k >= 1,
    ensures
        nat_digits(n).len() <= k,
    decreases k,
{
    if n < 10 {
    } else {
        assert(pow10(k) == 10 * pow10((k - 1) as nat));
        vstd::arithmetic::div_mod::lemma_fundamental_div_mod(n as int, 10);
        let q = n / 10;
        let r = n % 10;
        vstd::arithmetic::div_mod::lemma_mod_division_less_than_divisor(n as int, 10);
        assert(q < pow10((k - 1) as nat)) by (nonlinear_arith)
            requires
                n as int == 10 * q as int + r as int,
                0 <= (r as int) && (r as int) < 10,
                n < pow10(k),
                pow10(k) == 10 * pow10((k - 1) as nat),
        {}
        lemma_pow10_mono(1, (k - 1) as nat);
        lemma_nat_digits_len_le(q, (k - 1) as nat);
    }
}

impl Engine {
    /// A fresh engine with the default configuration.
    pub fn new() -> (e: Engine)
        ensures
            e@ == (StV {
                core: reset_core(),
                history: Seq::empty(),
                undo: Seq::empty(),
                cfg: Config { enable_undo: true, enable_history: true, max_undo_depth: 1000 },
            }),
            inv(e@),
    {
        Engine::new_with_config(
            Config { enable_undo: true, enable_history: true, max_undo_depth: 1000 },
        )
    }

    /// A fresh engine with the given configuration.
    pub fn new_with_config(cfg: Config) -> (e: Engine)
        ensures
            e@ == (StV {
                core: reset_core(),
                history: Seq::empty(),
                undo: Seq::empty(),
                cfg,
            }),
            inv(e@),
    {
        let e = Engine {
            entry: None,
            acc: None,
            ops: Vec::new(),
            vals: Vec::new(),
            last_op: None,
            expr: Vec::new(),
            history: Vec::new(),
            undo_stack: Vec::new(),
            err: None,
            cfg,
        };
        proof {
            assert(e@ =~~= (StV {
                core: reset_core(),
                history: Seq::empty(),
                undo: Seq::empty(),
                cfg,
            }));
        }
        e
    }

    /// Clears the undoable state; history and the undo stack are kept.
    pub fn reset(&mut self)
        requires
            inv(old(self)@),
        ensures
            inv(final(self)@),
            final(self)@ == (StV {
                core: reset_core(),
                history: old(self)@.history,
                undo: old(self)@.undo,
                cfg: old(self)@.cfg,
            }),
    {
        self.entry = None;
        self.acc = None;
        self.ops = Vec::new();
        self.vals = Vec::new();
        self.last_op = None;
        self.expr = Vec::new();
        self.err = None;
        proof {
            assert(self@ =~~= (StV {
                core: reset_core(),
                history: old(self)@.history,
                undo: old(self)@.undo,
                cfg: old(self)@.cfg,
            }));
        }
    }

    /// Restores the state before the latest accepted mutation; reports
    /// whether there was one. History is never undone.
    pub fn undo(&mut self) -> (b: bool)
        requires
            inv(old(self)@),
        ensures
            inv(final(self)@),
            final(self)@ == undo_spec(old(self)@).0,
            b == undo_spec(old(self)@).1,
    {
        let popped = self.undo_stack.pop();
        match popped {
            None => {
                proof {
                    assert(self@ =~~= undo_spec(old(self)@).0);
                }
                false
            },
            Some(sn) => {
                proof {
                    assert(sn@ == old(self)@.undo.last());
                    assert(self.undo_stack@.map_values(|s: Snap| s@) =~= old(
                        self,
                    )@.undo.drop_last());
                }
                self.restore_from(&sn);
                proof {
                    assert(self@ =~~= undo_spec(old(self)@).0);
                    assert(core_inv(old(self)@.undo.last()));
                }
                true
            },
        }
    }

    /// The exact number of unmatched open brackets.
    pub fn count_opened_brackets(&self) -> (n: usize)
        ensures
            n as nat == count_opens(self@.core.ops),
    {
        let mut n: usize = 0;
        let mut i: usize = 0;
        while i < self.ops.len()
            invariant
                i <= self.ops@.len(),
                n <= i,
                n as nat == count_opens(self.ops@.take(i as int)),
            decreases self.ops@.len() - i,
        {
            proof {
                assert(self.ops@.take(i + 1).drop_last() =~= self.ops@.take(i as int));
                assert(self.ops@.take(i + 1).last() == self.ops@[i as int]);
            }
            match self.ops[i] {
                OpEnt::Open => {
                    n = n + 1;
                },
                OpEnt::B(_) => {
                },
            }
            i = i + 1;
        }
        proof {
            assert(self.ops@.take(self.ops@.len() as int) =~= self.ops@);
        }
        n
    }

    /// The most recently accepted binary operator, as its key text.
    pub fn get_last_operator(&self) -> (r: Option<String>)
        ensures
            r is Some <==> self@.core.last_op is Some,
            r matches Some(s) ==> s@ == seq![op_char(self@.core.last_op->0)],
    {
        match self.last_op {
            None => None,
            Some(op) => {
                let mut v: Vec<char> = Vec::new();
                v.push(op_char_exec(op));
                let s = crate::text::chars_to_string(&v);
                proof {
                    assert(s@ =~= seq![op_char(op)]);
                }
                Some(s)
            },
        }
    }

    /// The session log: the latest line, or all lines when `verbose`;
    /// `None` while nothing has been evaluated.
    pub fn get_history_string(&self, verbose: bool) -> (r: Option<String>)
        ensures
            r is Some <==> self@.history.len() > 0,
            r matches Some(s) ==> s@ == (if verbose {
                hist_join(self@.history)
            } else {
                hist_line(self@.history.last())
            }),
    {
        let n = self.history.len();
        if n == 0 {
            return None;
        }
        if !verbose {
            let h = &self.history[n - 1];
            let mut out: Vec<char> = Vec::new();
            append_chars(&mut out, &h.expr);
            out.push(' ');
            out.push('=');
            out.push(' ');
            append_chars(&mut out, &h.res);
            proof {
                assert(self@.history.last() == self.history@[n - 1]@);
                assert(out@ =~= hist_line(self@.history.last()));
            }
            return Some(crate::text::chars_to_string(&out));
        }
        let mut out: Vec<char> = Vec::new();
        let mut i: usize = 0;
        while i < n
            invariant
                i <= n,
                n == self.history@.len(),
                out@ == hist_join(self@.history.take(i as int)),
                self@.history == self.history@.map_values(|h: Hist| h@),
            decreases n - i,
        {
            let ghost pre = self@.history.take(i as int);
            if i > 0 {
                out.push('\n');
            }
            let h = &self.history[i];
            append_chars(&mut out, &h.expr);
            out.push(' ');
            out.push('=');
            out.push(' ');
            append_chars(&mut out, &h.res);
            proof {
                let cur = self@.history.take(i + 1);
                assert(cur.drop_last() =~= pre);
                assert(cur.last() == self.history@[i as int]@);
                if i == 0 {
                    assert(out@ =~= hist_join(cur));
                } else {
                    assert(out@ =~= hist_join(cur));
                }
            }
            i = i + 1;
        }
        proof {
            assert(self@.history.take(n as int) =~= self@.history);
        }
        Some(crate::text::chars_to_string(&out))
    }

    /// Renders the display, right-aligned in `width` characters.
    pub fn get_display_sized(&self, width: usize) -> (r: String)
        requires
            inv(self@),
        ensures
            r@ == display_spec(self@, width as nat),
    {
        if self.err.is_some() {
            let mut out: Vec<char> = Vec::new();
            if width >= 5 {
                append_fill(&mut out, ' ', width - 5);
                out.push('E');
                out.push('r');
                out.push('r');
                out.push('o');
                out.push('r');
            } else {
                append_fill(&mut out, '#', width);
            }
            proof {
                assert(out@ =~= err_display(width as nat));
            }
            return crate::text::chars_to_string(&out);
        }
        let out: Vec<char> = match &self.entry {
            Some(e) => {
                let dot = e.fp.is_some();
                let empty_fp: Vec<char> = Vec::new();
                let fpv: &Vec<char> = match &e.fp {
                    Some(f) => f,
                    None => &empty_fp,
                };
                render_sized(false, &e.ip, dot, fpv, width)
            },
            None => match self.acc {
                Some(v) => {
                    let un: u64 = if v.num < 0 {
                        (-(v.num as i128)) as u64
                    } else {
                        v.num as u64
                    };
                    let den: u64 = v.den as u64;
                    let mut ip: Vec<char> = Vec::new();
                    push_nat_digits(&mut ip, (un / den) as u128);
                    let mut fp: Vec<char> = Vec::new();
                    push_frac_digits(&mut fp, un % den, den, RENDER_FRAC);
                    proof {
                        assert(un as nat == sabs(v.num as int));
                        lemma_pow10_20();
                        lemma_nat_digits_len_le((un / den) as nat, 20);
                        assert(nat_digits((un / den) as nat).len() >= 1);
                        vstd::arithmetic::div_mod::lemma_mod_division_less_than_divisor(
                            un as int,
                            den as int,
                        );
                        lemma_frac_digits_len((un % den) as nat, den as nat, RENDER_FRAC as nat);
                    }
                    render_sized(v.num < 0, &ip, false, &fp, width)
                },
                None => {
                    let z: Vec<char> = vec!['0'];
                    proof {
                        assert(z@ =~= seq!['0']);
                    }
                    let empty_fp: Vec<char> = Vec::new();
                    render_sized(false, &z, false, &empty_fp, width)
                },
            },
        };
        crate::text::chars_to_string(&out)
    }
}

/// The pending-operator indicator glyph for a display header.
pub fn get_op_indicator(calculator: &Engine) -> (r: &'static str)
    ensures
        r@ == op_indicator_spec(calculator@.core.last_op),
{
    match calculator.last_op {
        Some(BinOp::Add) => "+",
        Some(BinOp::Sub) => "-",
        Some(BinOp::Mul) => "x",
        Some(BinOp::Div) => "\u{f7}",
        None => " ",
    }
}

pub open spec fn op_indicator_spec(op: Option<BinOp>) -> Seq<char> {
    match op {
        Some(BinOp::Add) => "+"@,
        Some(BinOp::Sub) => "-"@,
        Some(BinOp::Mul) => "x"@,
        Some(BinOp::Div) => "\u{f7}"@,
        None => " "@,
    }
}

/// The open-bracket indicator glyph for a display header.
pub fn get_bracket_indicator(calculator: &Engine) -> (r: &'static str)
    ensures
        r@ == bracket_indicator_spec(count_opens(calculator@.core.ops)),
{
    let n = calculator.count_opened_brackets();
    match n {
        1 => "\u{2474}",
        2 => "\u{2475}",
        3 => "\u{2476}",
        4 => "\u{2477}",
        5 => "\u{2478}",
        6 => "\u{2479}",
        7 => "\u{247a}",
        8 => "\u{247b}",
        9 => "\u{247c}",
        10 => "\u{247d}",
        _ => " ",
    }
}

pub open spec fn bracket_indicator_spec(n: nat) -> Seq<char> {
    if n == 1 {
        "\u{2474}"@
    } else if n == 2 {
        "\u{2475}"@
    } else if n == 3 {
        "\u{2476}"@
    } else if n == 4 {
        "\u{2477}"@
    } else if n == 5 {
        "\u{2478}"@
    } else if n == 6 {
        "\u{2479}"@
    } else if n == 7 {
        "\u{247a}"@
    } else if n == 8 {
        "\u{247b}"@
    } else if n == 9 {
        "\u{247c}"@
    } else if n == 10 {
        "\u{247d}"@
    } else {
        " "@
    }
}


impl Engine {
    fn exec_digit(&mut self, d: u8) -> (out: (bool, Option<Hist>, Result<(), CalcError>))
        requires
            core_inv(old(self)@.core),
            old(self)@.core.err is None,
            d < 10,
        ensures
            step_ok(old(self)@, final(self)@, step_digit(old(self)@.core, d), out.0, out.1, out.2),
    {
        let ghost c0 = self@.core;
        let dc = digit_to_char(d);
        proof {
            assert(is_digit_char(dc));
        }
        let eopt = clone_opt_entry(&self.entry);
        match eopt {
            Some(e) => {
                proof {
                    assert(e@ == c0.entry->0);
                }
                let isz = e.fp.is_none() && e.ip.len() == 1 && e.ip[0] == '0';
                proof {
                    if isz {
                        assert(e@.ip =~= seq!['0']);
                    } else {
                        if e.fp.is_none() {
                            assert(seq!['0'].len() == 1);
                            if e.ip.len() == 1 {
                                assert(e@.ip[0] != '0');
                                assert(e@.ip != seq!['0']);
                            } else {
                                assert(e@.ip != seq!['0']);
                            }
                        }
                    }
                }
                if isz {
                    if d == 0 {
                        proof {
                            assert(self@.core =~~= step_digit(c0, d).core);
                        }
                        return (false, None, Ok(()));
                    }
                    let mut ip2: Vec<char> = Vec::new();
                    ip2.push(dc);
                    self.entry = Some(Entry { ip: ip2, fp: None });
                    self.expr.push(dc);
                    proof {
                        let o = step_digit(c0, d);
                        assert(self@.core.entry->0 =~~= o.core.entry->0);
                        assert(self@.core.expr =~= c0.expr + seq![digit_char(d as nat)]);
                        assert(self@.core =~~= o.core);
                    }
                    return (true, None, Ok(()));
                }
                let total = e.ip.len() + (match &e.fp {
                    Some(f) => f.len(),
                    None => 0,
                });
                if total >= 18 {
                    return (false, None, Err(CalcError::OverflowError));
                }
                let ghost olde = e@;
                match e.fp {
                    None => {
                        let mut ip2 = e.ip;
                        ip2.push(dc);
                        self.entry = Some(Entry { ip: ip2, fp: None });
                    },
                    Some(mut f) => {
                        f.push(dc);
                        self.entry = Some(Entry { ip: e.ip, fp: Some(f) });
                    },
                }
                self.expr.push(dc);
                proof {
                    let o = step_digit(c0, d);
                    let e2 = self@.core.entry->0;
                    assert(e2 =~~= o.core.entry->0);
                    assert(self@.core.expr =~= c0.expr + seq![digit_char(d as nat)]);
                    assert(self@.core =~~= o.core);
                    assert(e2.digits() =~= olde.digits().push(digit_char(d as nat)));
                    assert(e2.wf());
                }
                (true, None, Ok(()))
            },
            None => {
                if self.acc.is_some() && self.ops.len() > 0 {
                    return (false, None, Err(CalcError::MalformedExpression));
                }
                let restart = self.acc.is_some();
                if restart {
                    self.expr = Vec::new();
                }
                self.acc = None;
                let mut ip2: Vec<char> = Vec::new();
                ip2.push(dc);
                self.entry = Some(Entry { ip: ip2, fp: None });
                self.expr.push(dc);
                proof {
                    let o = step_digit(c0, d);
                    assert(self@.core.entry->0 =~~= o.core.entry->0);
                    if restart {
                        assert(self@.core.expr =~= seq![digit_char(d as nat)]);
                    } else {
                        assert(self@.core.expr =~= c0.expr + seq![digit_char(d as nat)]);
                    }
                    assert(self@.core =~~= o.core);
                }
                (true, None, Ok(()))
            },
        }
    }

    fn exec_decimal(&mut self) -> (out: (bool, Option<Hist>, Result<(), CalcError>))
        requires
            core_inv(old(self)@.core),
            old(self)@.core.err is None,
        ensures
            step_ok(old(self)@, final(self)@, step_decimal(old(self)@.core), out.0, out.1, out.2),
    {
        let ghost c0 = self@.core;
        let eopt = clone_opt_entry(&self.entry);
        match eopt {
            Some(e) => {
                if e.fp.is_some() {
                    return (false, None, Ok(()));
                }
                let ghost olde = e@;
                let f: Vec<char> = Vec::new();
                self.entry = Some(Entry { ip: e.ip, fp: Some(f) });
                self.expr.push('.');
                proof {
                    let o = step_decimal(c0);
                    assert(self@.core.entry->0 =~~= o.core.entry->0);
                    assert(self@.core.expr =~= c0.expr + seq!['.']);
                    assert(self@.core =~~= o.core);
                    assert(self@.core.entry->0.digits() =~= olde.digits());
                }
                (true, None, Ok(()))
            },
            None => {
                if self.acc.is_some() && self.ops.len() > 0 {
                    return (false, None, Err(CalcError::MalformedExpression));
                }
                let restart = self.acc.is_some();
                if restart {
                    self.expr = Vec::new();
                }
                self.acc = None;
                let mut ip2: Vec<char> = Vec::new();
                ip2.push('0');
                let f: Vec<char> = Vec::new();
                self.entry = Some(Entry { ip: ip2, fp: Some(f) });
                self.expr.push('0');
                self.expr.push('.');
                proof {
                    let o = step_decimal(c0);
                    assert(self@.core.entry->0 =~~= o.core.entry->0);
                    if restart {
                        assert(self@.core.expr =~= seq!['0', '.']);
                    } else {
                        assert(self@.core.expr =~= c0.expr + seq!['0', '.']);
                    }
                    assert(self@.core =~~= o.core);
                    assert(self@.core.entry->0.digits() =~= seq!['0']);
                }
                (true, None, Ok(()))
            },
        }
    }

    fn fix_expr_base(&mut self, ghost_v: Ghost<Number>)
        requires
            core_inv(old(self)@.core),
            cur_val(old(self)@.core) == Some(ghost_v@),
        ensures
            final(self)@.core.expr == expr_base(old(self)@.core),
            final(self)@.core == (CoreV { expr: final(self)@.core.expr, ..old(self)@.core }),
            final(self)@.history == old(self)@.history,
            final(self)@.undo == old(self)@.undo,
            final(self)@.cfg == old(self)@.cfg,
            core_inv(final(self)@.core),
    {
        if self.entry.is_none() && self.expr.len() == 0 && self.acc.is_some() {
            let v = match self.acc {
                Some(v) => v,
                None => Number { num: 0, den: 1 },
            };
            self.expr = render_full_exec(v);
            proof {
                assert(self@.core =~~= (CoreV { expr: self@.core.expr, ..old(self)@.core }));
            }
        } else {
            proof {
                assert(self@.core =~~= (CoreV { expr: self@.core.expr, ..old(self)@.core }));
            }
        }
    }

    fn exec_bin(&mut self, op: BinOp, sn: &Snap) -> (out: (bool, Option<Hist>, Result<(), CalcError>))
        requires
            core_inv(old(self)@.core),
            old(self)@.core.err is None,
            sn@ == old(self)@.core,
        ensures
            step_ok(old(self)@, final(self)@, step_bin(old(self)@.core, op), out.0, out.1, out.2),
    {
        let ghost c0 = self@.core;
        let cv = self.cur_val_exec();
        match cv {
            None => (false, None, Err(CalcError::MalformedExpression)),
            Some(v0) => {
                self.fix_expr_base(Ghost(v0));
                match self.run_reduce_bin(v0, op) {
                    Ok(v2) => {
                        let ghost ops2 = self.ops@;
                        let ghost vals2 = self.vals@;
                        self.ops.push(OpEnt::B(op));
                        self.vals.push(v2);
                        self.entry = None;
                        self.acc = None;
                        self.last_op = Some(op);
                        self.expr.push(op_char_exec(op));
                        proof {
                            let o = step_bin(c0, op);
                            assert(self.ops@.drop_last() =~= ops2);
                            assert(self.ops@.last() == OpEnt::B(op));
                            assert(count_bins(self.ops@) == count_bins(ops2) + 1);
                            assert(self.vals@.len() == vals2.len() + 1);
                            assert(self@.core.expr =~= expr_base(c0) + seq![op_char(op)]);
                            assert(self@.core =~~= o.core);
                        }
                        (true, None, Ok(()))
                    },
                    Err(e) => {
                        self.restore_from(sn);
                        self.err = Some(e);
                        proof {
                            assert(self@.core =~~= step_bin(c0, op).core);
                        }
                        (true, None, Err(e))
                    },
                }
            },
        }
    }

    fn exec_percent(&mut self, sn: &Snap) -> (out: (bool, Option<Hist>, Result<(), CalcError>))
        requires
            core_inv(old(self)@.core),
            old(self)@.core.err is None,
            sn@ == old(self)@.core,
        ensures
            step_ok(old(self)@, final(self)@, step_percent(old(self)@.core), out.0, out.1, out.2),
    {
        let ghost c0 = self@.core;
        let cv = self.cur_val_exec();
        match cv {
            None => (false, None, Ok(())),
            Some(v0) => {
                self.fix_expr_base(Ghost(v0));
                match rat_percent(v0) {
                    Some(r) => {
                        proof {
                            crate::number::lemma_norm_props(v0.num as int, v0.den as int * 100);
                        }
                        self.entry = None;
                        self.acc = Some(r);
                        self.expr.push('%');
                        proof {
                            let o = step_percent(c0);
                            assert(self@.core.expr =~= expr_base(c0) + seq!['%']);
                            assert(self@.core =~~= o.core);
                        }
                        (true, None, Ok(()))
                    },
                    None => {
                        let e = CalcError::OverflowError;
                        self.restore_from(sn);
                        self.err = Some(e);
                        proof {
                            assert(self@.core =~~= step_percent(c0).core);
                        }
                        (true, None, Err(e))
                    },
                }
            },
        }
    }

    fn exec_unary(&mut self, f: Func, sn: &Snap) -> (out: (
        bool,
        Option<Hist>,
        Result<(), CalcError>,
        Ghost<Result<Number, CalcError>>,
    ))
        requires
            core_inv(old(self)@.core),
            old(self)@.core.err is None,
            sn@ == old(self)@.core,
        ensures
            uo_valid(old(self)@.core, Token::Unary(f), out.3@),
            step_ok(
                old(self)@,
                final(self)@,
                step_unary(old(self)@.core, f, out.3@),
                out.0,
                out.1,
                out.2,
            ),
    {
        let ghost c0 = self@.core;
        let cv = self.cur_val_exec();
        match cv {
            None => (false, None, Ok(()), Ghost(Err(CalcError::DomainError))),
            Some(v0) => {
                self.fix_expr_base(Ghost(v0));
                let uo = unary_eval_exec(f, v0);
                match uo {
                    Ok(r) => {
                        self.entry = None;
                        self.acc = Some(r);
                        let nm = func_name_chars(f);
                        append_chars(&mut self.expr, &nm);
                        proof {
                            let o = step_unary(c0, f, uo);
                            assert(self@.core.expr =~= expr_base(c0) + func_name(f));
                            assert(self@.core =~~= o.core);
                        }
                        (true, None, Ok(()), Ghost(uo))
                    },
                    Err(e) => {
                        self.restore_from(sn);
                        self.err = Some(e);
                        proof {
                            assert(self@.core =~~= step_unary(c0, f, uo).core);
                        }
                        (true, None, Err(e), Ghost(uo))
                    },
                }
            },
        }
    }

    fn exec_open(&mut self) -> (out: (bool, Option<Hist>, Result<(), CalcError>))
        requires
            core_inv(old(self)@.core),
            old(self)@.core.err is None,
        ensures
            step_ok(old(self)@, final(self)@, step_open(old(self)@.core), out.0, out.1, out.2),
    {
        let ghost c0 = self@.core;
        if self.entry.is_some() {
            return (false, None, Err(CalcError::MalformedExpression));
        }
        if self.acc.is_some() && self.ops.len() > 0 {
            return (false, None, Err(CalcError::MalformedExpression));
        }
        let restart = self.acc.is_some();
        if restart {
            self.expr = Vec::new();
        }
        self.acc = None;
        self.ops.push(OpEnt::Open);
        self.expr.push('(');
        proof {
            let o = step_open(c0);
            assert(count_bins(self.ops@) == count_bins(self.ops@.drop_last()));
            assert(self.ops@.drop_last() =~= c0.ops);
            if restart {
                assert(self@.core.expr =~= seq!['(']);
            } else {
                assert(self@.core.expr =~= c0.expr + seq!['(']);
            }
            assert(self@.core =~~= o.core);
        }
        (true, None, Ok(()))
    }

    fn exec_close(&mut self, sn: &Snap) -> (out: (bool, Option<Hist>, Result<(), CalcError>))
        requires
            core_inv(old(self)@.core),
            old(self)@.core.err is None,
            sn@ == old(self)@.core,
        ensures
            step_ok(old(self)@, final(self)@, step_close(old(self)@.core), out.0, out.1, out.2),
    {
        let ghost c0 = self@.core;
        let opens = self.count_opened_brackets();
        if opens == 0 {
            return (false, None, Ok(()));
        }
        let cv = self.cur_val_exec();
        let v0 = match cv {
            Some(v) => v,
            None => Number { num: 0, den: 1 },
        };
        proof {
            assert(v0 == cur_or_zero(c0));
        }
        match self.run_reduce_close(v0) {
            Ok(v2) => {
                self.entry = None;
                self.acc = Some(v2);
                self.expr.push(')');
                proof {
                    let o = step_close(c0);
                    assert(self@.core.expr =~= c0.expr + seq![')']);
                    assert(self@.core =~~= o.core);
                }
                (true, None, Ok(()))
            },
            Err(e) => {
                self.restore_from(sn);
                self.err = Some(e);
                proof {
                    assert(self@.core =~~= step_close(c0).core);
                }
                (true, None, Err(e))
            },
        }
    }

    fn exec_eval(&mut self, sn: &Snap) -> (out: (bool, Option<Hist>, Result<(), CalcError>))
        requires
            core_inv(old(self)@.core),
            old(self)@.core.err is None,
            sn@ == old(self)@.core,
        ensures
            step_ok(old(self)@, final(self)@, step_eval(old(self)@.core), out.0, out.1, out.2),
    {
        let ghost c0 = self@.core;
        let cv = self.cur_val_exec();
        match cv {
            None => {
                if self.ops.len() == 0 {
                    (false, None, Ok(()))
                } else {
                    self.err = Some(CalcError::MalformedExpression);
                    proof {
                        assert(self@.core =~~= step_eval(c0).core);
                    }
                    (true, None, Err(CalcError::MalformedExpression))
                }
            },
            Some(v0) => {
                let ex: Vec<char> = if self.expr.len() == 0 {
                    render_full_exec(v0)
                } else {
                    clone_chars(&self.expr)
                };
                match self.run_reduce_all(v0) {
                    Ok(r) => {
                        let res_txt = render_full_exec(r);
                        self.entry = None;
                        self.acc = Some(r);
                        self.ops = Vec::new();
                        self.vals = Vec::new();
                        self.last_op = None;
                        self.expr = Vec::new();
                        self.err = None;
                        let h = Hist { expr: ex, res: res_txt };
                        proof {
                            let o = step_eval(c0);
                            assert(self@.core =~~= o.core);
                            assert(count_bins(Seq::<OpEnt>::empty()) == 0);
                            assert(h@ =~~= o.hist->0);
                        }
                        (true, Some(h), Ok(()))
                    },
                    Err(e) => {
                        self.restore_from(sn);
                        self.err = Some(e);
                        proof {
                            assert(self@.core =~~= step_eval(c0).core);
                        }
                        (true, None, Err(e))
                    },
                }
            },
        }
    }

    fn do_step(&mut self, t: Token, sn: &Snap) -> (out: (
        bool,
        Option<Hist>,
        Result<(), CalcError>,
        Ghost<Result<Number, CalcError>>,
    ))
        requires
            core_inv(old(self)@.core),
            old(self)@.core.err is None,
            sn@ == old(self)@.core,
            !(t is ClearAll),
            !(t is Undo),
            t matches Token::Digit(d) ==> d < 10,
        ensures
            uo_valid(old(self)@.core, t, out.3@),
            step_ok(
                old(self)@,
                final(self)@,
                core_step(old(self)@.core, t, out.3@),
                out.0,
                out.1,
                out.2,
            ),
    {
        let ghost dummy: Result<Number, CalcError> = Err(CalcError::DomainError);
        match t {
            Token::Digit(d) => {
                let o = self.exec_digit(d);
                (o.0, o.1, o.2, Ghost(dummy))
            },
            Token::Decimal => {
                let o = self.exec_decimal();
                (o.0, o.1, o.2, Ghost(dummy))
            },
            Token::Bin(op) => {
                let o = self.exec_bin(op, sn);
                (o.0, o.1, o.2, Ghost(dummy))
            },
            Token::Percent => {
                let o = self.exec_percent(sn);
                (o.0, o.1, o.2, Ghost(dummy))
            },
            Token::Unary(f) => self.exec_unary(f, sn),
            Token::Open => {
                let o = self.exec_open();
                (o.0, o.1, o.2, Ghost(dummy))
            },
            Token::Close => {
                let o = self.exec_close(sn);
                (o.0, o.1, o.2, Ghost(dummy))
            },
            Token::Evaluate => {
                let o = self.exec_eval(sn);
                (o.0, o.1, o.2, Ghost(dummy))
            },
            Token::ClearAll => (false, None, Ok(()), Ghost(dummy)),
            Token::Undo => (false, None, Ok(()), Ghost(dummy)),
        }
    }

    /// Feeds one raw key to the engine: the single entry point the input
    /// source drives. For every key and state the outcome is `push_raw_spec`
    /// for some admissible outside-calculator outcome (`push_post`); every
    /// key other than the real-valued unary functions is pinned outright.
    pub fn push(&mut self, raw: &str) -> (r: Result<(), CalcError>)
        requires
            inv(old(self)@),
        ensures
            inv(final(self)@),
            push_post(old(self)@, raw@, final(self)@, r),
    {
        let ghost dummy: Result<Number, CalcError> = Err(CalcError::DomainError);
        let t = match classify(raw) {
            Some(t) => t,
            None => {
                proof {
                    assert(push_matches(
                        old(self)@,
                        raw@,
                        dummy,
                        self@,
                        Err(CalcError::UnknownToken),
                    ));
                }
                return Err(CalcError::UnknownToken);
            },
        };
        match t {
            Token::ClearAll => {
                let sn = self.make_snap();
                self.undo_push(sn);
                self.reset();
                proof {
                    assert(self@ =~~= push_spec(old(self)@, t, dummy).0);
                    assert(push_matches(old(self)@, raw@, dummy, self@, Ok(())));
                    lemma_push_snap_inv(old(self)@, old(self)@.core);
                }
                Ok(())
            },
            Token::Undo => {
                let _b = self.undo();
                proof {
                    assert(self@ =~~= push_spec(old(self)@, t, dummy).0);
                    assert(push_matches(old(self)@, raw@, dummy, self@, Ok(())));
                }
                Ok(())
            },
            _ => {
                match self.err {
                    Some(e) => {
                        proof {
                            assert(self@ =~~= push_spec(old(self)@, t, dummy).0);
                            assert(push_matches(old(self)@, raw@, dummy, self@, Err(e)));
                        }
                        Err(e)
                    },
                    None => {
                        proof {
                            assert(t matches Token::Digit(dd) ==> dd < 10) by {
                                if raw@.len() == 1 {
                                    assert(char_digit(raw@[0]) <= 9);
                                }
                            }
                        }
                        let sn = self.make_snap();
                        let out = self.do_step(t, &sn);
                        let (snapped, hist, res, uo) = out;
                        if snapped {
                            self.undo_push(sn);
                            proof {
                                lemma_push_snap_inv(old(self)@, old(self)@.core);
                            }
                        }
                        match hist {
                            Some(h) => {
                                if self.cfg.enable_history {
                                    self.history.push(h);
                                    proof {
                                        assert(self.history@.map_values(|x: Hist| x@) =~= old(
                                            self,
                                        )@.history.push(h@));
                                    }
                                }
                            },
                            None => {
                            },
                        }
                        proof {
                            assert(self@ =~~= push_spec(old(self)@, t, uo@).0);
                            assert(push_matches(old(self)@, raw@, uo@, self@, res));
                        }
                        res
                    },
                }
            },
        }
    }
}

/// Recording a consistent snapshot keeps the undo stack consistent and
/// within its bound.
proof fn lemma_push_snap_inv(s: StV, c: CoreV)
    requires
        inv(s),
        core_inv(c),
    ensures
        forall|i: int| 0 <= i < push_snap(s, c).len() ==> core_inv(#[trigger] push_snap(s, c)[i]),
        (if s.cfg.enable_undo {
            push_snap(s, c).len() <= s.cfg.max_undo_depth
        } else {
            push_snap(s, c).len() == 0
        }),
{
    let u = push_snap(s, c);
    if !s.cfg.enable_undo || s.cfg.max_undo_depth == 0 {
    } else if s.undo.len() >= s.cfg.max_undo_depth {
        assert forall|i: int| 0 <= i < u.len() implies core_inv(#[trigger] u[i]) by {
            if i < u.len() - 1 {
                assert(u[i] == s.undo[s.undo.len() - s.cfg.max_undo_depth + 1 + i]);
            } else {
                assert(u[i] == c);
            }
        }
    } else {
        assert forall|i: int| 0 <= i < u.len() implies core_inv(#[trigger] u[i]) by {
            if i < u.len() - 1 {
                assert(u[i] == s.undo[i]);
            } else {
                assert(u[i] == c);
            }
        }
    }
}

} // verus!
