use vstd::prelude::*;
use crate::engine::{core_step, count_opens, push_spec, reset_core, undo_spec, EntryV, StV};
use crate::number::Number;
use crate::text::{digit_char, digits_val, is_digit_char, lemma_digits_roundtrip, nat_digits};
use crate::token::{CalcError, Token};

verus! {

/// Folding a sequence of tokens through `push_spec`; `uo` stands for the
/// outside calculator's outcome, which none of the tokens these laws fold
/// consult (`lemma_push_uo_independent`).
pub open spec fn push_seq(s: StV, ts: Seq<Token>, uo: Result<Number, CalcError>) -> StV
    decreases ts.len(),
{
    if ts.len() == 0 {
        s
    } else {
        push_seq(push_spec(s, ts[0], uo).0, ts.drop_first(), uo)
    }
}

/// Every key but a unary function ignores the outside calculator's outcome:
/// for those keys the engine's behavior is pinned outright.
pub proof fn lemma_push_uo_independent(
    s: StV,
    t: Token,
    uo1: Result<Number, CalcError>,
    uo2: Result<Number, CalcError>,
)
    requires
        !(t is Unary),
    ensures
        push_spec(s, t, uo1) == push_spec(s, t, uo2),
{
}

pub open spec fn digit_tokens(ds: Seq<u8>) -> Seq<Token> {
    ds.map_values(|d: u8| Token::Digit(d))
}

/// Clearing the engine: the undoable state is reinitialized; history, undo
/// stack and configuration stay.
pub open spec fn reset_spec(s: StV) -> StV {
    StV { core: reset_core(), history: s.history, undo: s.undo, cfg: s.cfg }
}

/// Resetting twice yields exactly the state of resetting once.
pub proof fn lemma_reset_idempotent(s: StV)
    ensures
        reset_spec(reset_spec(s)) == reset_spec(s),
{
}

/// An undo with no recorded snapshot reports `false` and changes nothing.
pub proof fn lemma_undo_empty(s: StV)
    requires
        s.undo.len() == 0,
    ensures
        undo_spec(s).0 == s,
        undo_spec(s).1 == false,
{
}

/// Undo after any accepted mutating push restores the whole undoable state
/// and the undo stack exactly; only history, which is never undone, may have
/// grown. The configuration preconditions are the defaults of `new`: undo
/// enabled, with room below the snapshot bound.
pub proof fn lemma_undo_restores_push(s: StV, t: Token, uo: Result<Number, CalcError>)
    requires
        s.cfg.enable_undo,
        s.undo.len() < s.cfg.max_undo_depth,
        !(t is ClearAll),
        !(t is Undo),
        s.core.err is None,
        core_step(s.core, t, uo).snap,
    ensures
        ({
            let s2 = push_spec(s, t, uo).0;
            let (s3, b) = undo_spec(s2);
            b == true && s3.core == s.core && s3.undo == s.undo && s3.history == s2.history
                && s3.cfg == s.cfg
        }),
{
    let s2 = push_spec(s, t, uo).0;
    assert(s2.undo =~= s.undo.push(s.core));
    assert(s.undo.push(s.core).drop_last() =~= s.undo);
    assert(s.undo.push(s.core).last() == s.core);
}

/// Undo directly after a clear restores the state before it.
pub proof fn lemma_undo_restores_clear(s: StV)
    requires
        s.cfg.enable_undo,
        s.undo.len() < s.cfg.max_undo_depth,
    ensures
        ({
            let s2 = push_spec(s, Token::ClearAll, Err(CalcError::DomainError)).0;
            let (s3, b) = undo_spec(s2);
            b == true && s3.core == s.core && s3.undo == s.undo && s3.history == s.history
                && s3.cfg == s.cfg
        }),
{
    let s2 = push_spec(s, Token::ClearAll, Err(CalcError::DomainError)).0;
    assert(s2.undo =~= s.undo.push(s.core));
    assert(s.undo.push(s.core).drop_last() =~= s.undo);
    assert(s.undo.push(s.core).last() == s.core);
}

/// Once an error is set, every key except clear and undo is rejected with
/// that error and changes nothing.
pub proof fn lemma_error_blocks(s: StV, t: Token, uo: Result<Number, CalcError>)
    requires
        s.core.err is Some,
        !(t is ClearAll),
        !(t is Undo),
    ensures
        push_spec(s, t, uo).0 == s,
        push_spec(s, t, uo).1 == Err::<(), CalcError>(s.core.err->0),
{
}

/// A closing bracket with no bracket open is ignored: the count never goes
/// below zero.
pub proof fn lemma_close_at_depth_zero(s: StV, uo: Result<Number, CalcError>)
    requires
        s.core.err is None,
        count_opens(s.core.ops) == 0,
    ensures
        push_spec(s, Token::Close, uo).0 == s,
        push_spec(s, Token::Close, uo).1 == Ok::<(), CalcError>(()),
{
}

/// Typing digits mid-entry appends exactly those digits, in order, to the
/// operand text (away from the single-`0` state, where a leading zero
/// collapses by design, and within the 18-digit capacity).
pub proof fn lemma_digits_append(s: StV, ds: Seq<u8>, uo: Result<Number, CalcError>)
    requires
        s.core.err is None,
        s.core.entry is Some,
        (s.core.entry->0).wf(),
        !((s.core.entry->0).fp is None && (s.core.entry->0).ip == seq!['0']),
        (s.core.entry->0).digits().len() + ds.len() <= 18,
        forall|i: int| 0 <= i < ds.len() ==> ds[i] < 10,
    ensures
        ({
            let s2 = push_seq(s, digit_tokens(ds), uo);
            &&& s2.core.entry is Some
            &&& (s2.core.entry->0).text() == (s.core.entry->0).text() + ds.map_values(
                |d: u8| digit_char(d as nat),
            )
        }),
    decreases ds.len(),
{
    let e = s.core.entry->0;
    if ds.len() == 0 {
        assert(digit_tokens(ds).len() == 0);
        assert(e.text() + ds.map_values(|d: u8| digit_char(d as nat)) =~= e.text());
    } else {
        let d = ds[0];
        let dc = digit_char(d as nat);
        let t0 = Token::Digit(d);
        assert(digit_tokens(ds)[0] == t0);
        let s1 = push_spec(s, t0, uo).0;
        let e1 = s1.core.entry->0;
        assert(is_digit_char(dc));
        match e.fp {
            None => {
                assert(e1.ip =~= e.ip.push(dc));
                assert(e1.digits() =~= e.digits().push(dc));
                assert(e1.text() =~= e.text().push(dc));
                assert(e1.ip.len() >= 2);
                assert(e1.ip != seq!['0']);
                assert(e1.wf());
            },
            Some(f) => {
                assert(e1.fp->0 =~= f.push(dc));
                assert(e1.digits() =~= e.digits().push(dc));
                assert(e1.text() =~= e.text().push(dc));
                assert(e1.wf());
            },
        }
        assert(s1.core.err is None);
        lemma_digits_append(s1, ds.drop_first(), uo);
        assert(digit_tokens(ds).drop_first() =~= digit_tokens(ds.drop_first()));
        let s2 = push_seq(s, digit_tokens(ds), uo);
        assert(s2 == push_seq(s1, digit_tokens(ds.drop_first()), uo));
        assert((s2.core.entry->0).text() =~= e.text() + ds.map_values(
            |x: u8| digit_char(x as nat),
        )) by {
            assert((s2.core.entry->0).text() == e1.text() + ds.drop_first().map_values(
                |x: u8| digit_char(x as nat),
            ));
            assert(e1.text() == e.text().push(dc));
        }
    }
}

/// A well-formed operand text holds at most one decimal point.
pub proof fn lemma_entry_single_dot(e: EntryV, i: int, j: int)
    requires
        e.wf(),
        0 <= i < j < e.text().len(),
        e.text()[i] == '.',
    ensures
        e.text()[j] != '.',
{
    assert(!is_digit_char('.'));
    match e.fp {
        None => {
            assert(is_digit_char(e.text()[i]));
        },
        Some(f) => {
            assert(i == e.ip.len());
            assert(e.text()[j] == f[j - e.ip.len() - 1]);
            assert(is_digit_char(e.text()[j]));
        },
    }
}

/// Reading the rendered digits of a nonnegative integer value back as an
/// operand yields the same value: the display/entry round trip for results
/// with a terminating (here: integer) rendering.
pub proof fn lemma_render_roundtrip_int(v: Number)
    requires
        v.wf(),
        v.den == 1,
        v.num >= 0,
    ensures
        digits_val(crate::engine::render_mag(v, crate::engine::RENDER_FRAC as nat)) == v.num,
{
    let un = crate::number::sabs(v.num as int);
    vstd::arithmetic::div_mod::lemma_fundamental_div_mod(un as int, 1);
    vstd::arithmetic::div_mod::lemma_mod_division_less_than_divisor(un as int, 1);
    assert(un % 1 == 0);
    assert(un / 1 == un);
    assert(crate::text::frac_digits(0, 1, crate::engine::RENDER_FRAC as nat) =~= Seq::<
        char,
    >::empty());
    assert(crate::engine::render_mag(v, crate::engine::RENDER_FRAC as nat) == nat_digits(un));
    lemma_digits_roundtrip(un);
}

} // verus!
