use vstd::prelude::*;
use crate::number::Number;
use crate::text::{char_digit, digits_val, is_digit_char, lemma_digits_val_bound, lemma_pow10_18,
    lemma_pow10_mono, pow10, pow10_u64};
use crate::token::{chars_of, eq_chars, func_name, CalcError, Func};

verus! {

/// The text the calculator crate displays for a session of exactly one
/// decimal operand followed by the square-root key. Everything on that path
/// is exactly specified: decimal parsing is correctly rounded, `f64::sqrt`
/// is IEEE 754 correctly rounded, and the shortest-roundtrip display is
/// deterministic, so for this session shape alone the keys determine the
/// text and it can be given a name. The other real-valued keys go through
/// operations std documents with unspecified precision, so no name is given
/// to their results, nor to any session that computes through them first.
pub uninterp spec fn sqrt_display_of(keys: Seq<Seq<char>>) -> Seq<char>;

/// The one session shape whose display is exactly determined: a single
/// plain decimal operand, then the square-root key.
pub open spec fn sqrt_session(keys: Seq<Seq<char>>) -> bool {
    &&& keys.len() == 2
    &&& is_operand_key(keys[0])
    &&& keys.last() == func_name(Func::Sqrt)
}

/// A key unit the wrapper may push: a plain decimal operand or a
/// unary-function name. For these the crate's processor never aborts: an
/// unknown name is reported as an error value.
pub open spec fn valid_calc_key(k: Seq<char>) -> bool {
    k.len() >= 1 && (is_operand_key(k) || is_name_key(k))
}

pub open spec fn is_operand_key(k: Seq<char>) -> bool {
    forall|i: int| 0 <= i < k.len() ==> (is_digit_char(#[trigger] k[i]) || k[i] == '.')
}

pub open spec fn is_name_key(k: Seq<char>) -> bool {
    forall|i: int| 0 <= i < k.len() ==> ('a' <= #[trigger] k[i] <= 'z' || is_digit_char(k[i]))
}

/// Relies on rusty_dumb_tools' `DumbCalcProcessor`: `push` takes a decimal
/// operand or a unary-function name, `evaluate` applies what is pending, and
/// the result's display is returned (the trig keys follow the crate's
/// default degree mode). Only the operand-then-square-root session has its
/// text pinned: there the crate computes through decimal parsing and
/// `f64::sqrt`, both exactly specified by std; every other session reaches
/// operations of unspecified precision, so nothing is promised of its text.
#[verifier::external_body]
fn calc_eval_keys(keys: &Vec<Vec<char>>) -> (r: String)
    requires
        forall|i: int| 0 <= i < keys@.len() ==> valid_calc_key(#[trigger] keys@[i]@),
    ensures
        sqrt_session(keys.deep_view()) ==> r@ == sqrt_display_of(keys.deep_view()),
{
    let mut c = rusty_dumb_tools::calc::DumbCalcProcessor::new();
    for k in keys.iter() {
        let s: String = k.iter().collect();
        let _ = c.push(s.as_str());
    }
    c.evaluate();
    c.get_result().to_string()
}

/// Index of the first `.` in `u`, or `u.len()` when there is none.
pub open spec fn dot_pos(u: Seq<char>) -> nat
    decreases u.len(),
{
    if u.len() == 0 {
        0
    } else if u[0] == '.' {
        0
    } else {
        1 + dot_pos(u.drop_first())
    }
}

pub proof fn lemma_dot_pos_at(u: Seq<char>, i: nat)
    requires
        i <= u.len(),
        forall|j: int| 0 <= j < i ==> u[j] != '.',
        i < u.len() ==> u[i as int] == '.',
    ensures
        dot_pos(u) == i,
    decreases i,
{
    if u.len() == 0 {
    } else if i == 0 {
    } else {
        lemma_dot_pos_at(u.drop_first(), (i - 1) as nat);
    }
}

pub open spec fn is_digit_seq(s: Seq<char>) -> bool {
    forall|i: int| 0 <= i < s.len() ==> is_digit_char(s[i])
}

/// Leading zeros removed.
pub open spec fn trim_lead_zeros(s: Seq<char>) -> Seq<char>
    decreases s.len(),
{
    if s.len() > 0 && s[0] == '0' {
        trim_lead_zeros(s.drop_first())
    } else {
        s
    }
}

pub proof fn lemma_trim_lead_at(s: Seq<char>, k: nat)
    requires
        k <= s.len(),
        forall|j: int| 0 <= j < k ==> s[j] == '0',
        k < s.len() ==> s[k as int] != '0',
    ensures
        trim_lead_zeros(s) =~= s.skip(k as int),
    decreases k,
{
    if k == 0 {
    } else {
        lemma_trim_lead_at(s.drop_first(), (k - 1) as nat);
        assert(s.drop_first().skip((k - 1) as int) =~= s.skip(k as int));
    }
}

/// Trailing zeros removed.
pub open spec fn trim_trail_zeros(s: Seq<char>) -> Seq<char>
    decreases s.len(),
{
    if s.len() > 0 && s.last() == '0' {
        trim_trail_zeros(s.drop_last())
    } else {
        s
    }
}

pub proof fn lemma_trim_trail_at(s: Seq<char>, k: nat)
    requires
        k <= s.len(),
        forall|j: int| k <= j < s.len() ==> s[j] == '0',
        k > 0 ==> s[k - 1] != '0',
    ensures
        trim_trail_zeros(s) =~= s.take(k as int),
    decreases s.len(),
{
    if k == s.len() {
        if s.len() > 0 {
            assert(s.last() != '0');
        }
        assert(s.take(s.len() as int) =~= s);
    } else {
        assert(s.last() == '0');
        lemma_trim_trail_at(s.drop_last(), k);
        assert(s.drop_last().take(k as int) =~= s.take(k as int));
    }
}

/// The plain-number shape the crate's display uses: digits, then optionally
/// a point and more digits.
pub open spec fn plain_shape(u: Seq<char>) -> bool {
    let p = dot_pos(u);
    &&& 1 <= p
    &&& is_digit_seq(u.take(p as int))
    &&& (p == u.len() || (p + 1 < u.len() && is_digit_seq(u.skip(p as int + 1))))
}

pub open spec fn error_infinity_text() -> Seq<char> {
    seq![
        'E', 'r', 'r', 'o', 'r', ':', ' ', 'r', 'e', 's', 'u', 'l', 't', ' ', 'i', 's', ' ',
        'i', 'n', 'f', 'i', 'n', 'i', 't', 'y',
    ]
}

/// The number the crate's displayed text denotes: `Ok` exactly when the text
/// is a plain decimal whose significant digits fit the engine's rationals;
/// an infinite result reports overflow and any other error text a domain
/// error.
pub open spec fn parse_display(s: Seq<char>) -> Result<Number, CalcError> {
    let neg = s.len() > 0 && s[0] == '-';
    let u = if neg {
        s.drop_first()
    } else {
        s
    };
    if plain_shape(u) {
        let p = dot_pos(u);
        let ipt = trim_lead_zeros(u.take(p as int));
        let fpd = if p == u.len() {
            Seq::<char>::empty()
        } else {
            u.skip(p as int + 1)
        };
        let fpt = trim_trail_zeros(fpd);
        if ipt.len() + fpt.len() <= 18 {
            let m = digits_val(ipt + fpt);
            Ok(
                Number {
                    num: if neg {
                        (-(m as int)) as i64
                    } else {
                        m as i64
                    },
                    den: pow10(fpt.len()) as i64,
                },
            )
        } else {
            Err(CalcError::OverflowError)
        }
    } else if s == error_infinity_text() {
        Err(CalcError::OverflowError)
    } else {
        Err(CalcError::DomainError)
    }
}

pub proof fn lemma_parse_display_wf(s: Seq<char>)
    ensures
        parse_display(s) matches Ok(v) ==> v.wf(),
{
    if parse_display(s) matches Ok(v) {
        let neg = s.len() > 0 && s[0] == '-';
        let u = if neg {
            s.drop_first()
        } else {
            s
        };
        let p = dot_pos(u);
        let fpd = if p == u.len() {
            Seq::<char>::empty()
        } else {
            u.skip(p as int + 1)
        };
        let fpt = trim_trail_zeros(fpd);
        lemma_pow10_mono(fpt.len(), 18);
        lemma_pow10_18();
    }
}

fn all_digits(u: &Vec<char>, from: usize, to: usize) -> (r: bool)
    requires
        from <= to <= u@.len(),
    ensures
        r == is_digit_seq(u@.subrange(from as int, to as int)),
{
    let mut i: usize = from;
    while i < to
        invariant
            from <= i <= to <= u@.len(),
            forall|j: int| from <= j < i ==> is_digit_char(u@[j]),
        decreases to - i,
    {
        let c = u[i];
        let d = c == '0' || c == '1' || c == '2' || c == '3' || c == '4' || c == '5' || c == '6'
            || c == '7' || c == '8' || c == '9';
        if !d {
            assert(!is_digit_char(u@.subrange(from as int, to as int)[i - from]));
            return false;
        }
        i = i + 1;
    }
    assert(forall|j: int| 0 <= j < to - from ==> is_digit_char(
        #[trigger] u@.subrange(from as int, to as int)[j],
    ));
    true
}

/// Accumulates the decimal value of two digit ranges of `u`, read in order.
fn digits_value(u: &Vec<char>, a1: usize, b1: usize, a2: usize, b2: usize) -> (m: u64)
    requires
        a1 <= b1 <= u@.len(),
        a2 <= b2 <= u@.len(),
        u@.subrange(a1 as int, b1 as int).len() + u@.subrange(a2 as int, b2 as int).len() <= 18,
    ensures
        m as nat == digits_val(
            u@.subrange(a1 as int, b1 as int) + u@.subrange(a2 as int, b2 as int),
        ),
        m < 1000000000000000000,
{
    let ghost s = u@.subrange(a1 as int, b1 as int) + u@.subrange(a2 as int, b2 as int);
    let n1 = b1 - a1;
    let mut acc: u64 = 0;
    let mut i: usize = 0;
    let total = n1 + (b2 - a2);
    while i < total
        invariant
            i <= total,
            total == s.len() <= 18,
            n1 == b1 - a1,
            a1 <= b1 <= u@.len(),
            a2 <= b2 <= u@.len(),
            s == u@.subrange(a1 as int, b1 as int) + u@.subrange(a2 as int, b2 as int),
            acc as nat == digits_val(s.take(i as int)),
            acc < 1000000000000000000,
        decreases total - i,
    {
        let c = if i < n1 {
            u[a1 + i]
        } else {
            u[a2 + (i - n1)]
        };
        assert(c == s[i as int]);
        let d: u64 = if c == '0' {
            0
        } else if c == '1' {
            1
        } else if c == '2' {
            2
        } else if c == '3' {
            3
        } else if c == '4' {
            4
        } else if c == '5' {
            5
        } else if c == '6' {
            6
        } else if c == '7' {
            7
        } else if c == '8' {
            8
        } else {
            9
        };
        assert(d as nat == char_digit(c));
        proof {
            lemma_digits_val_bound(s.take(i as int));
            lemma_pow10_mono(s.take(i as int).len(), 17);
            lemma_pow10_18();
            assert(pow10(18) == 10 * pow10(17));
            assert(s.take(i + 1).drop_last() =~= s.take(i as int));
            assert(s.take(i + 1).last() == s[i as int]);
        }
        acc = acc * 10 + d;
        proof {
            lemma_digits_val_bound(s.take(i + 1));
            lemma_pow10_mono(s.take(i + 1).len(), 18);
        }
        i = i + 1;
    }
    proof {
        assert(s.take(total as int) =~= s);
    }
    acc
}


fn scan_lead_zeros(s: &Vec<char>, off: usize, p: usize) -> (a: usize)
    requires
        off + p <= s@.len(),
        s@.len() <= usize::MAX,
    ensures
        a <= p,
        forall|j: int| off <= j < off + a ==> s@[j] == '0',
        a < p ==> s@[(off + a) as int] != '0',
{
    let mut a: usize = 0;
    while a < p && s[off + a] == '0'
        invariant
            a <= p,
            off + p <= s@.len(),
            s@.len() <= usize::MAX,
            forall|j: int| off <= j < off + a ==> s@[j] == '0',
        decreases p - a,
    {
        a = a + 1;
    }
    a
}

fn scan_trail_zeros(s: &Vec<char>, fstart: usize, fend0: usize) -> (fend: usize)
    requires
        fstart <= fend0 <= s@.len(),
    ensures
        fstart <= fend <= fend0,
        forall|j: int| fend <= j < fend0 ==> s@[j] == '0',
        fend > fstart ==> s@[(fend - 1) as int] != '0',
{
    let mut fend: usize = fend0;
    while fend > fstart && s[fend - 1] == '0'
        invariant
            fstart <= fend <= fend0 <= s@.len(),
            forall|j: int| fend <= j < fend0 ==> s@[j] == '0',
        decreases fend,
    {
        fend = fend - 1;
    }
    fend
}

/// Reads the calculator crate's displayed text back as an engine value.
#[verifier::rlimit(80)]
pub fn parse_display_exec(s: &Vec<char>) -> (r: Result<Number, CalcError>)
    ensures
        r == parse_display(s@),
{
    let neg = s.len() > 0 && s[0] == '-';
    let off: usize = if neg {
        1
    } else {
        0
    };
    let ghost u = if neg {
        s@.drop_first()
    } else {
        s@
    };
    proof {
        assert(u =~= s@.subrange(off as int, s@.len() as int));
    }
    let ulen = s.len() - off;
    // find the dot within u
    let mut p: usize = 0;
    while p < ulen && s[off + p] != '.'
        invariant
            p <= ulen,
            off + ulen == s@.len(),
            off <= 1,
            u =~= s@.subrange(off as int, s@.len() as int),
            forall|j: int| 0 <= j < p ==> u[j] != '.',
        decreases ulen - p,
    {
        assert(u[p as int] != '.');
        p = p + 1;
    }
    proof {
        if p < ulen {
            assert(u[p as int] == '.');
        }
        lemma_dot_pos_at(u, p as nat);
    }
    // shape check
    let ip_ok = if p < 1 {
        false
    } else {
        all_digits(s, off, off + p)
    };
    let fp_ok = if p == ulen {
        true
    } else if p + 1 < ulen {
        all_digits(s, off + p + 1, off + ulen)
    } else {
        false
    };
    proof {
        assert(u.take(p as int) =~= s@.subrange(off as int, (off + p) as int));
        if p < ulen {
            assert(u.skip(p as int + 1) =~= s@.subrange(
                (off + p + 1) as int,
                (off + ulen) as int,
            ));
        }
    }
    if ip_ok && fp_ok {
        // trim leading zeros of the integer digits
        let a = scan_lead_zeros(s, off, p);
        // trim trailing zeros of the fraction digits
        let fstart: usize = if p == ulen {
            0
        } else {
            off + p + 1
        };
        let fend0: usize = if p == ulen {
            0
        } else {
            off + ulen
        };
        let fend = scan_trail_zeros(s, fstart, fend0);
        let ghost ipd = u.take(p as int);
        let ghost fpd = if p == ulen {
            Seq::<char>::empty()
        } else {
            u.skip(p as int + 1)
        };
        let ghost ipt = trim_lead_zeros(ipd);
        let ghost fpt = trim_trail_zeros(fpd);
        proof {
            assert(ipd =~= s@.subrange(off as int, (off + p) as int));
            assert(forall|j: int| 0 <= j < a ==> #[trigger] ipd[j] == '0');
            if a < p {
                assert(ipd[a as int] != '0');
            }
            lemma_trim_lead_at(ipd, a as nat);
            assert(ipt =~= s@.subrange((off + a) as int, (off + p) as int));
            if p == ulen {
                lemma_trim_trail_at(fpd, 0);
                assert(fpt =~= s@.subrange(fstart as int, fend as int));
            } else {
                assert(fpd =~= s@.subrange(fstart as int, fend0 as int));
                assert(forall|j: int| fend - fstart <= j < fpd.len() ==> #[trigger] fpd[j] == '0');
                if fend > fstart {
                    assert(fpd[(fend - fstart - 1) as int] != '0');
                }
                lemma_trim_trail_at(fpd, (fend - fstart) as nat);
                assert(fpd.take((fend - fstart) as int) =~= s@.subrange(
                    fstart as int,
                    fend as int,
                ));
            }
        }
        let ni = p - a;
        let nf = fend - fstart;
        if ni + nf <= 18 {
            let m = digits_value(s, off + a, off + p, fstart, fend);
            let den = pow10_u64(nf as u64);
            proof {
                lemma_pow10_mono(nf as nat, 18);
                lemma_pow10_18();
                assert(ipt + fpt =~= s@.subrange((off + a) as int, (off + p) as int)
                    + s@.subrange(fstart as int, fend as int));
            }
            let num: i64 = if neg {
                -(m as i64)
            } else {
                m as i64
            };
            Ok(Number { num, den: den as i64 })
        } else {
            Err(CalcError::OverflowError)
        }
    } else {
        let w: Vec<char> = vec![
            'E', 'r', 'r', 'o', 'r', ':', ' ', 'r', 'e', 's', 'u', 'l', 't', ' ', 'i', 's', ' ',
            'i', 'n', 'f', 'i', 'n', 'i', 't', 'y',
        ];
        proof {
            assert(w@ =~= error_infinity_text());
        }
        if eq_chars(s, &w) {
            Err(CalcError::OverflowError)
        } else {
            Err(CalcError::DomainError)
        }
    }
}

/// Evaluates one unary key sequence through the calculator crate and reads
/// the result back. Whatever text came back, the result is its parse; for
/// the operand-then-square-root session the text itself is pinned, so the
/// result is exact relative to the named display.
pub fn calc_unary(keys: Vec<Vec<char>>) -> (r: Result<Number, CalcError>)
    requires
        forall|i: int| 0 <= i < keys@.len() ==> valid_calc_key(#[trigger] keys@[i]@),
    ensures
        exists|disp: Seq<char>| r == #[trigger] parse_display(disp),
        sqrt_session(keys.deep_view()) ==> r == parse_display(sqrt_display_of(keys.deep_view())),
        r matches Ok(v) ==> v.wf(),
{
    let out = calc_eval_keys(&keys);
    let cv = chars_of(out.as_str());
    proof {
        lemma_parse_display_wf(cv@);
    }
    let r = parse_display_exec(&cv);
    proof {
        assert(r == parse_display(cv@));
    }
    r
}

} // verus!
