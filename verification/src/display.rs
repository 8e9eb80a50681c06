use vstd::prelude::*;
use crate::text::{append_chars, append_fill, append_range, nat_digits, push_nat_digits};

verus! {

/// `k` spaces.
pub open spec fn spaces(k: nat) -> Seq<char> {
    Seq::new(k, |i: int| ' ')
}

/// The sign prefix of a rendered value.
pub open spec fn sign_seq(neg: bool) -> Seq<char> {
    if neg {
        seq!['-']
    } else {
        Seq::empty()
    }
}

/// Scientific-notation fallback for a value whose integer digits `ip` alone
/// exceed the width: `d.dd..En`, right-aligned; a run of `#` when not even
/// that fits.
pub open spec fn sci_spec(neg: bool, ip: Seq<char>, w: nat) -> Seq<char>
    recommends
        ip.len() >= 1,
{
    let sgn: nat = if neg {
        1
    } else {
        0
    };
    let ed = nat_digits((ip.len() - 1) as nat);
    if sgn + 2 + ed.len() > w {
        Seq::new(w, |i: int| '#')
    } else {
        let budget = (w - sgn - 1 - ed.len()) as nat;
        let extra: nat = if budget >= 3 {
            if budget - 2 <= ip.len() - 1 {
                (budget - 2) as nat
            } else {
                (ip.len() - 1) as nat
            }
        } else {
            0
        };
        let mant = if extra >= 1 {
            seq![ip[0], '.'] + ip.subrange(1, 1 + extra as int)
        } else {
            seq![ip[0]]
        };
        let body = sign_seq(neg) + mant + seq!['E'] + ed;
        spaces((w - body.len()) as nat) + body
    }
}

/// A value laid out in a fixed width: sign, integer digits `ip`, then the
/// fraction digits `fp` (`dot` forces the decimal point even when `fp` is
/// empty, for an operand mid-entry such as `3.`). Right-aligned and padded
/// with spaces; the fraction is cut to fit; scientific notation when the
/// integer part alone is too wide.
pub open spec fn sized_spec(neg: bool, ip: Seq<char>, dot: bool, fp: Seq<char>, w: nat) -> Seq<
    char,
>
    recommends
        ip.len() >= 1,
{
    let sgn: nat = if neg {
        1
    } else {
        0
    };
    let dotn: nat = if dot || fp.len() > 0 {
        1
    } else {
        0
    };
    let full = sgn + ip.len() + dotn + fp.len();
    if full <= w {
        spaces((w - full) as nat) + sign_seq(neg) + ip + (if dotn == 1 {
            seq!['.']
        } else {
            Seq::empty()
        }) + fp
    } else if sgn + ip.len() <= w {
        let room = (w - sgn - ip.len()) as nat;
        if room >= 2 {
            sign_seq(neg) + ip + seq!['.'] + fp.subrange(0, (room - 1) as int)
        } else {
            spaces(room) + sign_seq(neg) + ip
        }
    } else {
        sci_spec(neg, ip, w)
    }
}

fn append_sign(out: &mut Vec<char>, neg: bool)
    ensures
        final(out)@ == old(out)@ + sign_seq(neg),
{
    if neg {
        out.push('-');
        assert(out@ =~= old(out)@ + sign_seq(true));
    } else {
        assert(out@ =~= old(out)@ + sign_seq(false));
    }
}

proof fn lemma_nat_digits_len2(n: nat)
    requires
        n < 100,
    ensures
        1 <= nat_digits(n).len() <= 2,
{
    if n < 10 {
        assert(nat_digits(n) == seq![crate::text::digit_char(n)]);
    } else {
        assert(n / 10 < 10);
        assert(nat_digits(n / 10) == seq![crate::text::digit_char(n / 10)]);
        assert(nat_digits(n) == nat_digits(n / 10).push(crate::text::digit_char(n % 10)));
    }
}

/// Lays out one value as `sized_spec` describes.
#[verifier::rlimit(60)]
pub fn render_sized(neg: bool, ip: &Vec<char>, dot: bool, fp: &Vec<char>, w: usize) -> (r: Vec<
    char,
>)
    requires
        1 <= ip@.len() <= 64,
        fp@.len() <= 64,
    ensures
        r@ == sized_spec(neg, ip@, dot, fp@, w as nat),
{
    let sgn: usize = if neg {
        1
    } else {
        0
    };
    let dotn: usize = if dot || fp.len() > 0 {
        1
    } else {
        0
    };
    let full: usize = sgn + ip.len() + dotn + fp.len();
    let mut out: Vec<char> = Vec::new();
    if full <= w {
        append_fill(&mut out, ' ', w - full);
        append_sign(&mut out, neg);
        append_chars(&mut out, ip);
        if dotn == 1 {
            out.push('.');
        }
        append_chars(&mut out, fp);
        assert(out@ =~= sized_spec(neg, ip@, dot, fp@, w as nat));
        out
    } else if sgn + ip.len() <= w {
        let room = w - sgn - ip.len();
        if room >= 2 {
            append_sign(&mut out, neg);
            append_chars(&mut out, ip);
            out.push('.');
            append_range(&mut out, fp, 0, room - 1);
            assert(out@ =~= sized_spec(neg, ip@, dot, fp@, w as nat));
            out
        } else {
            append_fill(&mut out, ' ', room);
            append_sign(&mut out, neg);
            append_chars(&mut out, ip);
            assert(out@ =~= sized_spec(neg, ip@, dot, fp@, w as nat));
            out
        }
    } else {
        let mut ed: Vec<char> = Vec::new();
        push_nat_digits(&mut ed, (ip.len() - 1) as u128);
        assert(ed@ == nat_digits((ip@.len() - 1) as nat));
        proof {
            lemma_nat_digits_len2((ip@.len() - 1) as nat);
        }
        if sgn + 2 + ed.len() > w {
            append_fill(&mut out, '#', w);
            assert(out@ =~= sized_spec(neg, ip@, dot, fp@, w as nat));
            out
        } else {
            let budget = w - sgn - 1 - ed.len();
            let extra: usize = if budget >= 3 {
                if budget - 2 <= ip.len() - 1 {
                    budget - 2
                } else {
                    ip.len() - 1
                }
            } else {
                0
            };
            let mut body: Vec<char> = Vec::new();
            append_sign(&mut body, neg);
            body.push(ip[0]);
            if extra >= 1 {
                body.push('.');
                append_range(&mut body, ip, 1, 1 + extra);
            }
            body.push('E');
            append_chars(&mut body, &ed);
            assert(body@.len() <= w);
            append_fill(&mut out, ' ', w - body.len());
            append_chars(&mut out, &body);
            assert(out@ =~= sized_spec(neg, ip@, dot, fp@, w as nat));
            out
        }
    }
}

} // verus!
