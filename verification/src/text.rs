use vstd::prelude::*;
use vstd::arithmetic::div_mod::{
    lemma_fundamental_div_mod, lemma_mod_division_less_than_divisor,
};

verus! {

pub open spec fn digit_char(d: nat) -> char {
    if d == 0 {
        '0'
    } else if d == 1 {
        '1'
    } else if d == 2 {
        '2'
    } else if d == 3 {
        '3'
    } else if d == 4 {
        '4'
    } else if d == 5 {
        '5'
    } else if d == 6 {
        '6'
    } else if d == 7 {
        '7'
    } else if d == 8 {
        '8'
    } else {
        '9'
    }
}

pub open spec fn char_digit(c: char) -> nat {
    if c == '0' {
        0
    } else if c == '1' {
        1
    } else if c == '2' {
        2
    } else if c == '3' {
        3
    } else if c == '4' {
        4
    } else if c == '5' {
        5
    } else if c == '6' {
        6
    } else if c == '7' {
        7
    } else if c == '8' {
        8
    } else {
        9
    }
}

pub open spec fn is_digit_char(c: char) -> bool {
    c == '0' || c == '1' || c == '2' || c == '3' || c == '4' || c == '5' || c == '6' || c == '7'
        || c == '8' || c == '9'
}

pub fn digit_to_char(d: u8) -> (c: char)
    requires
        d < 10,
    ensures
        c == digit_char(d as nat),
{
    if d == 0 {
        '0'
    } else if d == 1 {
        '1'
    } else if d == 2 {
        '2'
    } else if d == 3 {
        '3'
    } else if d == 4 {
        '4'
    } else if d == 5 {
        '5'
    } else if d == 6 {
        '6'
    } else if d == 7 {
        '7'
    } else if d == 8 {
        '8'
    } else {
        '9'
    }
}

/// The decimal digit characters of `n`, most significant first.
pub open spec fn nat_digits(n: nat) -> Seq<char>
    decreases n,
{
    if n < 10 {
        seq![digit_char(n)]
    } else {
        nat_digits(n / 10).push(digit_char(n % 10))
    }
}

/// Appends the decimal digits of `n` to `out`.
pub fn push_nat_digits(out: &mut Vec<char>, n: u128)
    ensures
        final(out)@ == old(out)@ + nat_digits(n as nat),
    decreases n,
{
    if n < 10 {
        out.push(digit_to_char(n as u8));
        assert(out@ =~= old(out)@ + nat_digits(n as nat));
    } else {
        push_nat_digits(out, n / 10);
        out.push(digit_to_char((n % 10) as u8));
        assert(out@ =~= old(out)@ + nat_digits(n as nat));
    }
}

/// The first `k` digits of the decimal expansion of `rem / den`, stopping
/// early when the expansion terminates.
pub open spec fn frac_digits(rem: nat, den: nat, k: nat) -> Seq<char>
    recommends
        1 <= den,
        rem < den,
    decreases k,
{
    if k == 0 || rem == 0 {
        Seq::empty()
    } else {
        seq![digit_char(rem * 10 / den)] + frac_digits(rem * 10 % den, den, (k - 1) as nat)
    }
}

/// Appends the first `k` fraction digits of `rem / den` to `out`.
pub fn push_frac_digits(out: &mut Vec<char>, rem: u64, den: u64, k: u64)
    requires
        1 <= den,
        rem < den,
    ensures
        final(out)@ == old(out)@ + frac_digits(rem as nat, den as nat, k as nat),
    decreases k,
{
    if k == 0 || rem == 0 {
        assert(out@ =~= old(out)@ + frac_digits(rem as nat, den as nat, k as nat));
        return ;
    }
    let p: u128 = (rem as u128) * 10;
    let d: u128 = p / (den as u128);
    let r2: u128 = p % (den as u128);
    proof {
        lemma_fundamental_div_mod(p as int, den as int);
        lemma_mod_division_less_than_divisor(p as int, den as int);
        assert(d <= 9) by (nonlinear_arith)
            requires
                p as int == den as int * d as int + r2 as int,
                0 <= r2 as int,
                p as int == rem as int * 10,
                rem < den,
                den >= 1,
                d >= 0,
        {}
    }
    out.push(digit_to_char(d as u8));
    push_frac_digits(out, r2 as u64, den, k - 1);
    assert(out@ =~= old(out)@ + frac_digits(rem as nat, den as nat, k as nat));
}

pub open spec fn pow10(k: nat) -> nat
    decreases k,
{
    if k == 0 {
        1
    } else {
        10 * pow10((k - 1) as nat)
    }
}

pub proof fn lemma_pow10_mono(i: nat, j: nat)
    requires
        i <= j,
    ensures
        1 <= pow10(i) <= pow10(j),
    decreases j,
{
    if j == 0 {
    } else if i == j {
        lemma_pow10_mono(0, (j - 1) as nat);
    } else {
        lemma_pow10_mono(i, (j - 1) as nat);
    }
}

pub proof fn lemma_pow10_18()
    ensures
        pow10(18) == 1000000000000000000,
{
    assert(pow10(0) == 1);
    assert(pow10(1) == 10);
    assert(pow10(2) == 100);
    assert(pow10(3) == 1000);
    assert(pow10(4) == 10000);
    assert(pow10(5) == 100000);
    assert(pow10(6) == 1000000);
    assert(pow10(7) == 10000000);
    assert(pow10(8) == 100000000);
    assert(pow10(9) == 1000000000);
    assert(pow10(10) == 10000000000);
    assert(pow10(11) == 100000000000);
    assert(pow10(12) == 1000000000000);
    assert(pow10(13) == 10000000000000);
    assert(pow10(14) == 100000000000000);
    assert(pow10(15) == 1000000000000000);
    assert(pow10(16) == 10000000000000000);
    assert(pow10(17) == 100000000000000000);
    assert(pow10(18) == 1000000000000000000);
}

pub fn pow10_u64(k: u64) -> (r: u64)
    requires
        k <= 18,
    ensures
        r as nat == pow10(k as nat),
{
    let mut r: u64 = 1;
    let mut i: u64 = 0;
    while i < k
        invariant
            i <= k <= 18,
            r as nat == pow10(i as nat),
        decreases k - i,
    {
        proof {
            lemma_pow10_mono((i + 1) as nat, 18);
            lemma_pow10_18();
            assert(pow10((i + 1) as nat) == 10 * pow10(i as nat));
        }
        r = r * 10;
        i = i + 1;
    }
    r
}

/// The value of a digit string read as a decimal numeral.
pub open spec fn digits_val(s: Seq<char>) -> nat
    decreases s.len(),
{
    if s.len() == 0 {
        0
    } else {
        digits_val(s.drop_last()) * 10 + char_digit(s.last())
    }
}

pub proof fn lemma_digits_val_bound(s: Seq<char>)
    ensures
        digits_val(s) < pow10(s.len()),
    decreases s.len(),
{
    if s.len() == 0 {
    } else {
        lemma_digits_val_bound(s.drop_last());
        assert(char_digit(s.last()) <= 9);
        assert(pow10(s.len()) == 10 * pow10((s.len() - 1) as nat));
    }
}

/// Reading back the rendered digits of `n` yields `n` again: the heart of
/// the round-trip between the display and the operand builder.
pub proof fn lemma_digits_roundtrip(n: nat)
    ensures
        digits_val(nat_digits(n)) == n,
    decreases n,
{
    if n < 10 {
        assert(char_digit(digit_char(n)) == n);
        assert(nat_digits(n) =~= seq![digit_char(n)]);
        assert(seq![digit_char(n)].drop_last() =~= Seq::<char>::empty());
        assert(seq![digit_char(n)].last() == digit_char(n));
        assert(digits_val(Seq::<char>::empty()) == 0);
        assert(digits_val(seq![digit_char(n)]) == digits_val(seq![digit_char(n)].drop_last()) * 10
            + char_digit(seq![digit_char(n)].last()));
    } else {
        lemma_digits_roundtrip(n / 10);
        let s = nat_digits(n / 10);
        let c = digit_char(n % 10);
        assert(s.push(c).drop_last() =~= s);
        assert(s.push(c).last() == c);
        assert(char_digit(c) == n % 10);
        lemma_fundamental_div_mod(n as int, 10);
    }
}

/// Relies on std's `String: FromIterator<char>`: collecting characters
/// yields the string of exactly those characters.
#[verifier::external_body]
pub fn chars_to_string(v: &Vec<char>) -> (s: String)
    ensures
        s@ == v@,
{
    v.iter().collect()
}

/// Appends all of `src` to `dst`.
pub fn append_chars(dst: &mut Vec<char>, src: &Vec<char>)
    ensures
        final(dst)@ == old(dst)@ + src@,
{
    let mut i: usize = 0;
    while i < src.len()
        invariant
            i <= src.len(),
            dst@ == old(dst)@ + src@.take(i as int),
        decreases src.len() - i,
    {
        dst.push(src[i]);
        assert(dst@ =~= old(dst)@ + src@.take(i + 1));
        i = i + 1;
    }
    assert(src@.take(src@.len() as int) =~= src@);
}

/// Appends `from..to` of `src` to `dst`.
pub fn append_range(dst: &mut Vec<char>, src: &Vec<char>, from: usize, to: usize)
    requires
        from <= to <= src.len(),
    ensures
        final(dst)@ == old(dst)@ + src@.subrange(from as int, to as int),
{
    let mut i: usize = from;
    while i < to
        invariant
            from <= i <= to <= src.len(),
            dst@ == old(dst)@ + src@.subrange(from as int, i as int),
        decreases to - i,
    {
        dst.push(src[i]);
        assert(dst@ =~= old(dst)@ + src@.subrange(from as int, i + 1));
        i = i + 1;
    }
}

/// Appends `k` copies of `c` to `dst`.
pub fn append_fill(dst: &mut Vec<char>, c: char, k: usize)
    ensures
        final(dst)@ == old(dst)@ + Seq::new(k as nat, |i: int| c),
{
    let mut i: usize = 0;
    while i < k
        invariant
            i <= k,
            dst@ == old(dst)@ + Seq::new(i as nat, |j: int| c),
        decreases k - i,
    {
        dst.push(c);
        assert(dst@ =~= old(dst)@ + Seq::new((i + 1) as nat, |j: int| c));
        i = i + 1;
    }
}

} // verus!
