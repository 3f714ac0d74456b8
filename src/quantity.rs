use vstd::prelude::*;
use crate::text::{
    slice_of,
    decimal, digit_char, digit_of, digit_value, digits_value, is_digit, push_decimal, chars_of,
    string_of,
};

verus! {

/// How the source text wrote an amount; formatting follows it where it can.
#[derive(PartialEq, Eq, Structural, Clone, Copy, Debug)]
pub enum Hint {
    /// `3`
    Whole,
    /// `1.25`
    Decimal,
    /// `1/2`
    Fraction,
    /// `1 1/2`
    Mixed,
}

/// An exact non-negative rational amount `num / den`, with a display hint.
#[derive(PartialEq, Eq, Structural, Clone, Copy, Debug)]
pub struct Quantity {
    pub num: u64,
    pub den: u64,
    pub hint: Hint,
}

/// Why a scaling was refused.
#[derive(PartialEq, Eq, Structural, Clone, Copy, Debug)]
pub enum ScaleError {
    /// The factor's numerator or denominator is zero.
    NotPositive,
    /// A scaled amount, in lowest terms, does not fit in 64 bits.
    TooLarge,
}

/// Longest digit run accepted in an amount; keeps every value within 64 bits.
pub const MAX_DIGITS: usize = 9;

impl Quantity {
    pub open spec fn wf(&self) -> bool {
        self.den > 0
    }

    /// `self` and `o` denote the same rational number.
    pub open spec fn same_value(&self, o: Quantity) -> bool {
        self.num * o.den == o.num * self.den
    }
}

/// Greatest common divisor, by Euclid's algorithm.
pub open spec fn gcd(a: nat, b: nat) -> nat
    decreases b,
{
    if b == 0 {
        a
    } else {
        gcd(b, a % b)
    }
}

pub proof fn lemma_gcd_divides(a: nat, b: nat)
    requires
        a > 0 || b > 0,
    ensures
        gcd(a, b) > 0,
        a % gcd(a, b) == 0,
        b % gcd(a, b) == 0,
    decreases b,
{
    if b == 0 {
        vstd::arithmetic::div_mod::lemma_mod_self_0(a as int);
    } else {
        let r = a % b;
        lemma_gcd_divides(b, r);
        let g = gcd(b, r);
        let q = a / b;
        vstd::arithmetic::div_mod::lemma_fundamental_div_mod(a as int, b as int);
        vstd::arithmetic::div_mod::lemma_fundamental_div_mod(b as int, g as int);
        vstd::arithmetic::div_mod::lemma_fundamental_div_mod(r as int, g as int);
        let k1 = b / g;
        let k2 = r / g;
        assert(a == g * (k1 * q + k2)) by (nonlinear_arith)
            requires
                a == b * q + r,
                b == g * k1,
                r == g * k2,
        ;
        vstd::arithmetic::div_mod::lemma_mod_multiples_basic((k1 * q + k2) as int, g as int);
        assert((k1 * q + k2) * g == g * (k1 * q + k2)) by (nonlinear_arith);
    }
}

/// Every common divisor of `a` and `b` divides their greatest common divisor.
pub proof fn lemma_common_divisor(a: nat, b: nat, c: nat)
    requires
        c > 0,
        a % c == 0,
        b % c == 0,
    ensures
        gcd(a, b) % c == 0,
    decreases b,
{
    if b > 0 {
        let r = a % b;
        vstd::arithmetic::div_mod::lemma_fundamental_div_mod(a as int, b as int);
        vstd::arithmetic::div_mod::lemma_fundamental_div_mod(a as int, c as int);
        vstd::arithmetic::div_mod::lemma_fundamental_div_mod(b as int, c as int);
        let s = a / c;
        let t = b / c;
        let q = a / b;
        assert(r == c * (s - t * q)) by (nonlinear_arith)
            requires
                a == b * q + r,
                a == c * s,
                b == c * t,
        ;
        vstd::arithmetic::div_mod::lemma_mod_multiples_basic((s - t * q) as int, c as int);
        assert((s - t * q) * c == c * (s - t * q)) by (nonlinear_arith);
        lemma_common_divisor(b, r, c);
    }
}

/// `(a, b)` divided by their greatest common divisor.
pub open spec fn reduced(a: nat, b: nat) -> (nat, nat) {
    (a / gcd(a, b), b / gcd(a, b))
}

/// Divides `a` and `b` by their greatest common divisor.
pub fn reduce(a: u128, b: u128) -> (r: (u128, u128))
    requires
        b > 0,
    ensures
        (r.0 as nat, r.1 as nat) == reduced(a as nat, b as nat),
        r.1 > 0,
        r.0 * b == a * r.1,
        r.0 <= a,
        r.1 <= b,
{
    let mut x: u128 = a;
    let mut y: u128 = b;
    while y != 0
        invariant
            gcd(x as nat, y as nat) == gcd(a as nat, b as nat),
        decreases y,
    {
        let t = x % y;
        x = y;
        y = t;
    }
    proof {
        lemma_gcd_divides(a as nat, b as nat);
    }
    let g = x;
    let ra = a / g;
    let rb = b / g;
    proof {
        vstd::arithmetic::div_mod::lemma_fundamental_div_mod(a as int, g as int);
        vstd::arithmetic::div_mod::lemma_fundamental_div_mod(b as int, g as int);
        assert(ra * b == a * rb) by (nonlinear_arith)
            requires
                a == g * ra,
                b == g * rb,
        ;
        assert(rb > 0 && rb <= b && ra <= a) by (nonlinear_arith)
            requires
                a == g * ra,
                b == g * rb,
                b > 0,
                g > 0,
        ;
    }
    (ra, rb)
}

// ---------------------------------------------------------------------------
// The amount grammar.

/// Length of the run of digits that starts at `i`.
pub open spec fn run_len(s: Seq<char>, i: int) -> nat
    decreases s.len() - i,
{
    if 0 <= i < s.len() && is_digit(s[i]) {
        1 + run_len(s, i + 1)
    } else {
        0
    }
}

/// A number of one to `MAX_DIGITS` digits starts at `i`.
pub open spec fn number_at(s: Seq<char>, i: int) -> bool {
    1 <= run_len(s, i) <= MAX_DIGITS
}

/// Where the number at `i` ends.
pub open spec fn number_end(s: Seq<char>, i: int) -> int {
    i + run_len(s, i)
}

/// The value of the number at `i`.
pub open spec fn number_value(s: Seq<char>, i: int) -> nat {
    digits_value(s.subrange(i, number_end(s, i)))
}

pub open spec fn pow10(k: nat) -> nat
    decreases k,
{
    if k == 0 {
        1
    } else {
        10 * pow10((k - 1) as nat)
    }
}

/// `s[i] == c`, with `i` in range.
pub open spec fn char_at(s: Seq<char>, i: int, c: char) -> bool {
    0 <= i < s.len() && s[i] == c
}

/// A mixed fraction `A B/C` followed by a space: `(A*C + B, C, Mixed, length)`.
pub open spec fn mixed_amount(s: Seq<char>) -> Option<(nat, nat, Hint, nat)> {
    let a_end = number_end(s, 0);
    let b_end = number_end(s, a_end + 1);
    let c_end = number_end(s, b_end + 1);
    if number_at(s, 0) && char_at(s, a_end, ' ') && number_at(s, a_end + 1) && char_at(
        s,
        b_end,
        '/',
    ) && number_at(s, b_end + 1) && number_value(s, b_end + 1) > 0 && char_at(s, c_end, ' ') {
        let c = number_value(s, b_end + 1);
        Some((number_value(s, 0) * c + number_value(s, a_end + 1), c, Hint::Mixed, c_end as nat))
    } else {
        None
    }
}

/// A simple fraction `A/C` followed by a space.
pub open spec fn fraction_amount(s: Seq<char>) -> Option<(nat, nat, Hint, nat)> {
    let a_end = number_end(s, 0);
    let c_end = number_end(s, a_end + 1);
    if number_at(s, 0) && char_at(s, a_end, '/') && number_at(s, a_end + 1) && number_value(
        s,
        a_end + 1,
    ) > 0 && char_at(s, c_end, ' ') {
        Some((number_value(s, 0), number_value(s, a_end + 1), Hint::Fraction, c_end as nat))
    } else {
        None
    }
}

/// A whole number `A` or a decimal `A.F`, followed by a space.
pub open spec fn decimal_amount(s: Seq<char>) -> Option<(nat, nat, Hint, nat)> {
    let a_end = number_end(s, 0);
    if !number_at(s, 0) {
        None
    } else if char_at(s, a_end, '.') && number_at(s, a_end + 1) {
        let f = run_len(s, a_end + 1);
        let e = number_end(s, a_end + 1);
        if char_at(s, e, ' ') {
            Some((number_value(s, 0) * pow10(f) + number_value(s, a_end + 1), pow10(f), Hint::Decimal, e as nat))
        } else {
            None
        }
    } else if char_at(s, a_end, ' ') {
        Some((number_value(s, 0), 1, Hint::Whole, a_end as nat))
    } else {
        None
    }
}

/// The amount that `s` starts with, as `(numerator, denominator, hint, length)`
/// before reduction: the first of mixed fraction, simple fraction and decimal
/// that matches, and only where a space follows it.
#[verifier::opaque]
pub open spec fn amount_of(s: Seq<char>) -> Option<(nat, nat, Hint, nat)> {
    if mixed_amount(s) is Some {
        mixed_amount(s)
    } else if fraction_amount(s) is Some {
        fraction_amount(s)
    } else {
        decimal_amount(s)
    }
}

/// An amount's text is followed by a space.
pub proof fn lemma_amount_space(s: Seq<char>)
    ensures
        amount_of(s) matches Some((n, d, h, e)) ==> e < s.len() && s[e as int] == ' ',
{
    reveal(amount_of);
}

/// `q` is the amount `(n, d, h)` in lowest terms.
pub open spec fn quantity_of(q: Quantity, n: nat, d: nat, h: Hint) -> bool {
    (q.num as nat, q.den as nat) == reduced(n, d) && q.hint == h
}

proof fn lemma_digits_step(s: Seq<char>, i: int, j: int)
    requires
        0 <= i <= j < s.len(),
    ensures
        digits_value(s.subrange(i, j + 1)) == digits_value(s.subrange(i, j)) * 10 + digit_value(
            s[j],
        ),
{
    assert(s.subrange(i, j + 1).drop_last() =~= s.subrange(i, j));
}

proof fn lemma_pow10_9()
    ensures
        pow10(9) == 1000000000,
{
    reveal_with_fuel(pow10, 10);
}

proof fn lemma_pow10_pos(k: nat)
    ensures
        pow10(k) >= 1,
    decreases k,
{
    if k > 0 {
        lemma_pow10_pos((k - 1) as nat);
    }
}

proof fn lemma_pow10_mono(k: nat)
    requires
        k <= 9,
    ensures
        pow10(k) <= 1000000000,
    decreases 9 - k,
{
    if k < 9 {
        lemma_pow10_mono(k + 1);
        lemma_pow10_pos(k);
    } else {
        lemma_pow10_9();
    }
}

proof fn lemma_run_prefix(s: Seq<char>, i: int, k: int)
    requires
        0 <= i <= k <= i + run_len(s, i),
    ensures
        run_len(s, i) == (k - i) + run_len(s, k),
        k < i + run_len(s, i) ==> 0 <= k < s.len() && is_digit(s[k]),
    decreases k - i,
{
    if k > i {
        lemma_run_prefix(s, i + 1, k);
    }
}

/// End of the run of digits at `i`.
fn digit_run_end(s: &[char], i: usize) -> (r: usize)
    requires
        i <= s@.len(),
    ensures
        r - i == run_len(s@, i as int),
        i <= r <= s@.len(),
{
    let mut j: usize = i;
    while j < s.len() && '0' <= s[j] && s[j] <= '9'
        invariant
            i <= j <= s@.len(),
            run_len(s@, i as int) == (j - i) + run_len(s@, j as int),
        decreases s@.len() - j,
    {
        j = j + 1;
    }
    j
}

/// Reads the number at `i`, where one of at most `MAX_DIGITS` digits stands.
fn read_number(s: &[char], i: usize) -> (r: Option<(u64, usize)>)
    requires
        i <= s@.len(),
    ensures
        r is Some <==> number_at(s@, i as int),
        r matches Some((v, e)) ==> v == number_value(s@, i as int) && e == number_end(s@, i as int)
            && e <= s@.len() && v < 1000000000,
{
    let e = digit_run_end(s, i);
    if e == i || e - i > MAX_DIGITS {
        return None;
    }
    let mut v: u64 = 0;
    let mut j: usize = i;
    proof {
        assert(s@.subrange(i as int, i as int) =~= Seq::<char>::empty());
    }
    while j < e
        invariant
            i <= j <= e <= s@.len(),
            e - i <= MAX_DIGITS,
            run_len(s@, i as int) == e - i,
            v == digits_value(s@.subrange(i as int, j as int)),
            v < pow10((j - i) as nat),
        decreases e - j,
    {
        proof {
            lemma_run_prefix(s@, i as int, j as int);
            lemma_digits_step(s@, i as int, j as int);
            lemma_pow10_mono((j - i) as nat);
        }
        let d = (s[j] as u64) - ('0' as u64);
        assert(d == digit_value(s@[j as int]));
        proof {
            let p = pow10((j - i) as nat);
            assert(v * 10 + d < p * 10) by (nonlinear_arith)
                requires
                    v < p,
                    d < 10,
            ;
        }
        v = v * 10 + d;
        j = j + 1;
    }
    proof {
        lemma_pow10_mono((e - i) as nat);
    }
    Some((v, e))
}

/// A mixed fraction at the start of `t`.
fn mixed_prefix(t: &[char]) -> (r: Option<(Quantity, usize)>)
    ensures
        match mixed_amount(t@) {
            None => r is None,
            Some((n, d, h, e)) => r matches Some((q, len)) && len == e && quantity_of(q, n, d, h)
                && q.wf(),
        },
{
    let len = t.len();
    if let Some((av, ae)) = read_number(t, 0) {
        if ae < len && t[ae] == ' ' {
            if let Some((bv, be)) = read_number(t, ae + 1) {
                if be < len && t[be] == '/' {
                    if let Some((cv, ce)) = read_number(t, be + 1) {
                        if cv > 0 && ce < len && t[ce] == ' ' {
                            assert((av as u128) * (cv as u128) < 1000000000000000000) by (nonlinear_arith)
                                requires av < 1000000000, cv < 1000000000;
                            let n: u128 = (av as u128) * (cv as u128) + (bv as u128);
                            let (rn, rd) = reduce(n, cv as u128);
                            return Some((Quantity { num: rn as u64, den: rd as u64, hint: Hint::Mixed }, ce));
                        }
                    }
                }
            }
        }
    }
    None
}

/// A simple fraction at the start of `t`.
fn fraction_prefix(t: &[char]) -> (r: Option<(Quantity, usize)>)
    ensures
        match fraction_amount(t@) {
            None => r is None,
            Some((n, d, h, e)) => r matches Some((q, len)) && len == e && quantity_of(q, n, d, h)
                && q.wf(),
        },
{
    let len = t.len();
    if let Some((av, ae)) = read_number(t, 0) {
        if ae < len && t[ae] == '/' {
            if let Some((cv, ce)) = read_number(t, ae + 1) {
                if cv > 0 && ce < len && t[ce] == ' ' {
                    let (rn, rd) = reduce(av as u128, cv as u128);
                    return Some((Quantity { num: rn as u64, den: rd as u64, hint: Hint::Fraction }, ce));
                }
            }
        }
    }
    None
}

/// `10^k` for `k <= MAX_DIGITS`.
fn power_of_ten(k: usize) -> (r: u64)
    requires
        k <= MAX_DIGITS,
    ensures
        r == pow10(k as nat),
        1 <= r <= 1000000000,
{
    let mut p: u64 = 1;
    let mut j: usize = 0;
    while j < k
        invariant
            j <= k <= MAX_DIGITS,
            p == pow10(j as nat),
        decreases k - j,
    {
        proof {
            lemma_pow10_mono(j as nat);
        }
        p = p * 10;
        j = j + 1;
    }
    proof {
        lemma_pow10_mono(k as nat);
        lemma_pow10_pos(k as nat);
    }
    p
}

/// A whole number or a decimal at the start of `t`.
fn decimal_prefix(t: &[char]) -> (r: Option<(Quantity, usize)>)
    ensures
        match decimal_amount(t@) {
            None => r is None,
            Some((n, d, h, e)) => r matches Some((q, len)) && len == e && quantity_of(q, n, d, h)
                && q.wf(),
        },
{
    let len = t.len();
    if let Some((av, ae)) = read_number(t, 0) {
        if ae < len && t[ae] == '.' {
            if let Some((fv, fe)) = read_number(t, ae + 1) {
                if fe < len && t[fe] == ' ' {
                    let p = power_of_ten(fe - (ae + 1));
                    assert((av as u128) * (p as u128) <= 1000000000000000000) by (nonlinear_arith)
                        requires av < 1000000000, p <= 1000000000;
                    let n: u128 = (av as u128) * (p as u128) + (fv as u128);
                    let (rn, rd) = reduce(n, p as u128);
                    return Some((Quantity { num: rn as u64, den: rd as u64, hint: Hint::Decimal }, fe));
                }
                return None;
            }
        }
        if ae < len && t[ae] == ' ' {
            let (rn, rd) = reduce(av as u128, 1);
            return Some((Quantity { num: rn as u64, den: rd as u64, hint: Hint::Whole }, ae));
        }
    }
    None
}

/// The amount that `s[from..]` starts with, in lowest terms, and the length of its text.
pub fn amount_prefix(s: &[char], from: usize) -> (r: Option<(Quantity, usize)>)
    requires
        from <= s@.len(),
    ensures
        match amount_of(s@.subrange(from as int, s@.len() as int)) {
            None => r is None,
            Some((n, d, h, e)) => r matches Some((q, len)) && len == e && quantity_of(q, n, d, h)
                && q.wf(),
        },
{
    reveal(amount_of);
    let t = slice_of(s, from, s.len());
    let m = mixed_prefix(t.as_slice());
    if m.is_some() {
        return m;
    }
    let f = fraction_prefix(t.as_slice());
    if f.is_some() {
        return f;
    }
    decimal_prefix(t.as_slice())
}

// ---------------------------------------------------------------------------
// Formatting.

/// The smallest of 1, 2, 3, 4 and 8 that is a denominator of `num / den`, or 0
/// if none is.
pub open spec fn simple_den(num: nat, den: nat) -> nat {
    if num % den == 0 {
        1
    } else if (num * 2) % den == 0 {
        2
    } else if (num * 3) % den == 0 {
        3
    } else if (num * 4) % den == 0 {
        4
    } else if (num * 8) % den == 0 {
        8
    } else {
        0
    }
}

/// `x / 100` written with at most two fractional digits and no trailing zeros.
pub open spec fn hundredths(x: nat) -> Seq<char> {
    decimal(x / 100) + if x % 100 == 0 {
        seq![]
    } else if x % 10 == 0 {
        seq!['.', digit_char((x / 10) % 10)]
    } else {
        seq!['.', digit_char((x / 10) % 10), digit_char(x % 10)]
    }
}

/// `n/d`
pub open spec fn fraction_text(n: nat, d: nat) -> Seq<char> {
    decimal(n) + seq!['/'] + decimal(d)
}

/// The text of the amount `num / den` (with `den > 0`): a whole number as is;
/// a value with a denominator among 1, 2, 3, 4, 8 as a fraction, a mixed
/// fraction when it exceeds one and the hint is not `Fraction`, or as a
/// decimal when the hint is `Decimal` and it has at most two fractional digits;
/// any other value as a decimal rounded half up to two fractional digits.
pub open spec fn amount_text(num: nat, den: nat, hint: Hint) -> Seq<char> {
    let d = simple_den(num, den);
    let k = num * d / den;
    if d == 1 {
        decimal(num / den)
    } else if hint == Hint::Decimal && (d == 2 || d == 4) {
        hundredths(num * 100 / den)
    } else if d != 0 {
        if k < d || hint == Hint::Fraction {
            fraction_text(k, d)
        } else {
            decimal(k / d) + seq![' '] + fraction_text(k % d, d)
        }
    } else {
        hundredths((num * 200 + den) / (2 * den))
    }
}

/// The value of `num / den` is shown exactly, without rounding.
pub open spec fn shown_exactly(num: nat, den: nat) -> bool {
    simple_den(num, den) != 0
}

fn push_hundredths(out: &mut Vec<char>, x: u128)
    ensures
        final(out)@ == old(out)@ + hundredths(x as nat),
{
    push_decimal(out, x / 100);
    if x % 100 == 0 {
    } else if x % 10 == 0 {
        out.push('.');
        out.push(digit_of((x / 10) % 10));
    } else {
        out.push('.');
        out.push(digit_of((x / 10) % 10));
        out.push(digit_of(x % 10));
    }
    assert(final(out)@ =~= old(out)@ + hundredths(x as nat));
}

fn push_fraction(out: &mut Vec<char>, n: u128, d: u128)
    ensures
        final(out)@ == old(out)@ + fraction_text(n as nat, d as nat),
{
    push_decimal(out, n);
    out.push('/');
    push_decimal(out, d);
    assert(final(out)@ =~= old(out)@ + fraction_text(n as nat, d as nat));
}

/// The characters of `amount_text(num, den, hint)`.
pub fn amount_chars(num: u64, den: u64, hint: Hint) -> (r: Vec<char>)
    requires
        den > 0,
    ensures
        r@ == amount_text(num as nat, den as nat, hint),
{
    let n: u128 = num as u128;
    let dn: u128 = den as u128;
    let d: u128 = if n % dn == 0 {
        1
    } else if (n * 2) % dn == 0 {
        2
    } else if (n * 3) % dn == 0 {
        3
    } else if (n * 4) % dn == 0 {
        4
    } else if (n * 8) % dn == 0 {
        8
    } else {
        0
    };
    let mut out: Vec<char> = Vec::new();
    if d == 1 {
        push_decimal(&mut out, n / dn);
    } else if hint == Hint::Decimal && (d == 2 || d == 4) {
        push_hundredths(&mut out, n * 100 / dn);
    } else if d != 0 {
        let k = n * d / dn;
        if k < d || hint == Hint::Fraction {
            push_fraction(&mut out, k, d);
        } else {
            push_decimal(&mut out, k / d);
            out.push(' ');
            push_fraction(&mut out, k % d, d);
        }
    } else {
        push_hundredths(&mut out, (n * 200 + dn) / (2 * dn));
    }
    assert(out@ =~= amount_text(num as nat, den as nat, hint));
    out
}

impl Quantity {
    /// This amount written as `amount_text` gives it under `hint`.
    pub fn to_text(&self, hint: Hint) -> (r: String)
        requires
            self.wf(),
        ensures
            r@ == amount_text(self.num as nat, self.den as nat, hint),
    {
        string_of(amount_chars(self.num, self.den, hint))
    }

    /// This amount times `p / q`, in lowest terms, keeping the hint.
    pub fn multiply(&self, p: u64, q: u64) -> (r: Result<Quantity, ScaleError>)
        requires
            self.wf(),
        ensures
            p == 0 || q == 0 ==> r == Err::<Quantity, ScaleError>(ScaleError::NotPositive),
            p > 0 && q > 0 ==> {
                let (n, d) = reduced((self.num * p) as nat, (self.den * q) as nat);
                if n <= u64::MAX && d <= u64::MAX {
                    r == Ok::<Quantity, ScaleError>(Quantity { num: n as u64, den: d as u64, hint: self.hint })
                } else {
                    r == Err::<Quantity, ScaleError>(ScaleError::TooLarge)
                }
            },
            r matches Ok(m) ==> m.wf() && m.num * (self.den * q) == self.num * p * m.den,
    {
        if p == 0 || q == 0 {
            return Err(ScaleError::NotPositive);
        }
        assert((self.num as u128) * (p as u128) <= 0xffff_ffff_ffff_ffff * 0xffff_ffff_ffff_ffff) by (nonlinear_arith)
            requires self.num <= 0xffff_ffff_ffff_ffffu64, p <= 0xffff_ffff_ffff_ffffu64;
        assert((self.den as u128) * (q as u128) <= 0xffff_ffff_ffff_ffff * 0xffff_ffff_ffff_ffff) by (nonlinear_arith)
            requires self.den <= 0xffff_ffff_ffff_ffffu64, q <= 0xffff_ffff_ffff_ffffu64;
        assert((self.den as u128) * (q as u128) > 0) by (nonlinear_arith)
            requires self.den > 0, q > 0;
        let (n, d) = reduce((self.num as u128) * (p as u128), (self.den as u128) * (q as u128));
        if n > (u64::MAX as u128) || d > (u64::MAX as u128) {
            return Err(ScaleError::TooLarge);
        }
        proof {
            assert(n * (self.den * q) == self.num * p * d);
        }
        Ok(Quantity { num: n as u64, den: d as u64, hint: self.hint })
    }
}

// ---------------------------------------------------------------------------
// Re-rationalising.

/// Largest denominator that `nearest` gives.
pub const MAX_NEAREST_DEN: u64 = 16;

/// `|k/e - n/d|`, times `e * d`.
pub open spec fn gap(k: int, e: int, n: int, d: int) -> int {
    let x = k * d - n * e;
    if x < 0 {
        -x
    } else {
        x
    }
}

/// `r` is, in lowest terms, a fraction with a denominator of at most 16 that is
/// nearest to `n / d`, and every fraction with a smaller denominator is
/// strictly farther.
pub open spec fn nearest_to(r: Quantity, n: nat, d: nat) -> bool {
    &&& 1 <= r.den <= MAX_NEAREST_DEN
    &&& (r.num as nat, r.den as nat) == reduced(r.num as nat, r.den as nat)
    &&& forall|k: nat, e: nat|
        1 <= e <= MAX_NEAREST_DEN ==> #[trigger] gap(k as int, e as int, n as int, d as int) * r.den
            >= gap(r.num as int, r.den as int, n as int, d as int) * e
    &&& forall|k: nat, e: nat|
        1 <= e < r.den ==> #[trigger] gap(k as int, e as int, n as int, d as int) * r.den
            > gap(r.num as int, r.den as int, n as int, d as int) * e
}

proof fn lemma_round_best(x: int, d: int, f: int, k: int)
    requires
        d > 0,
        x >= 0,
        f == x / d,
    ensures
        f >= 0,
        x - f * d >= 0,
        x - f * d < d,
        (f + 1) * d - x > 0,
        (f + 1) * d == f * d + d,
        k <= f ==> x - k * d >= x - f * d,
        k > f ==> k * d - x >= (f + 1) * d - x,
{
    vstd::arithmetic::div_mod::lemma_fundamental_div_mod(x, d);
    vstd::arithmetic::div_mod::lemma_mod_pos_bound(x, d);
    vstd::arithmetic::div_mod::lemma_div_pos_is_pos(x, d);
    let r = x % d;
    assert(d * f == f * d) by (nonlinear_arith);
    assert((f + 1) * d == f * d + d) by (nonlinear_arith);
    if k <= f {
        assert(k * d <= f * d) by (nonlinear_arith)
            requires k <= f, d > 0;
    } else {
        assert(k * d >= (f + 1) * d) by (nonlinear_arith)
            requires k >= f + 1, d > 0;
    }
}

impl Quantity {
    /// The fraction with a denominator of at most 16 that is nearest to this
    /// amount, in lowest terms; of equally near ones, the one with the
    /// smallest denominator. Keeps the hint.
    pub fn nearest(&self) -> (r: Quantity)
        requires
            self.wf(),
        ensures
            nearest_to(r, self.num as nat, self.den as nat),
            r.hint == self.hint,
            r.wf(),
    {
        let n: u128 = self.num as u128;
        let d: u128 = self.den as u128;
        let mut best_k: u128 = n / d;
        let mut best_e: u128 = 1;
        let mut best_g: u128 = n % d;
        proof {
            lemma_round_best(n as int, d as int, best_k as int, 0);
            vstd::arithmetic::div_mod::lemma_fundamental_div_mod(n as int, d as int);
            assert(d * best_k == best_k * d) by (nonlinear_arith);
            assert(best_k <= n) by (nonlinear_arith)
                requires best_k * d <= n, d >= 1;
        }
        let mut e: u128 = 1;
        while e <= 16
            invariant
                n == self.num,
                d == self.den,
                d >= 1,
                1 <= e <= 17,
                1 <= best_e <= 16,
                best_e <= e,
                best_k <= n,
                best_g == gap(best_k as int, best_e as int, n as int, d as int),
                best_g <= d,
                e > d ==> best_g == 0,
                forall|k: nat, e2: nat|
                    1 <= e2 < e ==> #[trigger] gap(k as int, e2 as int, n as int, d as int) * best_e
                        >= best_g * e2,
                forall|k: nat, e2: nat|
                    1 <= e2 < best_e ==> #[trigger] gap(k as int, e2 as int, n as int, d as int) * best_e
                        > best_g * e2,
            decreases 17 - e,
        {
            assert(n * e <= n * 16) by (nonlinear_arith)
                requires e <= 16;
            let x: u128 = n * e;
            let f: u128 = x / d;
            proof {
                lemma_round_best(x as int, d as int, f as int, 0);
                assert(f * d <= x);
            }
            let low: u128 = x - f * d;
            let high: u128 = d - low;
            assert(high == (f + 1) * d - x);
            let (k, g) = if low <= high {
                (f, low)
            } else {
                (f + 1, high)
            };
            proof {
                assert(g == gap(k as int, e as int, n as int, d as int));
                assert forall|k2: nat| #[trigger] gap(k2 as int, e as int, n as int, d as int) >= g by {
                    lemma_round_best(x as int, d as int, f as int, k2 as int);
                    if k2 <= f {
                        assert(k2 * d <= x);
                    } else {
                        assert(k2 * d > x);
                    }
                }
                if e == d {
                    assert(x == n * d);
                    vstd::arithmetic::div_mod::lemma_div_multiples_vanish(n as int, d as int);
                    assert(f == n);
                    assert(low == 0);
                }
            }
            assert(g * best_e <= d * 16) by (nonlinear_arith)
                requires g <= d, best_e <= 16;
            assert(best_g * e <= d * 16) by (nonlinear_arith)
                requires best_g <= d, e <= 16;
            if g * best_e < best_g * e {
                proof {
                    // An improvement needs a nonzero best so far, so `e <= d`.
                    assert(e <= d);
                    assert(k <= n) by (nonlinear_arith)
                        requires
                            f * d <= x,
                            x == n * e,
                            e <= d,
                            d >= 1,
                            k == f || k == f + 1,
                            k == f + 1 ==> low > high,
                            low == x - f * d,
                            high == d - low,
                            e == d ==> low == 0,
                    ;
                    assert forall|k2: nat, e2: nat| 1 <= e2 < e + 1 implies #[trigger] gap(k2 as int, e2 as int, n as int, d as int) * e
                        >= g * e2 by {
                        let gg = gap(k2 as int, e2 as int, n as int, d as int);
                        if e2 < e {
                            assert(gg * best_e >= best_g * e2);
                            assert(gg * e >= g * e2) by (nonlinear_arith)
                                requires gg * best_e >= best_g * e2, g * best_e < best_g * e, best_e >= 1, e >= 1, e2 >= 1, g >= 0, gg >= 0;
                        } else {
                            assert(gg >= g);
                            assert(gg * e >= g * e) by (nonlinear_arith)
                                requires gg >= g, e >= 1;
                        }
                    }
                    assert forall|k2: nat, e2: nat| 1 <= e2 < e implies #[trigger] gap(k2 as int, e2 as int, n as int, d as int) * e
                        > g * e2 by {
                        let gg = gap(k2 as int, e2 as int, n as int, d as int);
                        assert(gg * best_e >= best_g * e2);
                        assert(gg * e > g * e2) by (nonlinear_arith)
                            requires gg * best_e >= best_g * e2, g * best_e < best_g * e, best_e >= 1, e >= 1, e2 >= 1, g >= 0, gg >= 0;
                    }
                }
                best_k = k;
                best_e = e;
                best_g = g;
            } else {
                proof {
                    assert forall|k2: nat, e2: nat| 1 <= e2 < e + 1 implies #[trigger] gap(k2 as int, e2 as int, n as int, d as int) * best_e
                        >= best_g * e2 by {
                        let gg = gap(k2 as int, e2 as int, n as int, d as int);
                        if e2 == e {
                            assert(gg >= g);
                            assert(gg * best_e >= best_g * e2) by (nonlinear_arith)
                                requires gg >= g, g * best_e >= best_g * e, best_e >= 1, e2 == e;
                        }
                    }
                    if e == d {
                        assert(g == 0);
                        assert(best_g * e <= 0);
                        assert(best_g == 0) by (nonlinear_arith)
                            requires best_g * e <= 0, e >= 1, best_g >= 0;
                    }
                }
            }
            e = e + 1;
        }
        let (rn, rd) = reduce(best_k, best_e);
        proof {
            let gb = best_g as int;
            let gr = gap(rn as int, rd as int, n as int, d as int);
            assert(gr * best_e == gb * rd) by (nonlinear_arith)
                requires
                    rn * best_e == best_k * rd,
                    gr == gap(rn as int, rd as int, n as int, d as int),
                    gb == gap(best_k as int, best_e as int, n as int, d as int),
                    rd > 0, best_e > 0;
            // A smaller denominator would be strictly farther, so nothing was cancelled.
            if rd < best_e {
                assert(gap(rn as int, rd as int, n as int, d as int) * best_e > gb * rd);
            }
            assert(rd == best_e);
            assert(rn == best_k) by (nonlinear_arith)
                requires rn * best_e == best_k * rd, rd == best_e, best_e > 0;
        }
        Quantity { num: rn as u64, den: rd as u64, hint: self.hint }
    }
}

/// Parses `text` as an amount: a mixed fraction, a simple fraction, a decimal or
/// a whole number, and nothing else.
pub fn parse_amount(text: &str) -> (r: Option<Quantity>)
    ensures
        match amount_of(text@ + seq![' ']) {
            Some((n, d, h, e)) => if e == text@.len() {
                r matches Some(q) && quantity_of(q, n, d, h) && q.wf()
            } else {
                r is None
            },
            None => r is None,
        },
{
    let mut t = chars_of(text);
    let ghost body = t@;
    t.push(' ');
    assert(t@.subrange(0, t@.len() as int) =~= body + seq![' ']);
    match amount_prefix(t.as_slice(), 0) {
        Some((q, len)) => {
            if len == t.len() - 1 {
                Some(q)
            } else {
                None
            }
        },
        None => None,
    }
}

} // verus!
