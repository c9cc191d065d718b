//! Exact rational numbers, the numbers of the language.

use vstd::prelude::*;
use crate::text::{push_char, push_str};
use vstd::string::StrSliceExecFns;

verus! {

/// Greatest common divisor, by Euclid's algorithm.
pub open spec fn gcd(a: nat, b: nat) -> nat
    decreases b,
{
    if b == 0 {
        a
    } else {
        gcd(b, a % b)
    }
}

proof fn lemma_gcd_bounds(a: nat, b: nat)
    requires
        b > 0,
    ensures
        0 < gcd(a, b) <= b,
    decreases b,
{
    let r = a % b;
    assert(r < b) by (nonlinear_arith)
        requires
            b > 0,
            r == a % b,
    ;
    if r != 0 {
        lemma_gcd_bounds(b, r);
    }
}

pub open spec fn abs(x: int) -> nat {
    if x < 0 {
        (-x) as nat
    } else {
        x as nat
    }
}

pub open spec fn fits_i64(x: int) -> bool {
    i64::MIN <= x <= i64::MAX
}

/// A number in the language: the fraction `num / den`.
/// Every number the library builds has `den > 0` and is in lowest terms.
#[derive(PartialEq, Eq, Structural, Clone, Copy, Debug)]
pub struct Num {
    pub num: i64,
    pub den: i64,
}

/// The fraction `n / d` divided through by the greatest common divisor of
/// its parts, or `None` where `d` is not positive or a part leaves `i64`.
pub open spec fn make(n: int, d: int) -> Option<Num> {
    if d <= 0 {
        None
    } else {
        let g = gcd(abs(n), d as nat);
        let p = if n < 0 {
            -(abs(n) / g) as int
        } else {
            (abs(n) / g) as int
        };
        let q = (d / g as int) as int;
        if fits_i64(p) && fits_i64(q) {
            Some(Num { num: p as i64, den: q as i64 })
        } else {
            None
        }
    }
}

pub open spec fn num_wf(x: Num) -> bool {
    x.den > 0
}

pub open spec fn spec_add(a: Num, b: Num) -> Option<Num> {
    if !num_wf(a) || !num_wf(b) {
        None
    } else {
        make(a.num * b.den + b.num * a.den, a.den * b.den)
    }
}

pub open spec fn spec_sub(a: Num, b: Num) -> Option<Num> {
    if !num_wf(a) || !num_wf(b) {
        None
    } else {
        make(a.num * b.den - b.num * a.den, a.den * b.den)
    }
}

pub open spec fn spec_mul(a: Num, b: Num) -> Option<Num> {
    make(a.num * b.num, a.den * b.den)
}

/// `a / b`; `None` where `b` is zero or the result leaves `i64`.
pub open spec fn spec_div(a: Num, b: Num) -> Option<Num> {
    if b.num == 0 {
        None
    } else if b.num < 0 {
        make(-(a.num * b.den), a.den * abs(b.num as int))
    } else {
        make(a.num * b.den, a.den * b.num)
    }
}

fn mul_wide(a: i64, b: i64) -> (r: i128)
    ensures
        r == a as int * b as int,
        -0x4000_0000_0000_0000_0000_0000_0000_0000 <= r <= 0x4000_0000_0000_0000_0000_0000_0000_0000,
        b > 0 ==> -0x3fff_ffff_ffff_ffff_8000_0000_0000_0000 <= r <= 0x3fff_ffff_ffff_ffff_8000_0000_0000_0000,
{
    let x = a as i128;
    let y = b as i128;
    assert(-0x4000_0000_0000_0000_0000_0000_0000_0000 <= x * y <= 0x4000_0000_0000_0000_0000_0000_0000_0000)
        by (nonlinear_arith)
        requires
            -0x8000_0000_0000_0000 <= x <= 0x7fff_ffff_ffff_ffff,
            -0x8000_0000_0000_0000 <= y <= 0x7fff_ffff_ffff_ffff,
    ;
    if y > 0 {
        assert(-0x3fff_ffff_ffff_ffff_8000_0000_0000_0000 <= x * y <= 0x3fff_ffff_ffff_ffff_8000_0000_0000_0000)
            by (nonlinear_arith)
            requires
                -0x8000_0000_0000_0000 <= x <= 0x7fff_ffff_ffff_ffff,
                0 < y <= 0x7fff_ffff_ffff_ffff,
        ;
    }
    x * y
}

fn gcd_u128(a: u128, b: u128) -> (r: u128)
    ensures
        r == gcd(a as nat, b as nat),
{
    let mut x = a;
    let mut y = b;
    while y != 0
        invariant
            gcd(x as nat, y as nat) == gcd(a as nat, b as nat),
        decreases y,
    {
        let t = x % y;
        assert(t < y) by (nonlinear_arith)
            requires
                y != 0,
                t == x % y,
        ;
        x = y;
        y = t;
    }
    x
}

fn reduce(n: i128, d: i128) -> (r: Option<Num>)
    ensures
        r == make(n as int, d as int),
        r matches Some(x) ==> num_wf(x),
{
    if d <= 0 {
        return None;
    }
    let m: u128 = if n < 0 {
        (-(n as i128 + 1)) as u128 + 1
    } else {
        n as u128
    };
    assert(m == abs(n as int));
    let g = gcd_u128(m, d as u128);
    proof {
        lemma_gcd_bounds(abs(n as int), d as nat);
    }
    let pm = m / g;
    let q = (d as u128) / g;
    assert(q > 0) by (nonlinear_arith)
        requires
            q == (d as u128) / g,
            0 < g <= d,
    ;
    if pm > i64::MAX as u128 + 1 || q > i64::MAX as u128 {
        return None;
    }
    if n < 0 {
        let p: i128 = -(pm as i128);
        Some(Num { num: p as i64, den: q as i64 })
    } else {
        if pm > i64::MAX as u128 {
            return None;
        }
        Some(Num { num: pm as i64, den: q as i64 })
    }
}

impl Num {
    /// The whole number `n`.
    pub fn from_int(n: i64) -> (r: Num)
        ensures
            r == (Num { num: n, den: 1 }),
    {
        Num { num: n, den: 1 }
    }

    /// The fraction `n / d` in lowest terms; `None` where `d` is not
    /// positive.
    pub fn new(n: i64, d: i64) -> (r: Option<Num>)
        ensures
            r == make(n as int, d as int),
    {
        reduce(n as i128, d as i128)
    }

    pub fn is_zero(&self) -> (r: bool)
        ensures
            r == (self.num == 0),
    {
        self.num == 0
    }

    /// Whether the number is a whole number.
    pub fn is_integer(&self) -> (r: bool)
        ensures
            r == (self.den == 1),
    {
        self.den == 1
    }

    pub fn add(&self, b: &Num) -> (r: Option<Num>)
        ensures
            r == spec_add(*self, *b),
    {
        if self.den <= 0 || b.den <= 0 {
            return None;
        }
        let x = mul_wide(self.num, b.den);
        let y = mul_wide(b.num, self.den);
        let d = mul_wide(self.den, b.den);
        reduce(x + y, d)
    }

    pub fn sub(&self, b: &Num) -> (r: Option<Num>)
        ensures
            r == spec_sub(*self, *b),
    {
        if self.den <= 0 || b.den <= 0 {
            return None;
        }
        let x = mul_wide(self.num, b.den);
        let y = mul_wide(b.num, self.den);
        let d = mul_wide(self.den, b.den);
        reduce(x - y, d)
    }

    pub fn mul(&self, b: &Num) -> (r: Option<Num>)
        ensures
            r == spec_mul(*self, *b),
    {
        let x = mul_wide(self.num, b.num);
        let d = mul_wide(self.den, b.den);
        reduce(x, d)
    }

    pub fn div(&self, b: &Num) -> (r: Option<Num>)
        ensures
            r == spec_div(*self, *b),
    {
        if b.num == 0 {
            None
        } else if b.num < 0 {
            let x = mul_wide(self.num, b.den);
            let d = mul_wide(self.den, b.num);
            assert(-d == self.den as int * abs(b.num as int)) by (nonlinear_arith)
                requires
                    d == self.den as int * b.num as int,
                    b.num < 0,
            ;
            reduce(-x, -d)
        } else {
            let x = mul_wide(self.num, b.den);
            let d = mul_wide(self.den, b.num);
            reduce(x, d)
        }
    }

    /// The number as text (see [`num_text`]): `3`, `2.5`, or `1/3`.
    pub fn text(&self) -> (r: String)
        ensures
            r@ == num_text(*self),
    {
        let mut s = String::new();
        if self.den == 1 {
            push_int(&mut s, self.num as i128);
            return s;
        }
        match scale_of(self.den) {
            Some((k, p)) => {
                let a: u64 = if self.num < 0 { (-(self.num as i128)) as u64 } else { self.num as u64 };
                let d = self.den as u64;
                let whole = a / d;
                let r = a % d;
                let f = p / d;
                proof {
                    vstd::arithmetic::div_mod::lemma_fundamental_div_mod(p as int, d as int);
                }
                assert(r * f < p) by (nonlinear_arith)
                    requires
                        r < d,
                        p == d * f,
                        p >= 1,
                ;
                let frac = r * f;
                if self.num < 0 {
                    push_char(&mut s, '-');
                }
                push_nat(&mut s, whole);
                push_char(&mut s, '.');
                let mut t = String::new();
                push_nat(&mut t, frac);
                let n = t.as_str().unicode_len();
                if n < k as usize {
                    push_zeros(&mut s, k as usize - n);
                }
                push_str(&mut s, t.as_str());
                proof {
                    assert(abs(self.num as int) == a);
                    let sign = if self.num < 0 { seq!['-'] } else { Seq::<char>::empty() };
                    assert(s@ =~= sign + nat_text(whole as nat).push('.') + pad(nat_text(frac as nat), k as nat));
                }
                s
            },
            None => {
                push_int(&mut s, self.num as i128);
                push_char(&mut s, '/');
                push_int(&mut s, self.den as i128);
                s
            },
        }
    }
}

fn push_zeros(s: &mut String, n: usize)
    ensures
        final(s)@ == old(s)@ + zeros(n as nat),
{
    let mut i: usize = 0;
    while i < n
        invariant
            i <= n,
            s@ == old(s)@ + zeros(i as nat),
        decreases n - i,
    {
        push_char(s, '0');
        i = i + 1;
        assert(s@ =~= old(s)@ + zeros(i as nat));
    }
}

/// The scale [`dec_scale`] gives for `den`, with `10` to that power.
fn scale_of(den: i64) -> (r: Option<(u32, u64)>)
    ensures
        match dec_scale(den as int, 0) {
            Some(k) => r matches Some((j, p)) && j == k && p as int == ten_pow(k) as int && (p as int) % (den as int) == 0 && den > 0
                && p <= 1_000_000_000_000_000_000 && p >= 1,
            None => r is None,
        },
{
    if den <= 0 {
        return None;
    }
    let mut k: u32 = 0;
    let mut p: u64 = 1;
    while k <= 18
        invariant
            k <= 19,
            den > 0,
            dec_scale(den as int, 0) == dec_scale(den as int, k as nat),
            k <= 18 ==> p == ten_pow(k as nat),
            p >= 1,
            k <= 18 ==> p <= 1_000_000_000_000_000_000,
        decreases 19 - k,
    {
        if p % (den as u64) == 0 {
            return Some((k, p));
        }
        proof {
            lemma_ten_pow_step(k as nat);
        }
        if k < 18 {
            p = p * 10;
        }
        k = k + 1;
    }
    None
}

proof fn lemma_ten_pow_step(k: nat)
    requires
        k <= 18,
    ensures
        ten_pow(k) <= 1_000_000_000_000_000_000,
        k < 18 ==> ten_pow(k) * 10 <= 1_000_000_000_000_000_000,
        ten_pow(k + 1) == ten_pow(k) * 10,
    decreases k,
{
    reveal_with_fuel(ten_pow, 19);
    if k > 0 {
        lemma_ten_pow_step((k - 1) as nat);
    }
}

pub open spec fn digit_char(d: nat) -> char {
    if d == 0 { '0' } else if d == 1 { '1' } else if d == 2 { '2' } else if d == 3 { '3' }
    else if d == 4 { '4' } else if d == 5 { '5' } else if d == 6 { '6' } else if d == 7 { '7' }
    else if d == 8 { '8' } else { '9' }
}

/// The decimal digits of `n`, most significant first.
pub open spec fn nat_text(n: nat) -> Seq<char>
    decreases n,
{
    if n < 10 {
        seq![digit_char(n)]
    } else {
        nat_text(n / 10).push(digit_char(n % 10))
    }
}

/// The decimal text of `i`, with a leading `-` where it is negative.
pub open spec fn int_text(i: int) -> Seq<char> {
    if i < 0 {
        seq!['-'] + nat_text(abs(i))
    } else {
        nat_text(abs(i))
    }
}

pub open spec fn ten_pow(k: nat) -> nat
    decreases k,
{
    if k == 0 {
        1
    } else {
        10 * ten_pow((k - 1) as nat)
    }
}

/// The fewest digits after the point, from `k` up to 18, that write
/// `1 / den` exactly: the least such `k` with `10^k` a multiple of `den`.
pub open spec fn dec_scale(den: int, k: nat) -> Option<nat>
    decreases 19 - k,
{
    if k > 18 || den <= 0 {
        None
    } else if (ten_pow(k) as int) % den == 0 {
        Some(k)
    } else {
        dec_scale(den, k + 1)
    }
}

/// `n` zeros.
pub open spec fn zeros(n: nat) -> Seq<char>
    decreases n,
{
    if n == 0 {
        Seq::empty()
    } else {
        zeros((n - 1) as nat).push('0')
    }
}

/// `t` with zeros in front up to `k` characters.
pub open spec fn pad(t: Seq<char>, k: nat) -> Seq<char> {
    if t.len() >= k {
        t
    } else {
        zeros((k - t.len()) as nat) + t
    }
}

/// The text of a number: its digits where it is whole; where its
/// denominator divides a power of ten up to `10^18`, its decimal form with
/// the fewest digits after the point (`5/2` is `2.5`); else
/// `numerator/denominator`.
pub open spec fn num_text(x: Num) -> Seq<char> {
    if x.den == 1 {
        int_text(x.num as int)
    } else {
        match dec_scale(x.den as int, 0) {
            Some(k) => {
                let a = abs(x.num as int) as int;
                let whole = a / (x.den as int);
                let frac = (a % (x.den as int)) * ((ten_pow(k) as int) / (x.den as int));
                let sign = if x.num < 0 { seq!['-'] } else { Seq::<char>::empty() };
                sign + nat_text(whole as nat).push('.') + pad(nat_text(frac as nat), k)
            },
            None => int_text(x.num as int).push('/') + int_text(x.den as int),
        }
    }
}

fn digit(d: u64) -> (c: char)
    requires
        d < 10,
    ensures
        c == digit_char(d as nat),
{
    if d == 0 { '0' } else if d == 1 { '1' } else if d == 2 { '2' } else if d == 3 { '3' }
    else if d == 4 { '4' } else if d == 5 { '5' } else if d == 6 { '6' } else if d == 7 { '7' }
    else if d == 8 { '8' } else { '9' }
}

pub(crate) fn push_nat(s: &mut String, n: u64)
    ensures
        final(s)@ == old(s)@ + nat_text(n as nat),
    decreases n,
{
    if n < 10 {
        push_char(s, digit(n));
        assert(final(s)@ =~= old(s)@ + nat_text(n as nat));
    } else {
        push_nat(s, n / 10);
        push_char(s, digit(n % 10));
        assert(final(s)@ =~= old(s)@ + nat_text(n as nat));
    }
}

pub(crate) fn push_int(s: &mut String, i: i128)
    requires
        i64::MIN <= i <= i64::MAX as int + 1,
    ensures
        final(s)@ == old(s)@ + int_text(i as int),
{
    if i < 0 {
        push_char(s, '-');
        let m: u64 = (-i) as u64;
        push_nat(s, m);
        assert(final(s)@ =~= old(s)@ + int_text(i as int));
    } else {
        push_nat(s, i as u64);
    }
}

} // verus!
