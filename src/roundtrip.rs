//! Printing a tree and parsing the text gives the tree back.

use vstd::prelude::*;
use crate::ast::{AstV, show, show_all, spaces, deeper};
use crate::lexer::{
    Lexeme, is_ws, is_ident_start, is_ident_char, is_digit, is_terminator, skip_ws, ident_end,
    string_body, string_end, lexeme_at, lexeme_end, digit_value, number_body, number_end, number_at,
    pow10,
};
use crate::num::{Num, nat_text, digit_char, num_text, make, gcd, abs, ten_pow, dec_scale, zeros, pad};
use crate::parser::{parse_expr, parse_children, parse_program};

verus! {

/// Text that lexes as one identifier: a first character that starts one
/// (and does not start a comment), the rest characters that continue one.
pub open spec fn ident_text(s: Seq<char>) -> bool {
    &&& s.len() > 0
    &&& is_ident_start(s[0])
    &&& s[0] != ';'
    &&& forall|k: int| 0 <= k < s.len() ==> is_ident_char(#[trigger] s[k])
}

/// Text that a string literal holds as it is: no double quote, no
/// backslash.
pub open spec fn plain_text(s: Seq<char>) -> bool {
    forall|k: int| 0 <= k < s.len() ==> (#[trigger] s[k]) != '"' && s[k] != '\\'
}

/// A tree that prints to text that reads back as it: names that lex as
/// identifiers, strings without quotes or backslashes, and numbers that
/// are not negative (a negative number prints as a name) and are whole or
/// [`decimal_ok`].
pub open spec fn printable(t: AstV) -> bool
    decreases t, 1nat,
{
    match t {
        AstV::Ident(s) => ident_text(s),
        AstV::Str(s) => plain_text(s),
        AstV::Number(n) => (n.den == 1 && n.num >= 0) || decimal_ok(n),
        AstV::Expr(l) => printable_all(l, l.len() as int),
    }
}

/// A number that prints in decimal form and reads back as itself: not
/// negative, in lowest terms, its denominator dividing a power of ten up
/// to `10^18`, and its digits without the point a whole number that fits
/// `i64`.
pub open spec fn decimal_ok(x: Num) -> bool {
    &&& x.den > 1
    &&& x.num >= 0
    &&& dec_scale(x.den as int, 0) is Some
    &&& gcd(x.num as nat, x.den as nat) == 1
    &&& x.num * ((ten_pow(dec_scale(x.den as int, 0)->0) as int) / (x.den as int)) <= i64::MAX
}

/// Whether the first `n` trees of `l` are printable.
pub open spec fn printable_all(l: Seq<AstV>, n: int) -> bool
    decreases l, 0nat, n,
{
    if n <= 0 || n > l.len() {
        true
    } else {
        printable_all(l, n - 1) && printable(l[n - 1])
    }
}

proof fn lemma_printable_all(l: Seq<AstV>, n: int, k: int)
    requires
        printable_all(l, n),
        0 <= k < n <= l.len(),
    ensures
        printable(l[k]),
    decreases n,
{
    if k < n - 1 {
        lemma_printable_all(l, n - 1, k);
    }
}

proof fn lemma_spaces(n: nat)
    ensures
        spaces(n).len() == n,
        forall|k: int| 0 <= k < n ==> #[trigger] spaces(n)[k] == ' ',
    decreases n,
{
    if n > 0 {
        lemma_spaces((n - 1) as nat);
    }
}

/// A run of blanks is skipped.
proof fn lemma_skip_run(cs: Seq<char>, i: int, j: int)
    requires
        0 <= i <= j <= cs.len(),
        forall|k: int| i <= k < j ==> is_ws(#[trigger] cs[k]),
    ensures
        skip_ws(cs, i as nat) == skip_ws(cs, j as nat),
    decreases j - i,
{
    if i < j {
        lemma_skip_run(cs, i + 1, j);
    }
}

proof fn lemma_ident_end(cs: Seq<char>, p: int, s: Seq<char>, k: int)
    requires
        0 <= p,
        p + s.len() <= cs.len(),
        cs.subrange(p, p + s.len()) == s,
        forall|x: int| 0 <= x < s.len() ==> is_ident_char(#[trigger] s[x]),
        p + s.len() == cs.len() || cs[p + s.len()] == '\n',
        1 <= k <= s.len(),
    ensures
        ident_end(cs, (p + k) as nat) == p + s.len(),
    decreases s.len() - k,
{
    if k < s.len() {
        assert(cs[p + k] == s[k]);
        lemma_ident_end(cs, p, s, k + 1);
    }
}

proof fn lemma_string(cs: Seq<char>, q: int, s: Seq<char>, k: int)
    requires
        0 <= q,
        q + s.len() < cs.len(),
        cs.subrange(q, q + s.len()) == s,
        plain_text(s),
        cs[q + s.len()] == '"',
        0 <= k <= s.len(),
    ensures
        string_body(cs, (q + k) as nat) == Some(s.subrange(k, s.len() as int)),
        string_end(cs, (q + k) as nat) == q + s.len() + 1,
    decreases s.len() - k,
{
    if k < s.len() {
        assert(cs[q + k] == s[k]);
        lemma_string(cs, q, s, k + 1);
        assert(seq![s[k]] + s.subrange(k + 1, s.len() as int) =~= s.subrange(k, s.len() as int));
    } else {
        assert(s.subrange(k, s.len() as int) =~= Seq::<char>::empty());
    }
}

/// The whole number that a run of decimal digits denotes.
pub open spec fn digits_value(s: Seq<char>) -> int
    decreases s.len(),
{
    if s.len() == 0 {
        0
    } else {
        digits_value(s.drop_last()) * 10 + digit_value(s.last())
    }
}

proof fn lemma_digit_char(d: nat)
    requires
        d < 10,
    ensures
        is_digit(digit_char(d)),
        digit_value(digit_char(d)) == d,
{
}

proof fn lemma_nat_text(n: nat)
    ensures
        nat_text(n).len() > 0,
        digits_value(nat_text(n)) == n,
        forall|k: int| 0 <= k < nat_text(n).len() ==> is_digit(#[trigger] nat_text(n)[k]),
    decreases n,
{
    assert(digits_value(Seq::<char>::empty()) == 0);
    if n < 10 {
        lemma_digit_char(n);
        assert(nat_text(n).drop_last() =~= Seq::<char>::empty());
        assert(digits_value(nat_text(n)) == digits_value(nat_text(n).drop_last()) * 10 + digit_value(nat_text(n).last()));
    } else {
        lemma_nat_text(n / 10);
        lemma_digit_char(n % 10);
        let t = nat_text(n);
        assert(t.drop_last() =~= nat_text(n / 10));
        assert(digits_value(t) == digits_value(t.drop_last()) * 10 + digit_value(t.last()));
        assert(n == (n / 10) * 10 + n % 10);
        assert forall|k: int| 0 <= k < t.len() implies is_digit(#[trigger] t[k]) by {
            if k < t.len() - 1 {
                assert(t[k] == nat_text(n / 10)[k]);
            }
        }
    }
}

proof fn lemma_digits_prefix(s: Seq<char>, k: int)
    requires
        0 <= k <= s.len(),
        forall|x: int| 0 <= x < s.len() ==> is_digit(#[trigger] s[x]),
    ensures
        0 <= digits_value(s.subrange(0, k)) <= digits_value(s),
    decreases s.len() - k,
{
    if k < s.len() {
        lemma_digits_prefix(s, k + 1);
        let a = s.subrange(0, k + 1);
        assert(a.drop_last() =~= s.subrange(0, k));
        assert(is_digit(a.last()));
    } else {
        assert(s.subrange(0, k) =~= s);
        lemma_digits_nonneg(s);
    }
}

proof fn lemma_digits_nonneg(s: Seq<char>)
    requires
        forall|x: int| 0 <= x < s.len() ==> is_digit(#[trigger] s[x]),
    ensures
        digits_value(s) >= 0,
    decreases s.len(),
{
    if s.len() > 0 {
        assert forall|x: int| 0 <= x < s.len() - 1 implies is_digit(#[trigger] s.drop_last()[x]) by {
            assert(s.drop_last()[x] == s[x]);
        }
        lemma_digits_nonneg(s.drop_last());
        assert(is_digit(s[s.len() - 1]));
    }
}

/// Reading the digits `d` at `p`, from the digit at `p + k` on.
proof fn lemma_number_digits(cs: Seq<char>, p: int, d: Seq<char>, k: int)
    requires
        0 <= p,
        p + d.len() <= cs.len(),
        cs.subrange(p, p + d.len()) == d,
        d.len() > 0,
        forall|x: int| 0 <= x < d.len() ==> is_digit(#[trigger] d[x]),
        digits_value(d) <= i64::MAX,
        p + d.len() == cs.len() || is_terminator(cs[p + d.len()]),
        0 <= k < d.len(),
    ensures
        number_body(cs, (p + k) as nat, digits_value(d.subrange(0, k)), -1) == Some((digits_value(d), -1int)),
        number_end(cs, (p + k) as nat) == p + d.len(),
    decreases d.len() - k,
{
    assert(cs[p + k] == d[k]);
    let a = d.subrange(0, k + 1);
    assert(a.drop_last() =~= d.subrange(0, k));
    assert(a.last() == d[k]);
    lemma_digits_prefix(d, k + 1);
    if k + 1 < d.len() {
        assert(cs[p + k + 1] == d[k + 1]);
        assert(!is_terminator(cs[p + k + 1]));
        lemma_number_digits(cs, p, d, k + 1);
    } else {
        assert(a =~= d);
    }
}

proof fn lemma_make_whole(n: int)
    requires
        0 <= n <= i64::MAX,
    ensures
        make(n, 1) == Some(Num { num: n as i64, den: 1 }),
{
    let a = abs(n);
    assert(a == n);
    assert(a % 1 == 0);
    assert(gcd(a, 1) == gcd(1, a % 1));
    assert(gcd(1, 0) == 1);
    assert(gcd(a, 1) == 1);
    assert(a / 1 == a);
    assert(1int / 1int == 1);
}

proof fn lemma_dec_scale(den: int, k0: nat)
    requires
        dec_scale(den, k0) is Some,
    ensures
        k0 <= dec_scale(den, k0)->0 <= 18,
        den > 0,
        (ten_pow(dec_scale(den, k0)->0) as int) % den == 0,
    decreases 19 - k0,
{
    if !((ten_pow(k0) as int) % den == 0) {
        lemma_dec_scale(den, k0 + 1);
    }
}

proof fn lemma_ten_pow_pos(k: nat)
    ensures
        ten_pow(k) >= 1,
        k >= 1 ==> ten_pow(k) == 10 * ten_pow((k - 1) as nat),
    decreases k,
{
    if k > 0 {
        lemma_ten_pow_pos((k - 1) as nat);
    }
}

proof fn lemma_digits_concat(a: Seq<char>, b: Seq<char>)
    ensures
        digits_value(a + b) == digits_value(a) * ten_pow(b.len()) + digits_value(b),
    decreases b.len(),
{
    if b.len() == 0 {
        assert(a + b =~= a);
        assert(digits_value(b) == 0);
        assert(ten_pow(0) == 1);
    } else {
        lemma_digits_concat(a, b.drop_last());
        assert((a + b).drop_last() =~= a + b.drop_last());
        assert((a + b).last() == b.last());
        lemma_ten_pow_pos(b.len());
        let x = digits_value(a);
        let y = digits_value(b.drop_last());
        let t = ten_pow((b.len() - 1) as nat) as int;
        let dv = digit_value(b.last());
        assert((x * t + y) * 10 + dv == x * (10 * t) + (y * 10 + dv)) by (nonlinear_arith);
        assert(digits_value(a + b) == digits_value((a + b).drop_last()) * 10 + digit_value((a + b).last()));
        assert(digits_value(b) == y * 10 + dv);
        assert(ten_pow(b.len()) == 10 * t);
    }
}

proof fn lemma_zeros(z: nat)
    ensures
        zeros(z).len() == z,
        digits_value(zeros(z)) == 0,
        forall|k: int| 0 <= k < z ==> is_digit(#[trigger] zeros(z)[k]),
    decreases z,
{
    if z > 0 {
        lemma_zeros((z - 1) as nat);
        assert(zeros(z).drop_last() =~= zeros((z - 1) as nat));
        let zz = zeros(z);
        assert forall|k: int| 0 <= k < z implies is_digit(#[trigger] zz[k]) by {
            if k < z - 1 {
                assert(zz[k] == zeros((z - 1) as nat)[k]);
            }
        }
    }
}

proof fn lemma_nat_text_len(n: nat, k: nat)
    requires
        k >= 1,
        n < ten_pow(k),
    ensures
        nat_text(n).len() <= k,
    decreases n,
{
    if n >= 10 {
        lemma_ten_pow_pos(k);
        if k == 1 {
            assert(ten_pow(0) == 1);
        } else {
            assert(n / 10 < ten_pow((k - 1) as nat)) by (nonlinear_arith)
                requires
                    n < 10 * ten_pow((k - 1) as nat),
            ;
            lemma_nat_text_len(n / 10, (k - 1) as nat);
        }
    }
}

/// Reading the whole part `w` at `p`, up to the point after it.
proof fn lemma_read_whole(cs: Seq<char>, p: int, w: Seq<char>, k: int, top: int)
    requires
        0 <= p,
        p + w.len() + 1 < cs.len(),
        cs.subrange(p, p + w.len()) == w,
        w.len() > 0,
        forall|x: int| 0 <= x < w.len() ==> is_digit(#[trigger] w[x]),
        cs[p + w.len()] == '.',
        is_digit(cs[p + w.len() + 1]),
        digits_value(w) <= top <= i64::MAX,
        0 <= k < w.len(),
    ensures
        number_body(cs, (p + k) as nat, digits_value(w.subrange(0, k)), -1)
            == number_body(cs, (p + w.len() + 1) as nat, digits_value(w), 0),
        number_end(cs, (p + k) as nat) == number_end(cs, (p + w.len() + 1) as nat),
    decreases w.len() - k,
{
    assert(cs[p + k] == w[k]);
    let a = w.subrange(0, k + 1);
    assert(a.drop_last() =~= w.subrange(0, k));
    lemma_digits_prefix(w, k + 1);
    if k + 1 < w.len() {
        assert(cs[p + k + 1] == w[k + 1]);
        assert(!is_terminator(cs[p + k + 1]));
        assert(number_end(cs, (p + k) as nat) == number_end(cs, (p + k + 1) as nat));
        lemma_read_whole(cs, p, w, k + 1, top);
    } else {
        assert(a =~= w);
        assert(!is_terminator('.'));
        assert(!is_digit(cs[p + w.len()]));
        assert(number_end(cs, (p + k) as nat) == number_end(cs, (p + k + 1) as nat));
        assert(number_end(cs, (p + w.len()) as nat) == number_end(cs, (p + w.len() + 1) as nat));
    }
}

/// Reading the digits `f` after the point at `q`, the digits before them
/// being `pre`.
proof fn lemma_read_frac(cs: Seq<char>, q: int, pre: Seq<char>, f: Seq<char>, k: int)
    requires
        0 <= q,
        q + f.len() <= cs.len(),
        cs.subrange(q, q + f.len()) == f,
        f.len() > 0,
        forall|x: int| 0 <= x < f.len() ==> is_digit(#[trigger] f[x]),
        forall|x: int| 0 <= x < pre.len() ==> is_digit(#[trigger] pre[x]),
        q + f.len() == cs.len() || is_terminator(cs[q + f.len()]),
        digits_value(pre + f) <= i64::MAX,
        0 <= k < f.len(),
    ensures
        number_body(cs, (q + k) as nat, digits_value(pre + f.subrange(0, k)), k)
            == Some((digits_value(pre + f), f.len() as int)),
        number_end(cs, (q + k) as nat) == q + f.len(),
    decreases f.len() - k,
{
    assert(cs[q + k] == f[k]);
    let d = pre + f;
    assert forall|x: int| 0 <= x < d.len() implies is_digit(#[trigger] d[x]) by {
        if x < pre.len() {
            assert(d[x] == pre[x]);
        } else {
            assert(d[x] == f[x - pre.len()]);
        }
    }
    let a = pre + f.subrange(0, k + 1);
    assert(a.drop_last() =~= pre + f.subrange(0, k));
    assert(a.last() == f[k]);
    assert(a =~= d.subrange(0, pre.len() + k + 1));
    lemma_digits_prefix(d, pre.len() + k + 1);
    if k + 1 < f.len() {
        assert(cs[q + k + 1] == f[k + 1]);
        assert(!is_terminator(cs[q + k + 1]));
        lemma_read_frac(cs, q, pre, f, k + 1);
    } else {
        assert(a =~= d);
    }
}

proof fn lemma_gcd_scale(a: nat, b: nat, c: nat)
    requires
        c > 0,
    ensures
        gcd(a * c, b * c) == c * gcd(a, b),
    decreases b,
{
    if b == 0 {
        assert(b * c == 0) by (nonlinear_arith)
            requires
                b == 0,
        ;
        assert(a * c == c * a) by (nonlinear_arith);
    } else {
        assert(b * c > 0) by (nonlinear_arith)
            requires
                b > 0,
                c > 0,
        ;
        vstd::arithmetic::div_mod::lemma_truncate_middle(a as int, c as int, b as int);
        assert(a * c == c * a && b * c == c * b && (a % b) * c == c * (a % b)) by (nonlinear_arith);
        assert((a * c) % (b * c) == (a % b) * c);
        lemma_gcd_scale(b, a % b, c);
    }
}

/// A decimal number's text reads back as the number.
proof fn lemma_decimal(cs: Seq<char>, p: int, x: Num)
    requires
        decimal_ok(x),
        0 <= p,
        p + num_text(x).len() <= cs.len(),
        cs.subrange(p, p + num_text(x).len()) == num_text(x),
        p + num_text(x).len() == cs.len() || is_terminator(cs[p + num_text(x).len()]),
    ensures
        number_at(cs, p as nat) == Some(x),
        number_end(cs, p as nat) == p + num_text(x).len(),
        is_digit(num_text(x)[0]),
{
    let den = x.den as int;
    let k = dec_scale(den, 0)->0;
    lemma_dec_scale(den, 0);
    assert(k >= 1) by {
        if k == 0 {
            assert(ten_pow(0) == 1);
            vstd::arithmetic::div_mod::lemma_small_mod(1, den as nat);
        }
    }
    let a = x.num as int;
    assert(abs(a) == a);
    let tp = ten_pow(k) as int;
    lemma_ten_pow_pos(k);
    let c = tp / den;
    let whole = a / den;
    let frac = (a % den) * c;
    vstd::arithmetic::div_mod::lemma_fundamental_div_mod(tp, den);
    vstd::arithmetic::div_mod::lemma_fundamental_div_mod(a, den);
    assert(tp == den * c);
    assert(c >= 1) by (nonlinear_arith)
        requires
            tp == den * c,
            tp >= 1,
            den > 1,
    ;
    assert(0 <= a % den < den);
    assert(0 <= frac < tp) by (nonlinear_arith)
        requires
            frac == (a % den) * c,
            0 <= a % den < den,
            tp == den * c,
            c >= 1,
    ;
    assert(whole >= 0) by (nonlinear_arith)
        requires
            a >= 0,
            den > 0,
            whole == a / den,
    ;
    assert(whole * tp + frac == a * c) by (nonlinear_arith)
        requires
            a == den * whole + a % den,
            tp == den * c,
            frac == (a % den) * c,
    ;
    let wt = nat_text(whole as nat);
    let ft = nat_text(frac as nat);
    lemma_nat_text(whole as nat);
    lemma_nat_text(frac as nat);
    lemma_nat_text_len(frac as nat, k);
    let f = pad(ft, k);
    let z = (k - ft.len()) as nat;
    lemma_zeros(z);
    assert(f.len() == k);
    assert(f == zeros(z) + ft || f == ft);
    assert(digits_value(f) == frac) by {
        if ft.len() < k {
            lemma_digits_concat(zeros(z), ft);
        }
    }
    assert forall|y: int| 0 <= y < f.len() implies is_digit(#[trigger] f[y]) by {
        if ft.len() < k {
            if y < z {
                assert(f[y] == zeros(z)[y]);
            } else {
                assert(f[y] == ft[y - z]);
            }
        }
    }
    let txt = num_text(x);
    assert(txt == wt.push('.') + f);
    assert(txt[0] == wt[0]);
    let wl = wt.len() as int;
    assert forall|y: int| 0 <= y < txt.len() implies #[trigger] cs[p + y] == txt[y] by {
        assert(cs.subrange(p, p + txt.len())[y] == cs[p + y]);
    }
    assert(cs.subrange(p, p + wl) =~= wt) by {
        assert forall|y: int| 0 <= y < wl implies cs.subrange(p, p + wl)[y] == wt[y] by {
            assert(cs[p + y] == txt[y]);
        }
    }
    assert(cs[p + wl] == txt[wl]);
    assert(cs[p + wl + 1] == txt[wl + 1]);
    assert(txt[wl + 1] == f[0]);
    let q = p + wl + 1;
    assert(cs.subrange(q, q + f.len()) =~= f) by {
        assert forall|y: int| 0 <= y < f.len() implies cs.subrange(q, q + f.len())[y] == f[y] by {
            assert(cs[p + (wl + 1 + y)] == txt[wl + 1 + y]);
        }
    }
    lemma_digits_concat(wt, f);
    assert(digits_value(wt + f) == a * c);
    assert(a * c <= i64::MAX);
    let d = wt + f;
    assert forall|y: int| 0 <= y < d.len() implies is_digit(#[trigger] d[y]) by {
        if y < wl {
            assert(d[y] == wt[y]);
        } else {
            assert(d[y] == f[y - wl]);
        }
    }
    lemma_digits_prefix(d, wl);
    assert(d.subrange(0, wl) =~= wt);
    lemma_read_whole(cs, p, wt, 0, a * c);
    lemma_read_frac(cs, q, wt, f, 0);
    assert(wt.subrange(0, 0) =~= Seq::<char>::empty());
    assert(digits_value(Seq::<char>::empty()) == 0);
    assert(f.subrange(0, 0) =~= Seq::<char>::empty());
    assert(wt + Seq::<char>::empty() =~= wt);
    assert(number_body(cs, (p + wl) as nat, digits_value(wt), -1) == number_body(cs, q as nat, digits_value(wt), 0));
    assert(number_end(cs, (p + wl) as nat) == number_end(cs, q as nat));
    // the value
    assert(pow10(k) == ten_pow(k)) by {
        lemma_pow10_same(k);
    }
    lemma_gcd_scale(a as nat, den as nat, c as nat);
    assert(a * c == (a as nat) * (c as nat) && den * c == (den as nat) * (c as nat)) by (nonlinear_arith)
        requires
            a >= 0,
            den >= 0,
            c >= 0,
    ;
    assert(gcd(abs(a * c), (den * c) as nat) == c);
    assert((a * c) / c == a && (den * c) / c == den) by (nonlinear_arith)
        requires
            c >= 1,
    ;
    assert((abs(a * c) as int) / c == a) by {
        assert(a * c >= 0) by (nonlinear_arith)
            requires
                a >= 0,
                c >= 1,
        ;
    }
    assert(make(a * c, den * c) == Some(x));
}

proof fn lemma_decimal_first(x: Num)
    requires
        decimal_ok(x),
    ensures
        num_text(x).len() > 0,
        is_digit(num_text(x)[0]),
{
    let k = dec_scale(x.den as int, 0)->0;
    let a = x.num as int;
    assert(abs(a) == a);
    let whole = a / (x.den as int);
    assert(whole >= 0) by (nonlinear_arith)
        requires
            a >= 0,
            x.den > 0,
            whole == a / (x.den as int),
    ;
    lemma_nat_text(whole as nat);
    let wt = nat_text(whole as nat);
    assert(num_text(x)[0] == wt[0]);
}

proof fn lemma_pow10_same(k: nat)
    ensures
        pow10(k) == ten_pow(k),
    decreases k,
{
    if k > 0 {
        lemma_pow10_same((k - 1) as nat);
    }
}

proof fn lemma_show_all_prefix(l: Seq<AstV>, m: int, n: int, level: nat)
    requires
        0 <= m <= n <= l.len(),
    ensures
        show_all(l, m as nat, level).len() <= show_all(l, n as nat, level).len(),
        show_all(l, n as nat, level).subrange(0, show_all(l, m as nat, level).len() as int) == show_all(l, m as nat, level),
    decreases n - m,
{
    if m < n {
        lemma_show_all_prefix(l, m, n - 1, level);
        let a = show_all(l, (n - 1) as nat, level);
        let b = show_all(l, n as nat, level);
        assert(b == a + show(l[n - 1], level) + "\n"@);
        assert(b.subrange(0, a.len() as int) =~= a);
        assert(b.subrange(0, show_all(l, m as nat, level).len() as int) =~= a.subrange(0, show_all(l, m as nat, level).len() as int));
    } else {
        assert(show_all(l, n as nat, level).subrange(0, show_all(l, n as nat, level).len() as int) =~= show_all(l, n as nat, level));
    }
}

/// Where the blanks before child `k` of an expression printed at `i`
/// start: the line feed before it.
pub open spec fn child_at(i: int, l: Seq<AstV>, level: nat, k: int) -> int {
    i + 4 * level + 1 + show_all(l, k as nat, deeper(level)).len()
}

proof fn lemma_first_not_ws(t: AstV, level: nat)
    requires
        printable(t),
    ensures
        show(t, level).len() > 4 * level,
        !is_ws(show(t, level)[4 * level as int]),
        show(t, level)[4 * level as int] != ';',
        forall|k: int| 0 <= k < 4 * level ==> #[trigger] show(t, level)[k] == ' ',
{
    lemma_spaces(4 * level);
    reveal_strlit("(\n");
    reveal_strlit("\"");
    match t {
        AstV::Ident(s) => {
            assert(show(t, level) == spaces(4 * level) + s);
            assert(show(t, level)[4 * level as int] == s[0]);
        },
        AstV::Str(s) => {
            assert(show(t, level) == spaces(4 * level) + "\""@ + s + "\""@);
        },
        AstV::Expr(l) => {
            assert(show(t, level) == spaces(4 * level) + "(\n"@ + show_all(l, l.len(), deeper(level)) + spaces(4 * level) + ")"@);
        },
        AstV::Number(n) => {
            assert(show(t, level) == spaces(4 * level) + num_text(n));
            assert(show(t, level)[4 * level as int] == num_text(n)[0]);
            if n.den == 1 {
                lemma_nat_text(n.num as nat);
                assert(num_text(n) == nat_text(n.num as nat));
                assert(is_digit(nat_text(n.num as nat)[0]));
            } else {
                lemma_decimal_first(n);
            }
        },
    }
}

/// Parsing from any blank before a printed tree reads the tree.
proof fn lemma_parse_printed(cs: Seq<char>, i: int, t: AstV, level: nat)
    requires
        printable(t),
        0 <= i,
        i + show(t, level).len() <= cs.len(),
        cs.subrange(i, i + show(t, level).len()) == show(t, level),
        i + show(t, level).len() == cs.len() || cs[i + show(t, level).len()] == '\n',
    ensures
        parse_expr(cs, i as nat) == Some((t, (i + show(t, level).len()) as nat)),
    decreases t, 2int,
{
    let txt = show(t, level);
    let n = txt.len() as int;
    let sp = 4 * level;
    let p = i + sp;
    lemma_spaces(sp);
    reveal_strlit("\n");
    lemma_first_not_ws(t, level);
    assert forall|m: int| 0 <= m < n implies #[trigger] cs[i + m] == txt[m] by {
        assert(cs.subrange(i, i + n)[m] == cs[i + m]);
    }
    assert forall|k: int| i <= k < p implies is_ws(#[trigger] cs[k]) by {
        assert(cs[i + (k - i)] == txt[k - i]);
    }
    lemma_skip_run(cs, i, p);
    assert(cs[i + sp] == txt[sp as int]);
    assert(skip_ws(cs, p as nat) == p);
    reveal_strlit("(\n");
    reveal_strlit("\"");
    reveal_strlit(")");
    match t {
        AstV::Ident(s) => {
            assert(txt == spaces(sp) + s);
            assert(cs.subrange(p, p + s.len()) =~= s) by {
                assert forall|x: int| 0 <= x < s.len() implies cs.subrange(p, p + s.len())[x] == s[x] by {
                    assert(cs[i + (sp + x)] == txt[sp + x]);
                }
            }
            lemma_ident_end(cs, p, s, 1);
            assert(cs.subrange(p, ident_end(cs, (p + 1) as nat) as int) == s);
            assert(lexeme_at(cs, i as nat) == Lexeme::Identifier(s));
        },
        AstV::Str(s) => {
            assert(txt == spaces(sp) + "\""@ + s + "\""@);
            assert(cs.subrange(p + 1, p + 1 + s.len()) =~= s) by {
                assert forall|x: int| 0 <= x < s.len() implies cs.subrange(p + 1, p + 1 + s.len())[x] == s[x] by {
                    assert(cs[i + (sp + 1 + x)] == txt[sp + 1 + x]);
                }
            }
            assert(cs[i + (sp + 1 + s.len())] == txt[sp + 1 + s.len() as int]);
            lemma_string(cs, p + 1, s, 0);
            assert(s.subrange(0, s.len() as int) =~= s);
            assert(lexeme_at(cs, i as nat) == Lexeme::StringLit(s));
        },
        AstV::Expr(l) => {
            lemma_parse_children_printed(cs, i, l, level, 0);
            lemma_parse_children_printed(cs, i, l, level, l.len() as int);
            let y_end = child_at(i, l, level, l.len() as int);
            assert(l.subrange(0, l.len() as int) =~= l);
            assert(lexeme_at(cs, i as nat) == Lexeme::Lparen);
            assert(lexeme_end(cs, i as nat) == p + 1);
            assert(child_at(i, l, level, 0) == p + 1);
            lemma_close(cs, i, l, level);
        },
        AstV::Number(x) => if x.den != 1 {
            assert(txt == spaces(sp) + num_text(x));
            let d = num_text(x);
            assert(cs.subrange(p, p + d.len()) =~= d) by {
                assert forall|y: int| 0 <= y < d.len() implies cs.subrange(p, p + d.len())[y] == d[y] by {
                    assert(cs[i + (sp + y)] == txt[sp + y]);
                }
            }
            assert(p + d.len() == cs.len() || is_terminator(cs[p + d.len()]));
            lemma_decimal(cs, p, x);
            assert(lexeme_at(cs, i as nat) == Lexeme::Number(x));
        } else {
            let d = nat_text(x.num as nat);
            lemma_nat_text(x.num as nat);
            assert(num_text(x) == d);
            assert(txt == spaces(sp) + d);
            assert(cs.subrange(p, p + d.len()) =~= d) by {
                assert forall|y: int| 0 <= y < d.len() implies cs.subrange(p, p + d.len())[y] == d[y] by {
                    assert(cs[i + (sp + y)] == txt[sp + y]);
                }
            }
            assert(p + d.len() == cs.len() || is_terminator(cs[p + d.len()]));
            lemma_number_digits(cs, p, d, 0);
            assert(d.subrange(0, 0) =~= Seq::<char>::empty());
            assert(digits_value(Seq::<char>::empty()) == 0);
            assert(pow10(0) == 1);
            lemma_make_whole(x.num as int);
            assert(number_at(cs, p as nat) == Some(x));
            assert(lexeme_at(cs, i as nat) == Lexeme::Number(x));
        },
    }
}

/// The facts about where an expression printed at `i` closes.
proof fn lemma_close(cs: Seq<char>, i: int, l: Seq<AstV>, level: nat)
    requires
        0 <= i,
        i + show(AstV::Expr(l), level).len() <= cs.len(),
        cs.subrange(i, i + show(AstV::Expr(l), level).len()) == show(AstV::Expr(l), level),
    ensures
        lexeme_at(cs, child_at(i, l, level, l.len() as int) as nat) == Lexeme::Rparen,
        lexeme_end(cs, child_at(i, l, level, l.len() as int) as nat) == i + show(AstV::Expr(l), level).len(),
        cs[child_at(i, l, level, l.len() as int)] == '\n',
{
    let sp = 4 * level;
    let sa = show_all(l, l.len(), deeper(level));
    let txt = show(AstV::Expr(l), level);
    reveal_strlit("(\n");
    reveal_strlit(")");
    reveal_strlit("\n");
    lemma_spaces(sp);
    assert(txt == spaces(sp) + "(\n"@ + sa + spaces(sp) + ")"@);
    assert(txt.len() == sp + 2 + sa.len() + sp + 1);
    assert forall|m: int| 0 <= m < txt.len() implies #[trigger] cs[i + m] == txt[m] by {
        assert(cs.subrange(i, i + txt.len())[m] == cs[i + m]);
    }
    let y = child_at(i, l, level, l.len() as int);
    let e = i + sp + 2 + sa.len();
    assert(y == e - 1);
    if l.len() > 0 {
        assert(sa == show_all(l, (l.len() - 1) as nat, deeper(level)) + show(l[l.len() - 1], deeper(level)) + "\n"@);
        assert(cs[y] == txt[y - i]);
        assert(txt[y - i] == sa[sa.len() - 1]);
    } else {
        assert(cs[y] == txt[y - i]);
    }
    assert forall|k: int| y <= k < e + sp implies is_ws(#[trigger] cs[k]) by {
        assert(cs[k] == txt[k - i]);
        if k >= e {
            assert(txt[k - i] == spaces(sp)[k - e]);
        }
    }
    lemma_skip_run(cs, y, e + sp);
    assert(cs[e + sp] == txt[e + sp - i]);
    assert(cs[e + sp] == ')');
    assert(skip_ws(cs, (e + sp) as nat) == e + sp);
}

/// Parsing the children of an expression printed at `i`, from the line
/// feed before child `k`, reads children `k..` and stops at the line feed
/// before the closing parenthesis.
proof fn lemma_parse_children_printed(cs: Seq<char>, i: int, l: Seq<AstV>, level: nat, k: int)
    requires
        printable(AstV::Expr(l)),
        0 <= i,
        i + show(AstV::Expr(l), level).len() <= cs.len(),
        cs.subrange(i, i + show(AstV::Expr(l), level).len()) == show(AstV::Expr(l), level),
        0 <= k <= l.len(),
    ensures
        parse_children(cs, child_at(i, l, level, k) as nat)
            == Some((l.subrange(k, l.len() as int), child_at(i, l, level, l.len() as int) as nat)),
    decreases l, 1int, l.len() - k,
{
    let sp = 4 * level;
    let lv = deeper(level);
    let sa = show_all(l, l.len(), lv);
    let txt = show(AstV::Expr(l), level);
    reveal_strlit("(\n");
    reveal_strlit(")");
    reveal_strlit("\n");
    lemma_spaces(sp);
    assert(txt == spaces(sp) + "(\n"@ + sa + spaces(sp) + ")"@);
    assert(txt.len() == sp + 2 + sa.len() + sp + 1);
    assert forall|m: int| 0 <= m < txt.len() implies #[trigger] cs[i + m] == txt[m] by {
        assert(cs.subrange(i, i + txt.len())[m] == cs[i + m]);
    }
    let y = child_at(i, l, level, k);
    if k == l.len() {
        lemma_close(cs, i, l, level);
        assert(l.subrange(k, l.len() as int) =~= Seq::<AstV>::empty());
    } else {
        let c = l[k];
        lemma_printable_all(l, l.len() as int, k);
        let before = show_all(l, k as nat, lv);
        let upto = show_all(l, (k + 1) as nat, lv);
        lemma_show_all_prefix(l, k + 1, l.len() as int, lv);
        assert(upto == before + show(c, lv) + "\n"@);
        let b = i + sp + 2;
        let ct = show(c, lv);
        assert(y == b - 1 + before.len());
        // the line feed before the child
        assert(cs[y] == txt[y - i]);
        if k == 0 {
            assert(txt[y - i] == '\n');
        } else {
            assert(before == show_all(l, (k - 1) as nat, lv) + show(l[k - 1], lv) + "\n"@);
            lemma_show_all_prefix(l, k, l.len() as int, lv);
            assert(sa[before.len() - 1] == before[before.len() - 1]);
            assert(txt[y - i] == sa[before.len() - 1]);
        }
        assert(is_ws(cs[y]));
        // the child's text
        assert(cs.subrange(y + 1, y + 1 + ct.len()) =~= ct) by {
            assert forall|x: int| 0 <= x < ct.len() implies cs.subrange(y + 1, y + 1 + ct.len())[x] == ct[x] by {
                assert(cs[y + 1 + x] == txt[y + 1 + x - i]);
                assert(txt[y + 1 + x - i] == sa[before.len() + x]);
                assert(sa[before.len() + x] == upto[before.len() + x]);
            }
        }
        assert(cs[y + 1 + ct.len()] == txt[y + 1 + ct.len() - i]);
        assert(txt[y + 1 + ct.len() - i] == sa[before.len() + ct.len() as int]);
        assert(sa[before.len() + ct.len() as int] == upto[before.len() + ct.len() as int]);
        lemma_parse_printed(cs, y + 1, c, lv);
        lemma_skip_run(cs, y, y + 1);
        assert(lexeme_at(cs, y as nat) == lexeme_at(cs, (y + 1) as nat));
        assert(lexeme_end(cs, y as nat) == lexeme_end(cs, (y + 1) as nat));
        assert(parse_expr(cs, y as nat) == parse_expr(cs, (y + 1) as nat));
        assert(child_at(i, l, level, k + 1) == y + 1 + ct.len());
        lemma_parse_children_printed(cs, i, l, level, k + 1);
        assert(seq![c] + l.subrange(k + 1, l.len() as int) =~= l.subrange(k, l.len() as int));
    }
}

/// Printing a tree and parsing the text gives the tree back, for trees
/// whose names lex as identifiers, whose strings hold no quote or
/// backslash, and whose numbers are whole and not negative or print in
/// decimal form (see [`decimal_ok`]).
pub proof fn lemma_print_then_parse(t: AstV)
    requires
        printable(t),
    ensures
        parse_program(show(t, 0), 0) == Some(seq![t]),
{
    let cs = show(t, 0);
    assert(cs.subrange(0, cs.len() as int) =~= cs);
    lemma_parse_printed(cs, 0, t, 0);
    lemma_first_not_ws(t, 0);
    assert(skip_ws(cs, 0) == 0);
    let n = cs.len();
    assert(skip_ws(cs, n) == n);
    assert(lexeme_at(cs, n) is Eof);
    assert(parse_program(cs, n) == Some(Seq::<AstV>::empty()));
    assert(seq![t] + Seq::<AstV>::empty() =~= seq![t]);
}

} // verus!
