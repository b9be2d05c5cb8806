//! The decimal value of a float text, and whether std's `f64` parse rounds it to infinity.
use vstd::prelude::*;
use crate::text::{
    all_digits, digit_value, digits_value, exponent_ok, is_digit, is_exp_mark, lemma_mantissa_chars,
    float_text, lemma_nonzero_digit, mantissa_ok, number_ok, text_less, text_lt, unsigned_part,
};

verus! {

/// Ten to the power `e`.
pub open spec fn ten_pow(e: nat) -> nat
    decreases e,
{
    if e == 0 {
        1
    } else {
        10 * ten_pow((e - 1) as nat)
    }
}

/// The decimal digits of 2^1024 - 2^970: the value halfway between the largest finite
/// `f64`, 2^1024 - 2^971, and 2^1024.
pub open spec fn bound_digits() -> Seq<char> {
    seq!['1', '7', '9', '7', '6', '9', '3', '1', '3', '4', '8', '6', '2', '3', '1', '5', '8', '0', '7', '9', '3', '7', '2', '8', '9', '7', '1', '4', '0', '5', '3', '0', '3', '4', '1', '5', '0', '7', '9', '9', '3', '4', '1', '3', '2', '7', '1', '0', '0', '3', '7', '8', '2', '6', '9', '3', '6', '1', '7', '3', '7', '7', '8', '9', '8', '0', '4', '4', '4', '9', '6', '8', '2', '9', '2', '7', '6', '4', '7', '5', '0', '9', '4', '6', '6', '4', '9', '0', '1', '7', '9', '7', '7', '5', '8', '7', '2', '0', '7', '0', '9', '6', '3', '3', '0', '2', '8', '6', '4', '1', '6', '6', '9', '2', '8', '8', '7', '9', '1', '0', '9', '4', '6', '5', '5', '5', '5', '4', '7', '8', '5', '1', '9', '4', '0', '4', '0', '2', '6', '3', '0', '6', '5', '7', '4', '8', '8', '6', '7', '1', '5', '0', '5', '8', '2', '0', '6', '8', '1', '9', '0', '8', '9', '0', '2', '0', '0', '0', '7', '0', '8', '3', '8', '3', '6', '7', '6', '2', '7', '3', '8', '5', '4', '8', '4', '5', '8', '1', '7', '7', '1', '1', '5', '3', '1', '7', '6', '4', '4', '7', '5', '7', '3', '0', '2', '7', '0', '0', '6', '9', '8', '5', '5', '5', '7', '1', '3', '6', '6', '9', '5', '9', '6', '2', '2', '8', '4', '2', '9', '1', '4', '8', '1', '9', '8', '6', '0', '8', '3', '4', '9', '3', '6', '4', '7', '5', '2', '9', '2', '7', '1', '9', '0', '7', '4', '1', '6', '8', '4', '4', '4', '3', '6', '5', '5', '1', '0', '7', '0', '4', '3', '4', '2', '7', '1', '1', '5', '5', '9', '6', '9', '9', '5', '0', '8', '0', '9', '3', '0', '4', '2', '8', '8', '0', '1', '7', '7', '9', '0', '4', '1', '7', '4', '4', '9', '7', '7', '9', '2']
}

/// The least value that std's `f64` parse, which rounds to nearest with ties to even,
/// rounds to infinity.
pub open spec fn f64_overflow_bound() -> nat {
    digits_value(bound_digits())
}

/// Position of the first exponent mark in `b`, or its length.
pub open spec fn exp_pos(b: Seq<char>) -> nat
    decreases b.len(),
{
    if b.len() == 0 || is_exp_mark(b[0]) {
        0
    } else {
        1 + exp_pos(b.drop_first())
    }
}

/// How many characters follow the first point of `m`; none without a point.
pub open spec fn after_point(m: Seq<char>) -> nat
    decreases m.len(),
{
    if m.len() == 0 {
        0
    } else if m[0] == '.' {
        (m.len() - 1) as nat
    } else {
        after_point(m.drop_first())
    }
}

/// The value of an exponent text: its digits, negated after a minus sign.
pub open spec fn exp_value(e: Seq<char>) -> int {
    if e.len() > 0 && e[0] == '-' {
        -digits_value(e.drop_first())
    } else {
        digits_value(unsigned_part(e)) as int
    }
}

/// The digits of a mantissa, its point left out.
pub open spec fn mantissa_digits(m: Seq<char>) -> Seq<char> {
    m.filter(|c: char| c != '.')
}

/// `n` zero digits.
pub open spec fn zeros(n: nat) -> Seq<char> {
    Seq::new(n, |i: int| '0')
}

/// The float text `t` has a value at least `f64_overflow_bound`: its mantissa digits, point
/// left out, as an integer `d`, times ten to its exponent less the digits after the point.
pub open spec fn float_overflows(t: Seq<char>) -> bool {
    let b = unsigned_part(t);
    let p = exp_pos(b);
    let m = b.take(p as int);
    let d = digits_value(mantissa_digits(m));
    let e = if p < b.len() {
        b.skip(p as int + 1)
    } else {
        Seq::empty()
    };
    let de = exp_value(e) - after_point(m);
    d * ten_pow(if de >= 0 {
        de as nat
    } else {
        0
    }) >= f64_overflow_bound() * ten_pow(if de < 0 {
        (-de) as nat
    } else {
        0
    })
}

pub proof fn lemma_ten_pow_adds(a: nat, b: nat)
    ensures
        ten_pow(a + b) == ten_pow(a) * ten_pow(b),
        ten_pow(a) >= 1,
    decreases b,
{
    if b == 0 {
        lemma_ten_pow_positive(a);
        assert(a + b == a);
        assert(ten_pow(0) == 1);
    } else {
        lemma_ten_pow_adds(a, (b - 1) as nat);
        let x = ten_pow(a);
        let y = ten_pow((b - 1) as nat);
        assert((a + b - 1) as nat == a + (b - 1) as nat);
        assert(ten_pow(a + b) == 10 * ten_pow((a + b - 1) as nat));
        assert(ten_pow(b) == 10 * y);
        assert(10 * (x * y) == x * (10 * y)) by (nonlinear_arith);
    }
}

pub proof fn lemma_ten_pow_positive(a: nat)
    ensures
        ten_pow(a) >= 1,
    decreases a,
{
    if a > 0 {
        lemma_ten_pow_positive((a - 1) as nat);
    }
}

pub proof fn lemma_ten_pow_mono(a: nat, b: nat)
    requires
        a <= b,
    ensures
        ten_pow(a) <= ten_pow(b),
{
    lemma_ten_pow_adds(a, (b - a) as nat);
    lemma_ten_pow_positive((b - a) as nat);
    let x = ten_pow(a);
    let y = ten_pow((b - a) as nat);
    assert(x <= x * y) by (nonlinear_arith)
        requires
            y >= 1,
            x >= 1,
    ;
    assert(a + (b - a) == b);
}

/// A string of `n` digits is less than ten to the `n`.
pub proof fn lemma_digits_below(s: Seq<char>)
    requires
        all_digits(s),
    ensures
        digits_value(s) < ten_pow(s.len()),
    decreases s.len(),
{
    if s.len() > 0 {
        let init = s.drop_last();
        assert(all_digits(init)) by {
            assert forall|i: int| 0 <= i < init.len() implies is_digit(#[trigger] init[i]) by {
                assert(init[i] == s[i]);
            }
        }
        lemma_digits_below(init);
        assert(is_digit(s[s.len() - 1]));
        let x = digits_value(init) as int;
        let p = ten_pow(init.len()) as int;
        let d = digit_value(s.last());
        assert(x * 10 + d < 10 * p) by (nonlinear_arith)
            requires
                x < p,
                0 <= d < 10,
        ;
    }
}

/// A string of `n` digits that does not start with zero is at least ten to the `n - 1`.
pub proof fn lemma_digits_above(s: Seq<char>)
    requires
        all_digits(s),
        s.len() > 0,
        s[0] != '0',
    ensures
        digits_value(s) >= ten_pow((s.len() - 1) as nat),
    decreases s.len(),
{
    let init = s.drop_last();
    assert(is_digit(s[s.len() - 1]));
    if s.len() == 1 {
        assert(init.len() == 0);
        assert(digits_value(init) == 0);
        assert(s.last() == s[0]);
        assert(is_digit(s[0]));
        lemma_nonzero_digit(s[0]);
    } else {
        assert(all_digits(init)) by {
            assert forall|i: int| 0 <= i < init.len() implies is_digit(#[trigger] init[i]) by {
                assert(init[i] == s[i]);
            }
        }
        assert(init[0] == s[0]);
        lemma_digits_above(init);
        let x = digits_value(init) as int;
        let p = ten_pow((init.len() - 1) as nat) as int;
        let d = digit_value(s.last());
        assert(ten_pow((s.len() - 1) as nat) == 10 * p);
        assert(x * 10 + d >= 10 * p) by (nonlinear_arith)
            requires
                x >= p,
                0 <= d,
        ;
    }
}

/// Zeros appended multiply by ten to their number.
pub proof fn lemma_digits_pad(s: Seq<char>, n: nat)
    ensures
        digits_value(s + zeros(n)) == digits_value(s) * ten_pow(n),
    decreases n,
{
    if n == 0 {
        assert(s + zeros(0) =~= s);
        assert(ten_pow(0) == 1);
        assert(digits_value(s + zeros(n)) == digits_value(s));
    } else {
        lemma_digits_pad(s, (n - 1) as nat);
        let a = s + zeros(n);
        assert(a.drop_last() =~= s + zeros((n - 1) as nat));
        assert(a.last() == '0');
        assert(digit_value('0') == 0);
        let x = digits_value(s) as int;
        let y = ten_pow((n - 1) as nat) as int;
        assert(ten_pow(n) == 10 * y);
        assert(digits_value(a) == digits_value(a.drop_last()) * 10 + digit_value(a.last()));
        assert((x * y) * 10 == x * (10 * y)) by (nonlinear_arith);
    }
}

/// Zeros in front change nothing.
pub proof fn lemma_digits_leading_zeros(n: nat, s: Seq<char>)
    ensures
        digits_value(zeros(n) + s) == digits_value(s),
    decreases s.len(), n,
{
    if s.len() == 0 {
        assert(zeros(n) + s =~= zeros(n));
        if n > 0 {
            lemma_digits_leading_zeros((n - 1) as nat, s);
            assert(zeros(n).drop_last() =~= zeros((n - 1) as nat) + s);
            assert(zeros(n).last() == '0');
        }
    } else {
        lemma_digits_leading_zeros(n, s.drop_last());
        assert((zeros(n) + s).drop_last() =~= zeros(n) + s.drop_last());
        assert((zeros(n) + s).last() == s.last());
    }
}

/// A string of digits is its first digit times ten to the rest's length, plus the rest.
pub proof fn lemma_digits_front(s: Seq<char>)
    requires
        s.len() > 0,
        all_digits(s),
    ensures
        digits_value(s) == digit_value(s[0]) * ten_pow((s.len() - 1) as nat) + digits_value(
            s.drop_first(),
        ),
    decreases s.len(),
{
    if s.len() == 1 {
        assert(s.drop_last().len() == 0);
        assert(s.drop_first().len() == 0);
        assert(digits_value(s.drop_last()) == 0);
        assert(digits_value(s.drop_first()) == 0);
        assert(s.last() == s[0]);
        assert(is_digit(s[0]));
        assert(ten_pow(0) == 1);
        assert(digits_value(s) == digit_value(s[0]));
    } else {
        let init = s.drop_last();
        assert(all_digits(init)) by {
            assert forall|i: int| 0 <= i < init.len() implies is_digit(#[trigger] init[i]) by {
                assert(init[i] == s[i]);
            }
        }
        assert(is_digit(s[s.len() - 1]));
        lemma_digits_front(init);
        assert(init[0] == s[0]);
        assert(s.drop_first().drop_last() =~= init.drop_first());
        assert(s.drop_first().last() == s.last());
        let c = digit_value(s[0]);
        let p = ten_pow((init.len() - 1) as nat) as int;
        let r = digits_value(init.drop_first()) as int;
        let dl = digit_value(s.last());
        assert(digits_value(s) == digits_value(init) * 10 + dl);
        assert(digits_value(s.drop_first()) == r * 10 + dl);
        assert(ten_pow((s.len() - 1) as nat) == 10 * p);
        assert((c * p + r) * 10 == c * (10 * p) + r * 10) by (nonlinear_arith);
    }
}

/// Characters compare as their code points.
proof fn lemma_char_order(a: char, b: char)
    ensures
        (a < b) <==> ((a as u32) < (b as u32)),
        (a == b) <==> ((a as u32) == (b as u32)),
{
}

/// On digit strings of one length, the order of texts is the order of their values.
pub proof fn lemma_digits_order(a: Seq<char>, b: Seq<char>)
    requires
        a.len() == b.len(),
        all_digits(a),
        all_digits(b),
    ensures
        text_lt(a, b) <==> digits_value(a) < digits_value(b),
    decreases a.len(),
{
    if a.len() > 0 {
        let ra = a.drop_first();
        let rb = b.drop_first();
        assert(all_digits(ra)) by {
            assert forall|i: int| 0 <= i < ra.len() implies is_digit(#[trigger] ra[i]) by {
                assert(ra[i] == a[i + 1]);
            }
        }
        assert(all_digits(rb)) by {
            assert forall|i: int| 0 <= i < rb.len() implies is_digit(#[trigger] rb[i]) by {
                assert(rb[i] == b[i + 1]);
            }
        }
        lemma_digits_order(ra, rb);
        lemma_digits_front(a);
        lemma_digits_front(b);
        lemma_digits_below(ra);
        lemma_digits_below(rb);
        assert(is_digit(a[0]) && is_digit(b[0]));
        lemma_char_order(a[0], b[0]);
        let p = ten_pow(ra.len()) as int;
        let x = digit_value(a[0]);
        let y = digit_value(b[0]);
        let u = digits_value(ra) as int;
        let v = digits_value(rb) as int;
        if x < y {
            assert(x * p + u < y * p + v) by (nonlinear_arith)
                requires
                    x < y,
                    0 <= u < p,
                    0 <= v,
            ;
        } else if y < x {
            assert(y * p + v < x * p + u) by (nonlinear_arith)
                requires
                    y < x,
                    0 <= v < p,
                    0 <= u,
            ;
        }
    } else {
        assert(a =~= b);
    }
}

/// The bound has 309 digits and starts with one.
pub proof fn lemma_bound_digits()
    ensures
        bound_digits().len() == 309,
        all_digits(bound_digits()),
        bound_digits()[0] == '1',
        ten_pow(308) <= f64_overflow_bound() < ten_pow(309),
{
    let s = bound_digits();
    assert(s.len() == 309);
    assert(all_digits(s));
    lemma_digits_above(s);
    lemma_digits_below(s);
}

proof fn lemma_exp_pos(b: Seq<char>, k: int)
    requires
        0 <= k <= b.len(),
        forall|i: int| 0 <= i < k ==> !is_exp_mark(#[trigger] b[i]),
        k == b.len() || is_exp_mark(b[k]),
    ensures
        exp_pos(b) == k,
    decreases k,
{
    if k > 0 {
        let r = b.drop_first();
        assert forall|i: int| 0 <= i < k - 1 implies !is_exp_mark(#[trigger] r[i]) by {
            assert(r[i] == b[i + 1]);
            assert(!is_exp_mark(b[i + 1]));
        }
        assert(!is_exp_mark(b[0]));
        if k < b.len() {
            assert(r[k - 1] == b[k]);
        }
        lemma_exp_pos(r, k - 1);
    }
}

/// A number text splits at its first exponent mark into a mantissa and, when there is a
/// mark, an exponent.
proof fn lemma_float_parts(b: Seq<char>)
    requires
        number_ok(b),
    ensures
        exp_pos(b) <= b.len(),
        mantissa_ok(b.take(exp_pos(b) as int)),
        exp_pos(b) < b.len() ==> exponent_ok(b.skip(exp_pos(b) as int + 1)),
{
    if mantissa_ok(b) {
        lemma_mantissa_chars(b);
        assert forall|i: int| 0 <= i < b.len() implies !is_exp_mark(#[trigger] b[i]) by {}
        lemma_exp_pos(b, b.len() as int);
        assert(b.take(b.len() as int) =~= b);
    } else {
        let j = choose|j: int|
            0 <= j < b.len() && is_exp_mark(b[j]) && mantissa_ok(b.take(j)) && exponent_ok(
                b.skip(j + 1),
            );
        lemma_mantissa_chars(b.take(j));
        assert forall|i: int| 0 <= i < j implies !is_exp_mark(#[trigger] b[i]) by {
            assert(b.take(j)[i] == b[i]);
        }
        lemma_exp_pos(b, j);
    }
}

proof fn lemma_after_point(m: Seq<char>, pt: int)
    requires
        0 <= pt <= m.len(),
        forall|i: int| 0 <= i < pt ==> #[trigger] m[i] != '.',
        pt == m.len() || m[pt] == '.',
    ensures
        after_point(m) == (if pt < m.len() {
            m.len() - pt - 1
        } else {
            0
        }),
    decreases pt,
{
    if pt > 0 {
        let r = m.drop_first();
        assert forall|i: int| 0 <= i < pt - 1 implies #[trigger] r[i] != '.' by {
            assert(r[i] == m[i + 1]);
            assert(m[i + 1] != '.');
        }
        assert(m[0] != '.');
        if pt < m.len() {
            assert(r[pt - 1] == m[pt]);
        }
        lemma_after_point(r, pt - 1);
    } else if m.len() > 0 {
        assert(m[0] == '.');
    }
}

/// How a value compares with the bound follows from its number of digits, except when the
/// digits and the exponent place it among the values with as many integer digits as the
/// bound; then the digit strings, padded with zeros, compare as texts.
proof fn lemma_overflow_decision(sig: Seq<char>, de: int)
    requires
        all_digits(sig),
        sig.len() > 0,
        sig[0] != '0',
    ensures
        ({
            let pp: nat = if de >= 0 { de as nat } else { 0 };
            let qq: nat = if de < 0 { (-de) as nat } else { 0 };
            let big = digits_value(sig) * ten_pow(pp) >= f64_overflow_bound() * ten_pow(qq);
            &&& sig.len() + de <= 308 ==> !big
            &&& sig.len() + de >= 310 ==> big
            &&& sig.len() + de == 309 ==> (big <==> !text_lt(sig + zeros(pp), bound_digits() + zeros(qq)))
        }),
{
    let pp: nat = if de >= 0 { de as nat } else { 0 };
    let qq: nat = if de < 0 { (-de) as nat } else { 0 };
    let n = sig.len();
    let d = digits_value(sig) as int;
    let bnd = f64_overflow_bound() as int;
    lemma_bound_digits();
    lemma_digits_below(sig);
    lemma_digits_above(sig);
    lemma_ten_pow_positive(pp);
    lemma_ten_pow_positive(qq);
    let tp = ten_pow(pp) as int;
    let tq = ten_pow(qq) as int;
    let k = n + de;
    assert(n + pp == k + qq);
    if k <= 308 {
        lemma_ten_pow_adds(n, pp);
        lemma_ten_pow_adds(308, qq);
        lemma_ten_pow_mono(n + pp, 308 + qq);
        let tn = ten_pow(n) as int;
        let t8 = ten_pow(308) as int;
        assert(d * tp < tn * tp) by (nonlinear_arith)
            requires
                d < tn,
                tp >= 1,
        ;
        assert(t8 * tq <= bnd * tq) by (nonlinear_arith)
            requires
                t8 <= bnd,
                tq >= 1,
        ;
    }
    if k >= 310 {
        lemma_ten_pow_adds((n - 1) as nat, pp);
        lemma_ten_pow_adds(309, qq);
        lemma_ten_pow_mono(309 + qq, (n - 1 + pp) as nat);
        let tn = ten_pow((n - 1) as nat) as int;
        let t9 = ten_pow(309) as int;
        assert(d * tp >= tn * tp) by (nonlinear_arith)
            requires
                d >= tn,
                tp >= 1,
        ;
        assert(t9 * tq > bnd * tq) by (nonlinear_arith)
            requires
                t9 > bnd,
                tq >= 1,
        ;
    }
    if k == 309 {
        let a = sig + zeros(pp);
        let c = bound_digits() + zeros(qq);
        lemma_digits_pad(sig, pp);
        lemma_digits_pad(bound_digits(), qq);
        assert(all_digits(a)) by {
            assert forall|i: int| 0 <= i < a.len() implies is_digit(#[trigger] a[i]) by {
                if i >= n {
                    assert(a[i] == '0');
                }
            }
        }
        assert(all_digits(c)) by {
            assert forall|i: int| 0 <= i < c.len() implies is_digit(#[trigger] c[i]) by {
                if i >= 309 {
                    assert(c[i] == '0');
                }
            }
        }
        lemma_digits_order(a, c);
    }
}

/// The digits of the mantissa `t[lo..hi]`, point left out, and how many characters follow its point.
fn scan_mantissa(t: &Vec<char>, lo: usize, hi: usize) -> (r: (Vec<char>, usize))
    requires
        lo <= hi <= t.len(),
        forall|q: int| lo <= q < hi ==> is_digit(#[trigger] t@[q]) || t@[q] == '.',
    ensures
        r.0@ == mantissa_digits(t@.subrange(lo as int, hi as int)),
        all_digits(r.0@),
        r.1 == after_point(t@.subrange(lo as int, hi as int)),
{
    let ghost m = t@.subrange(lo as int, hi as int);
    let mut ds: Vec<char> = Vec::new();
    let mut frac: usize = 0;
    let mut seen = false;
    let ghost mut pt: int = 0;
    let mut k: usize = lo;
    while k < hi
        invariant
            lo <= k <= hi <= t.len(),
            m == t@.subrange(lo as int, hi as int),
            forall|q: int| lo <= q < hi ==> is_digit(#[trigger] t@[q]) || t@[q] == '.',
            ds@ == mantissa_digits(m.take(k - lo)),
            all_digits(ds@),
            !seen ==> frac == 0 && forall|q: int| 0 <= q < k - lo ==> #[trigger] m[q] != '.',
            seen ==> 0 <= pt < k - lo && m[pt] == '.' && (forall|q: int|
                0 <= q < pt ==> #[trigger] m[q] != '.') && frac == k - lo - pt - 1,
        decreases hi - k,
    {
        proof {
            reveal(Seq::filter);
            assert(m.take(k - lo + 1).drop_last() =~= m.take(k - lo));
            assert(m.take(k - lo + 1).last() == t@[k as int]);
            assert(m[k - lo] == t@[k as int]);
        }
        let c = t[k];
        if c == '.' {
            if seen {
                frac = frac + 1;
            } else {
                seen = true;
                proof {
                    pt = k - lo;
                }
            }
        } else {
            let ghost before = ds@;
            ds.push(c);
            proof {
                assert(ds@ == before.push(c));
                assert forall|q: int| 0 <= q < ds@.len() implies is_digit(#[trigger] ds@[q]) by {
                    if q < before.len() {
                        assert(ds@[q] == before[q]);
                    }
                }
            }
            if seen {
                frac = frac + 1;
            }
        }
        k = k + 1;
    }
    proof {
        assert(m.take(m.len() as int) =~= m);
        if seen {
            lemma_after_point(m, pt);
        } else {
            lemma_after_point(m, m.len() as int);
        }
    }
    (ds, frac)
}

/// The digits without their leading zeros.
fn strip_zeros(ds: &Vec<char>) -> (sig: Vec<char>)
    requires
        all_digits(ds@),
    ensures
        all_digits(sig@),
        digits_value(sig@) == digits_value(ds@),
        sig@.len() > 0 ==> sig@[0] != '0',
{
    let dn = ds.len();
    let mut z: usize = 0;
    while z < dn && ds[z] == '0'
        invariant
            z <= dn,
            dn == ds.len(),
            forall|q: int| 0 <= q < z ==> ds@[q] == '0',
        decreases dn - z,
    {
        z = z + 1;
    }
    let mut sig: Vec<char> = Vec::new();
    let mut i: usize = z;
    while i < dn
        invariant
            z <= i <= dn,
            dn == ds.len(),
            sig@ == ds@.subrange(z as int, i as int),
        decreases dn - i,
    {
        sig.push(ds[i]);
        assert(sig@ =~= ds@.subrange(z as int, i + 1));
        i = i + 1;
    }
    proof {
        assert(ds@ =~= zeros(z as nat) + sig@);
        lemma_digits_leading_zeros(z as nat, sig@);
        assert forall|q: int| 0 <= q < sig@.len() implies is_digit(#[trigger] sig@[q]) by {
            assert(sig@[q] == ds@[z + q]);
        }
        if sig@.len() > 0 {
            assert(sig@[0] == ds@[z as int]);
        }
    }
    sig
}

/// Above this an exponent places any non-zero value far beyond the bound, or far below it.
pub open spec fn exp_cap() -> int {
    0x10000000000000000000000000
}

/// Reads the exponent text `t[lo..hi]`: whether it is negative, and its digits' value, or
/// that this value is at least `exp_cap`.
fn scan_exponent(t: &Vec<char>, lo: usize, hi: usize) -> (r: (bool, u128, bool))
    requires
        lo <= hi <= t.len(),
        exponent_ok(t@.subrange(lo as int, hi as int)),
    ensures
        ({
            let v = exp_value(t@.subrange(lo as int, hi as int));
            &&& r.1 < exp_cap()
            &&& !r.2 ==> v == (if r.0 { -(r.1 as int) } else { r.1 as int })
            &&& r.2 ==> (if r.0 { v <= -exp_cap() } else { v >= exp_cap() })
        }),
{
    let ghost e = t@.subrange(lo as int, hi as int);
    let cap: u128 = 0x10000000000000000000000000;
    let mut neg = false;
    let mut q: usize = lo;
    if q < hi && (t[q] == '+' || t[q] == '-') {
        neg = t[q] == '-';
        q = q + 1;
    }
    let ghost ed = t@.subrange(q as int, hi as int);
    proof {
        assert(ed =~= unsigned_part(e));
        if neg {
            assert(ed =~= e.drop_first());
        }
    }
    let mut x: u128 = 0;
    let mut big = false;
    let mut w: usize = q;
    while w < hi
        invariant
            q <= w <= hi <= t.len(),
            ed == t@.subrange(q as int, hi as int),
            all_digits(ed),
            x < cap,
            cap == exp_cap(),
            !big ==> x == digits_value(t@.subrange(q as int, w as int)),
            big ==> digits_value(t@.subrange(q as int, w as int)) >= cap,
        decreases hi - w,
    {
        proof {
            assert(t@.subrange(q as int, w + 1).drop_last() =~= t@.subrange(q as int, w as int));
            assert(t@.subrange(q as int, w + 1).last() == t@[w as int]);
            assert(ed[w - q] == t@[w as int]);
            assert(is_digit(t@[w as int]));
        }
        let dg = ((t[w] as u32) - 48) as u128;
        if !big {
            let nx = x * 10 + dg;
            if nx >= cap {
                big = true;
            } else {
                x = nx;
            }
        }
        w = w + 1;
    }
    (neg, x, big)
}

/// Whether the digits `sig`, padded with zeros, reach the bound padded with zeros: the
/// comparison of equal-length digit strings as texts.
fn padded_reaches(sig: Vec<char>, pz: usize, qz: usize) -> (r: bool)
    ensures
        r == !text_lt(sig@ + zeros(pz as nat), bound_digits() + zeros(qz as nat)),
{
    let ghost s0 = sig@;
    let mut pa = sig;
    let mut u: usize = 0;
    while u < pz
        invariant
            u <= pz,
            pa@ == s0 + zeros(u as nat),
        decreases pz - u,
    {
        pa.push('0');
        assert(pa@ =~= s0 + zeros((u + 1) as nat));
        u = u + 1;
    }
    let bound = "179769313486231580793728971405303415079934132710037826936173778980444968292764750946649017977587207096330286416692887910946555547851940402630657488671505820681908902000708383676273854845817711531764475730270069855571366959622842914819860834936475292719074168444365510704342711559699508093042880177904174497792";
    proof {
        reveal_strlit("179769313486231580793728971405303415079934132710037826936173778980444968292764750946649017977587207096330286416692887910946555547851940402630657488671505820681908902000708383676273854845817711531764475730270069855571366959622842914819860834936475292719074168444365510704342711559699508093042880177904174497792");
        assert(bound@ =~= bound_digits());
    }
    let mut pb = crate::text::chars_of(bound);
    let mut v: usize = 0;
    while v < qz
        invariant
            v <= qz,
            pb@ == bound_digits() + zeros(v as nat),
        decreases qz - v,
    {
        pb.push('0');
        assert(pb@ =~= bound_digits() + zeros((v + 1) as nat));
        v = v + 1;
    }
    let sa = crate::text::string_of(&pa);
    let sb = crate::text::string_of(&pb);
    !text_less(sa.as_str(), sb.as_str())
}

/// Whether std's `f64` parse rounds the float text `t` to infinity.
#[verifier::rlimit(100)]
#[verifier::spinoff_prover]
pub fn float_overflows_text(t: &Vec<char>) -> (r: bool)
    requires
        float_text(t@),
    ensures
        r == float_overflows(t@),
{
    let n = t.len();
    let start: usize = if n > 0 && (t[0] == '+' || t[0] == '-') {
        1
    } else {
        0
    };
    let ghost b = unsigned_part(t@);
    proof {
        assert(b =~= t@.skip(start as int));
        lemma_float_parts(b);
    }
    let mut j: usize = start;
    while j < n && !(t[j] == 'e' || t[j] == 'E')
        invariant
            start <= j <= n,
            n == t.len(),
            b == t@.skip(start as int),
            forall|i: int| 0 <= i < j - start ==> !is_exp_mark(#[trigger] b[i]),
        decreases n - j,
    {
        proof {
            assert(b[j - start] == t@[j as int]);
        }
        j = j + 1;
    }
    let ghost m = b.take(j - start);
    proof {
        if j < n {
            assert(b[j - start] == t@[j as int]);
        }
        lemma_exp_pos(b, j - start);
        assert(m =~= t@.subrange(start as int, j as int));
        lemma_mantissa_chars(m);
        assert forall|q: int| start <= q < j implies is_digit(#[trigger] t@[q]) || t@[q] == '.' by {
            assert(m[q - start] == t@[q]);
        }
    }
    let (ds, frac) = scan_mantissa(t, start, j);
    let sig = strip_zeros(&ds);
    let ghost e = if j < n {
        b.skip(j - start + 1)
    } else {
        Seq::<char>::empty()
    };
    let ghost de = exp_value(e) - frac;
    let ghost pp: nat = if de >= 0 {
        de as nat
    } else {
        0
    };
    let ghost qq: nat = if de < 0 {
        (-de) as nat
    } else {
        0
    };
    proof {
        assert(exp_pos(b) == j - start);
        assert(mantissa_digits(m) == ds@);
        assert(after_point(m) == frac);
        assert(digits_value(mantissa_digits(m)) == digits_value(sig@));
        assert((if exp_pos(b) < b.len() {
            b.skip(exp_pos(b) as int + 1)
        } else {
            Seq::<char>::empty()
        }) == e);
    }
    assert(float_overflows(t@) == (digits_value(sig@) * ten_pow(pp) >= f64_overflow_bound()
        * ten_pow(qq)));
    if sig.len() == 0 {
        proof {
            lemma_bound_digits();
            lemma_ten_pow_positive(qq);
            lemma_ten_pow_positive(308);
            assert(digits_value(sig@) == 0);
            let bb = f64_overflow_bound() as int;
            let tq = ten_pow(qq) as int;
            assert(bb * tq >= 1) by (nonlinear_arith)
                requires
                    bb >= 1,
                    tq >= 1,
            ;
            assert(ten_pow(308) <= f64_overflow_bound());
            let dz = digits_value(sig@) as int;
            let tp = ten_pow(pp) as int;
            assert(dz * tp == 0) by (nonlinear_arith)
                requires
                    dz == 0,
            ;
            assert(!float_overflows(t@));
        }
        return false;
    }
    let (neg, x, big) = if j < n {
        proof {
            assert(e =~= t@.subrange(j + 1, n as int));
        }
        scan_exponent(t, j + 1, n)
    } else {
        proof {
            assert(unsigned_part(e) =~= e);
        }
        (false, 0u128, false)
    };
    proof {
        lemma_overflow_decision(sig@, de);
        if big {
            if neg {
                assert(exp_value(e) <= -exp_cap());
                assert(sig@.len() + de <= 308);
            } else {
                assert(exp_value(e) >= exp_cap());
                assert(sig@.len() + de >= 310);
            }
        } else {
            assert(exp_value(e) == (if neg { -(x as int) } else { x as int }));
        }
    }
    if big {
        return !neg;
    }
    let nsig = sig.len();
    let xe: i128 = if neg {
        -(x as i128)
    } else {
        x as i128
    };
    let dei: i128 = xe - (frac as i128);
    let kk: i128 = (nsig as i128) + dei;
    assert(dei == de);
    assert(kk == sig@.len() + de);
    if kk <= 308 {
        return false;
    }
    if kk >= 310 {
        return true;
    }
    let pz: usize = if dei >= 0 {
        dei as usize
    } else {
        0
    };
    let qz: usize = if dei < 0 {
        (-dei) as usize
    } else {
        0
    };
    assert(pz == pp && qz == qq);
    padded_reaches(sig, pz, qz)
}

} // verus!
