//! Sequences of whole numbers as polynomials: the value of a polynomial at a
//! point, and the product of two polynomials as the convolution of their
//! coefficients.

use crate::digits::{is_digits, pow10, value};
use vstd::arithmetic::power::{
    lemma_pow0, lemma_pow1, lemma_pow_adds, lemma_pow_multiplies, pow,
};
use vstd::prelude::*;

verus! {

/// The value at `x` of the polynomial with the coefficients `s`, the one at
/// index `i` going with `x^i`.
pub open spec fn eval(s: Seq<int>, x: int) -> int
    decreases s.len(),
{
    if s.len() == 0 {
        0
    } else {
        eval(s.drop_last(), x) + s.last() * pow(x, (s.len() - 1) as nat)
    }
}

/// The element of `s` at `i`, and zero outside of `s`.
pub open spec fn at(s: Seq<int>, i: int) -> int {
    if 0 <= i < s.len() {
        s[i]
    } else {
        0
    }
}

/// The coefficient at `k` of the product of the polynomials `a` and `b`: the
/// sum of the products `a[i] * b[k - i]`.
pub open spec fn conv_at(a: Seq<int>, b: Seq<int>, k: int) -> int
    decreases a.len(),
{
    if a.len() == 0 {
        0
    } else {
        conv_at(a.drop_last(), b, k) + a.last() * at(b, k - (a.len() - 1))
    }
}

/// The first `n` coefficients of the product of the polynomials `a` and `b`.
pub open spec fn conv(a: Seq<int>, b: Seq<int>, n: nat) -> Seq<int> {
    Seq::new(n, |k: int| conv_at(a, b, k))
}

/// `s` continued with zeros to the length `n`.
pub open spec fn padded(s: Seq<int>, n: nat) -> Seq<int> {
    Seq::new(n, |k: int| at(s, k))
}

/// The coefficients of `s` at the even indices.
pub open spec fn evens(s: Seq<int>) -> Seq<int> {
    Seq::new(s.len() / 2, |i: int| s[2 * i])
}

/// The coefficients of `s` at the odd indices.
pub open spec fn odds(s: Seq<int>) -> Seq<int> {
    Seq::new(s.len() / 2, |i: int| s[2 * i + 1])
}

/// The digits of a digit vector as whole numbers.
pub open spec fn digit_ints(s: Seq<u8>) -> Seq<int> {
    Seq::new(s.len(), |i: int| s[i] as int)
}

/// The value of a polynomial from its lowest coefficient: Horner's rule.
pub proof fn lemma_eval_first(s: Seq<int>, x: int)
    requires
        s.len() > 0,
    ensures
        eval(s, x) == s[0] + x * eval(s.drop_first(), x),
    decreases s.len(),
{
    if s.len() == 1 {
        assert(s.drop_last() =~= Seq::<int>::empty());
        assert(s.drop_first() =~= Seq::<int>::empty());
        assert(eval(s.drop_last(), x) == 0);
        assert(eval(s.drop_first(), x) == 0);
        lemma_pow0(x);
        assert(s.last() == s[0]);
        assert(s[0] * 1 == s[0]);
        assert(x * 0 == 0);
    } else {
        let t = s.drop_last();
        lemma_eval_first(t, x);
        assert(t.drop_first() =~= s.drop_first().drop_last());
        let k = (s.len() - 2) as nat;
        lemma_pow_adds(x, 1, k);
        lemma_pow1(x);
        assert(s.drop_first().last() == s.last());
        let p = pow(x, k);
        let rest = eval(t.drop_first(), x);
        assert(x * (rest + s.last() * p) == x * rest + s.last() * (x * p)) by (nonlinear_arith);
    }
}

/// The value of the sum of two polynomials is the sum of their values.
pub proof fn lemma_eval_sum(s: Seq<int>, t: Seq<int>, x: int)
    requires
        s.len() == t.len(),
    ensures
        eval(Seq::new(s.len(), |k: int| s[k] + t[k]), x) == eval(s, x) + eval(t, x),
    decreases s.len(),
{
    let u = Seq::new(s.len(), |k: int| s[k] + t[k]);
    if s.len() > 0 {
        let s1 = s.drop_last();
        let t1 = t.drop_last();
        lemma_eval_sum(s1, t1, x);
        assert(u.drop_last() =~= Seq::new(s1.len(), |k: int| s1[k] + t1[k]));
        let p = pow(x, (s.len() - 1) as nat);
        assert((s.last() + t.last()) * p == s.last() * p + t.last() * p) by (nonlinear_arith);
    }
}

/// Zeros at the end of the coefficients do not change the value.
pub proof fn lemma_eval_padded(s: Seq<int>, n: nat, x: int)
    requires
        n >= s.len(),
    ensures
        eval(padded(s, n), x) == eval(s, x),
    decreases n,
{
    let p = padded(s, n);
    if n == s.len() {
        assert(p =~= s);
    } else {
        lemma_eval_padded(s, (n - 1) as nat, x);
        assert(p.drop_last() =~= padded(s, (n - 1) as nat));
        assert(p.last() == 0);
        assert(0 * pow(x, (n - 1) as nat) == 0);
    }
}

/// The value of a polynomial of even length from the values of its even and
/// its odd part at the square of the point.
pub proof fn lemma_eval_split(s: Seq<int>, z: int)
    requires
        s.len() % 2 == 0,
    ensures
        eval(s, z) == eval(evens(s), z * z) + z * eval(odds(s), z * z),
    decreases s.len(),
{
    if s.len() == 0 {
        assert(evens(s) =~= Seq::<int>::empty());
        assert(odds(s) =~= Seq::<int>::empty());
        assert(z * 0 == 0);
    } else {
        let h: int = s.len() / 2 - 1;
        let t = s.drop_last().drop_last();
        lemma_eval_split(t, z);
        assert(evens(s).drop_last() =~= evens(t));
        assert(odds(s).drop_last() =~= odds(t));
        assert(evens(s).last() == s[2 * h]);
        assert(odds(s).last() == s[2 * h + 1]);
        assert(s.drop_last().last() == s[2 * h]);
        // (z * z)^h = z^(2h)
        lemma_pow_multiplies(z, 2, h as nat);
        assert(pow(z, 2) == z * z) by {
            lemma_pow_adds(z, 1, 1);
            lemma_pow1(z);
        }
        lemma_pow_adds(z, 1, (2 * h) as nat);
        lemma_pow1(z);
        let q = pow(z, (2 * h) as nat);
        let e0 = eval(evens(t), z * z);
        let o0 = eval(odds(t), z * z);
        assert(pow(z * z, h as nat) == q);
        assert(pow(z, (2 * h + 1) as nat) == z * q) by {
            assert((1 + (2 * h) as nat) as nat == (2 * h + 1) as nat);
        }
        assert(eval(s, z) == eval(s.drop_last(), z) + s[2 * h + 1] * pow(z, (2 * h + 1) as nat));
        assert(eval(s.drop_last(), z) == eval(t, z) + s[2 * h] * q);
        assert(eval(evens(s), z * z) == e0 + s[2 * h] * q);
        assert(eval(odds(s), z * z) == o0 + s[2 * h + 1] * q);
        assert(z * (o0 + s[2 * h + 1] * q) == z * o0 + s[2 * h + 1] * (z * q))
            by (nonlinear_arith);
    }
}

/// The value of a multiple of a polynomial that is moved up by `m` places:
/// the polynomial with the coefficient `d * b[k - m]` at `k`.
proof fn lemma_eval_shifted(b: Seq<int>, m: nat, d: int, n: nat, x: int)
    ensures
        eval(Seq::new(n, |k: int| d * at(b, k - m)), x) == d * pow(x, m) * eval(
            b.subrange(
                0,
                if n <= m {
                    0
                } else if n - m <= b.len() {
                    n - m
                } else {
                    b.len() as int
                },
            ),
            x,
        ),
    decreases n,
{
    let sh = Seq::new(n, |k: int| d * at(b, k - m));
    if n == 0 {
        assert(b.subrange(0, 0) =~= Seq::<int>::empty());
        assert(d * pow(x, m) * 0 == 0);
    } else {
        lemma_eval_shifted(b, m, d, (n - 1) as nat, x);
        assert(sh.drop_last() =~= Seq::new((n - 1) as nat, |k: int| d * at(b, k - m)));
        let p = pow(x, (n - 1) as nat);
        if n <= m {
            assert(sh.last() == d * 0);
            assert(d * 0 == 0);
            assert(0 * p == 0);
        } else if n - m <= b.len() {
            let j = n - m - 1;
            let cur = b.subrange(0, n - m);
            assert(cur.drop_last() =~= b.subrange(0, j));
            assert(cur.last() == b[j]);
            lemma_pow_adds(x, m, j as nat);
            let pm = pow(x, m);
            let pj = pow(x, j as nat);
            let low = eval(b.subrange(0, j), x);
            assert(d * pm * (low + b[j] * pj) == d * pm * low + (d * b[j]) * (pm * pj))
                by (nonlinear_arith);
        } else {
            assert(sh.last() == d * 0);
            assert(d * 0 == 0);
            assert(0 * p == 0);
        }
    }
}

/// The value of the product of two polynomials is the product of their
/// values, where no coefficient of the product is cut off.
pub proof fn lemma_eval_conv(a: Seq<int>, b: Seq<int>, n: nat, x: int)
    requires
        n >= a.len() + b.len(),
    ensures
        eval(conv(a, b, n), x) == eval(a, x) * eval(b, x),
    decreases a.len(),
{
    let c = conv(a, b, n);
    if a.len() == 0 {
        assert(c =~= padded(Seq::<int>::empty(), n));
        lemma_eval_padded(Seq::<int>::empty(), n, x);
        assert(0 * eval(b, x) == 0);
    } else {
        let a1 = a.drop_last();
        let m = (a.len() - 1) as nat;
        let d = a.last();
        let low = conv(a1, b, n);
        let row = Seq::new(n, |k: int| d * at(b, k - m));
        lemma_eval_conv(a1, b, n, x);
        lemma_eval_shifted(b, m, d, n, x);
        lemma_eval_sum(low, row, x);
        assert(c =~= Seq::new(n, |k: int| low[k] + row[k]));
        assert(b.subrange(0, b.len() as int) =~= b);
        let ea = eval(a1, x);
        let eb = eval(b, x);
        let pm = pow(x, m);
        assert((ea + d * pm) * eb == ea * eb + d * pm * eb) by (nonlinear_arith);
    }
}

/// The coefficients of the product of two digit vectors are not negative and
/// bounded by 81 times the length of the first, and those from the sum of the
/// lengths on are zero.
pub proof fn lemma_conv_bound(a: Seq<u8>, b: Seq<u8>, k: int)
    requires
        is_digits(a),
        is_digits(b),
    ensures
        0 <= conv_at(digit_ints(a), digit_ints(b), k) <= 81 * a.len(),
        k >= a.len() + b.len() || k < 0 ==> conv_at(digit_ints(a), digit_ints(b), k) == 0,
    decreases a.len(),
{
    let ai = digit_ints(a);
    let bi = digit_ints(b);
    if a.len() > 0 {
        let a1 = a.drop_last();
        assert(is_digits(a1)) by {
            assert forall|i: int| 0 <= i < a1.len() implies #[trigger] a1[i] <= 9 by {
                assert(a1[i] == a[i]);
            }
        }
        lemma_conv_bound(a1, b, k);
        assert(ai.drop_last() =~= digit_ints(a1));
        let j = k - (a.len() - 1);
        assert(a[a.len() - 1] <= 9);
        assert(0 <= at(bi, j) <= 9) by {
            if 0 <= j < b.len() {
                assert(b[j] <= 9);
            }
        }
        assert(0 <= ai.last() * at(bi, j) <= 81) by (nonlinear_arith)
            requires
                0 <= ai.last() <= 9,
                0 <= at(bi, j) <= 9,
        ;
        if k >= a.len() + b.len() || k < 0 {
            assert(at(bi, j) == 0);
            assert(ai.last() * 0 == 0);
        }
    }
}

/// The number that a digit vector stands for is the value at 10 of the
/// polynomial with its digits.
pub proof fn lemma_value_is_eval(s: Seq<u8>)
    ensures
        value(s) == eval(digit_ints(s), 10),
    decreases s.len(),
{
    if s.len() > 0 {
        lemma_value_is_eval(s.drop_last());
        assert(digit_ints(s).drop_last() =~= digit_ints(s.drop_last()));
        lemma_pow10_is_pow((s.len() - 1) as nat);
    }
}

/// `pow10` is the power of ten.
pub proof fn lemma_pow10_is_pow(n: nat)
    ensures
        pow10(n) == pow(10, n),
    decreases n,
{
    if n == 0 {
        lemma_pow0(10);
    } else {
        lemma_pow10_is_pow((n - 1) as nat);
        lemma_pow_adds(10, 1, (n - 1) as nat);
        lemma_pow1(10);
    }
}

} // verus!
