//! The discrete Fourier transform over the whole numbers modulo the prime, as a
//! definition: the values of a polynomial at the powers of a root of unity.
//! The laws that the fast transform rests on are proved here.

use crate::ft::{
    bit_rev, is_pow2, lemma_bit_rev_bound, lemma_bit_rev_high, permuted, rev_table,
};
use crate::modular::{
    inverse_of, lemma_cong_add, lemma_cong_mul, lemma_cong_pow, lemma_cong_sub, lemma_inverse_of,
    lemma_modp_basics, lemma_unit_root_half, lemma_unit_root_inverse, modp, unit_root, MAX_LEN,
    MODULUS,
};
use crate::poly::{at, eval, evens, lemma_eval_first, lemma_eval_split, odds};
use vstd::arithmetic::div_mod::lemma_small_mod;
use vstd::arithmetic::power::{
    lemma1_pow, lemma_pow0, lemma_pow1, lemma_pow_adds, lemma_pow_distributes,
    lemma_pow_multiplies, pow,
};
use vstd::prelude::*;

verus! {

/// Every element of `x` is a number reduced modulo the prime.
pub open spec fn reduced(x: Seq<int>) -> bool {
    forall|i: int| 0 <= i < x.len() ==> 0 <= #[trigger] x[i] < MODULUS
}

/// The values of the polynomial `x` at the powers of `w`, modulo the prime.
pub open spec fn spectrum(x: Seq<int>, w: int) -> Seq<int> {
    Seq::new(x.len(), |k: int| modp(eval(x, pow(w, k as nat))))
}

/// The transform of `x`, whose length is a power of two up to `2^23`: the
/// values of the polynomial `x` at the powers of the root of unity of the
/// order of its length.
pub open spec fn forward(x: Seq<int>) -> Seq<int> {
    spectrum(x, unit_root(x.len(), false))
}

/// The inverse transform of `x`: the values at the powers of the inverse root,
/// each divided by the length.
pub open spec fn inverse(x: Seq<int>) -> Seq<int> {
    Seq::new(
        x.len(),
        |k: int| modp(spectrum(x, unit_root(x.len(), true))[k] * inverse_of(x.len())),
    )
}

/// The power of the root that a butterfly of the fast transform multiplies by.
pub open spec fn twiddle(w: int, j: int) -> int {
    modp(pow(w, j as nat))
}

/// The lower output of a butterfly.
pub open spec fn butterfly_low(e: int, o: int, t: int) -> int {
    modp(e + modp(t * o))
}

/// The upper output of a butterfly.
pub open spec fn butterfly_high(e: int, o: int, t: int) -> int {
    modp(e - modp(t * o))
}

/// What the fast transform makes of a block `y` that stands in bit-reversed
/// order: the transforms of its two halves, combined by butterflies.
pub open spec fn ntt(y: Seq<int>, w: int) -> Seq<int>
    decreases y.len(),
{
    if y.len() <= 1 {
        y
    } else {
        let h = (y.len() / 2) as int;
        let e = ntt(y.subrange(0, h), modp(w * w));
        let o = ntt(y.subrange(h, y.len() as int), modp(w * w));
        Seq::new(
            y.len(),
            |k: int|
                if k < h {
                    butterfly_low(e[k], o[k], twiddle(w, k))
                } else {
                    butterfly_high(e[k - h], o[k - h], twiddle(w, k - h))
                },
        )
    }
}

/// The sum of the powers of `z` below `m`.
pub open spec fn geo(z: int, m: nat) -> int
    decreases m,
{
    if m == 0 {
        0
    } else {
        geo(z, (m - 1) as nat) + pow(z, (m - 1) as nat)
    }
}

/// The sum over `k` below `m` of the value of `c` at `w^k`, times `z^k`.
pub open spec fn cross(c: Seq<int>, w: int, z: int, m: nat) -> int
    decreases m,
{
    if m == 0 {
        0
    } else {
        cross(c, w, z, (m - 1) as nat) + eval(c, pow(w, (m - 1) as nat)) * pow(z, (m - 1) as nat)
    }
}

/// The fast transform keeps the length.
pub proof fn lemma_ntt_len(y: Seq<int>, w: int)
    ensures
        ntt(y, w).len() == y.len(),
    decreases y.len(),
{
}

/// The values of a polynomial at congruent points are congruent.
pub proof fn lemma_eval_cong_point(s: Seq<int>, x: int, x2: int)
    requires
        modp(x) == modp(x2),
    ensures
        modp(eval(s, x)) == modp(eval(s, x2)),
    decreases s.len(),
{
    if s.len() > 0 {
        lemma_eval_cong_point(s.drop_last(), x, x2);
        let e = (s.len() - 1) as nat;
        lemma_cong_pow(x, x2, e);
        lemma_cong_mul(s.last(), s.last(), pow(x, e), pow(x2, e));
        lemma_cong_add(
            eval(s.drop_last(), x),
            eval(s.drop_last(), x2),
            s.last() * pow(x, e),
            s.last() * pow(x2, e),
        );
    }
}

/// The square of a power is the power of the square, and the power of the
/// doubled exponent.
proof fn lemma_pow_square(w: int, k: nat)
    ensures
        pow(w, k) * pow(w, k) == pow(w * w, k),
        pow(w * w, k) == pow(w, 2 * k),
{
    lemma_pow_distributes(w, w, k);
    lemma_pow_adds(w, k, k);
}

/// The halves of a sequence in bit-reversed order are the even and the odd
/// part of the sequence, each in bit-reversed order.
proof fn lemma_permuted_halves(x: Seq<int>, n: nat)
    requires
        x.len() == n,
        is_pow2(n),
        n >= 2,
        n <= usize::MAX,
    ensures
        permuted(x, rev_table(n)).subrange(0, (n / 2) as int) == permuted(
            evens(x),
            rev_table(n / 2),
        ),
        permuted(x, rev_table(n)).subrange((n / 2) as int, n as int) == permuted(
            odds(x),
            rev_table(n / 2),
        ),
{
    let h = n / 2;
    let y = permuted(x, rev_table(n));
    let ye = permuted(evens(x), rev_table(h));
    let yo = permuted(odds(x), rev_table(h));
    assert forall|t: int| 0 <= t < h implies y.subrange(0, h as int)[t] == ye[t] by {
        lemma_bit_rev_high(t as nat, n);
        lemma_bit_rev_bound(t as nat, h);
        lemma_bit_rev_bound(t as nat, n);
        lemma_small_mod(t as nat, h);
        assert(t / (h as int) == 0) by {
            vstd::arithmetic::div_mod::lemma_basic_div(t, h as int);
        }
    }
    assert forall|t: int| 0 <= t < h implies y.subrange(h as int, n as int)[t] == yo[t] by {
        let u = (t + h) as nat;
        lemma_bit_rev_high(u, n);
        lemma_bit_rev_bound(t as nat, h);
        lemma_bit_rev_bound(u, n);
        vstd::arithmetic::div_mod::lemma_fundamental_div_mod_converse(
            u as int,
            h as int,
            1,
            t,
        );
    }
    assert(y.subrange(0, h as int) =~= ye);
    assert(y.subrange(h as int, n as int) =~= yo);
}

/// What the fast transform computes from the bit-reversed order is the
/// transform: the values of the polynomial at the powers of the root.
pub proof fn lemma_ntt_is_spectrum(x: Seq<int>, w: int)
    requires
        is_pow2(x.len()),
        x.len() <= usize::MAX,
        reduced(x),
        x.len() >= 2 ==> modp(pow(w, x.len() / 2)) == MODULUS - 1,
    ensures
        ntt(permuted(x, rev_table(x.len())), w) == spectrum(x, w),
    decreases x.len(),
{
    let n = x.len();
    let y = permuted(x, rev_table(n));
    if n == 1 {
        assert(bit_rev(0, 1) == 0);
        assert(y =~= x);
        lemma_pow0(w);
        assert(x.drop_last() =~= Seq::<int>::empty());
        assert(eval(x.drop_last(), pow(w, 0)) == 0);
        assert(eval(x, pow(w, 0)) == x[0] * 1) by {
            lemma_pow0(pow(w, 0));
        }
        lemma_modp_basics(x[0]);
        assert(spectrum(x, w) =~= x);
    } else {
        let h = n / 2;
        let w2 = modp(w * w);
        lemma_modp_basics(w * w);
        lemma_permuted_halves(x, n);
        let xe = evens(x);
        let xo = odds(x);
        assert(reduced(xe)) by {
            assert forall|i: int| 0 <= i < xe.len() implies 0 <= #[trigger] xe[i] < MODULUS by {
                assert(0 <= x[2 * i] < MODULUS);
            }
        }
        assert(reduced(xo)) by {
            assert forall|i: int| 0 <= i < xo.len() implies 0 <= #[trigger] xo[i] < MODULUS by {
                assert(0 <= x[2 * i + 1] < MODULUS);
            }
        }
        if h >= 2 {
            // the square of the root is a root of half the order
            assert(is_pow2(h));
            assert(2 * (h / 2) == h);
            lemma_pow_square(w, h / 2);
            lemma_cong_pow(w2, w * w, h / 2);
            assert(modp(pow(w2, h / 2)) == modp(pow(w, h)));
        }
        assert(xe.len() == h && xo.len() == h);
        assert(is_pow2(h));
        lemma_ntt_is_spectrum(xe, w2);
        lemma_ntt_is_spectrum(xo, w2);
        let e = spectrum(xe, w2);
        let o = spectrum(xo, w2);
        let out = ntt(y, w);
        assert(out.len() == n);
        assert forall|k: int| 0 <= k < n implies out[k] == spectrum(x, w)[k] by {
            let j = if k < h {
                k
            } else {
                k - h
            };
            let z = pow(w, j as nat);
            let zz = z * z;
            // the values of the halves at the square of the point
            lemma_pow_square(w, j as nat);
            lemma_cong_pow(w2, w * w, j as nat);
            lemma_eval_cong_point(xe, pow(w2, j as nat), zz);
            lemma_eval_cong_point(xo, pow(w2, j as nat), zz);
            let ve = eval(xe, zz);
            let vo = eval(xo, zz);
            assert(modp(e[j]) == modp(ve)) by {
                lemma_modp_basics(eval(xe, pow(w2, j as nat)));
            }
            assert(modp(o[j]) == modp(vo)) by {
                lemma_modp_basics(eval(xo, pow(w2, j as nat)));
            }
            lemma_modp_basics(z);
            lemma_cong_mul(twiddle(w, j), z, o[j], vo);
            lemma_modp_basics(twiddle(w, j) * o[j]);
            if k < h {
                lemma_cong_add(e[j], ve, modp(twiddle(w, j) * o[j]), z * vo);
                lemma_eval_split(x, z);
            } else {
                lemma_cong_sub(e[j], ve, modp(twiddle(w, j) * o[j]), z * vo);
                // w^k is congruent to -z
                lemma_pow_adds(w, h, j as nat);
                lemma_cong_mul(pow(w, h), -1, z, z);
                assert(modp(-1) == MODULUS - 1) by {
                    vstd::arithmetic::div_mod::lemma_mod_add_multiples_vanish(
                        -1,
                        MODULUS as int,
                    );
                    lemma_small_mod((MODULUS - 1) as nat, MODULUS as nat);
                }
                assert((-1) * z == -z);
                lemma_eval_cong_point(x, pow(w, k as nat), -z);
                lemma_eval_split(x, -z);
                assert((-z) * (-z) == zz) by (nonlinear_arith)
                    requires
                        zz == z * z,
                ;
                assert(ve + (-z) * vo == ve - z * vo) by (nonlinear_arith);
            }
        }
        assert(out =~= spectrum(x, w));
    }
}

/// The sum of the powers below `a + b` from the sums below `a` and below `b`.
proof fn lemma_geo_split(z: int, a: nat, b: nat)
    ensures
        geo(z, a + b) == geo(z, a) + pow(z, a) * geo(z, b),
    decreases b,
{
    if b == 0 {
        assert(pow(z, a) * 0 == 0);
    } else {
        lemma_geo_split(z, a, (b - 1) as nat);
        lemma_pow_adds(z, a, (b - 1) as nat);
        let pa = pow(z, a);
        let g = geo(z, (b - 1) as nat);
        let pb = pow(z, (b - 1) as nat);
        assert(pa * (g + pb) == pa * g + pa * pb) by (nonlinear_arith);
    }
}

/// The sums of the powers of congruent numbers are congruent.
proof fn lemma_geo_cong(z: int, z2: int, m: nat)
    requires
        modp(z) == modp(z2),
    ensures
        modp(geo(z, m)) == modp(geo(z2, m)),
    decreases m,
{
    if m > 0 {
        lemma_geo_cong(z, z2, (m - 1) as nat);
        lemma_cong_pow(z, z2, (m - 1) as nat);
        lemma_cong_add(
            geo(z, (m - 1) as nat),
            geo(z2, (m - 1) as nat),
            pow(z, (m - 1) as nat),
            pow(z2, (m - 1) as nat),
        );
    }
}

/// The sum of `m` powers of one is `m`.
proof fn lemma_geo_one(m: nat)
    ensures
        geo(1, m) == m,
    decreases m,
{
    if m > 0 {
        lemma_geo_one((m - 1) as nat);
        lemma1_pow((m - 1) as nat);
    }
}

/// The powers of `-1` modulo the prime: 1 for an even exponent, `-1` for an
/// odd one.
proof fn lemma_pow_minus_one(r: int, d: nat)
    requires
        modp(r) == MODULUS - 1,
    ensures
        d % 2 == 0 ==> modp(pow(r, d)) == 1,
        d % 2 == 1 ==> modp(pow(r, d)) == MODULUS - 1,
    decreases d,
{
    if d == 0 {
        lemma_pow0(r);
        lemma_small_mod(1, MODULUS as nat);
    } else {
        lemma_pow_minus_one(r, (d - 1) as nat);
        lemma_pow_adds(r, 1, (d - 1) as nat);
        lemma_pow1(r);
        let q = pow(r, (d - 1) as nat);
        lemma_cong_mul(r, MODULUS - 1, q, modp(q));
        lemma_modp_basics(q);
        assert(998244352int * 998244352int % 998244353 == 1);
        assert(998244352int * 1int % 998244353 == 998244352);
    }
}

/// The powers of a power of a root of unity of order `n` that is not one sum
/// up to zero.
pub proof fn lemma_orthogonal(r: int, n: nat, d: nat)
    requires
        is_pow2(n),
        n >= 2,
        modp(pow(r, n / 2)) == MODULUS - 1,
        0 < d < n,
    ensures
        modp(geo(pow(r, d), n)) == 0,
    decreases n,
{
    let h = n / 2;
    let z = pow(r, d);
    lemma_geo_split(z, h, h);
    // z^h = (r^h)^d
    lemma_pow_multiplies(r, d, h);
    lemma_pow_multiplies(r, h, d);
    assert(d * h == h * d) by (nonlinear_arith);
    lemma_pow_minus_one(pow(r, h), d);
    let g = geo(z, h);
    if d % 2 == 1 {
        lemma_cong_mul(pow(z, h), -1, g, g);
        assert(modp(-1) == MODULUS - 1) by {
            vstd::arithmetic::div_mod::lemma_mod_add_multiples_vanish(-1, MODULUS as int);
            lemma_small_mod((MODULUS - 1) as nat, MODULUS as nat);
        }
        lemma_cong_add(g, g, pow(z, h) * g, (-1) * g);
        assert(g + (-1) * g == 0);
        lemma_small_mod(0, MODULUS as nat);
    } else {
        let e = d / 2;
        assert(h >= 2);
        // z is a power of the square of the root, which is of order h
        assert(is_pow2(h));
        assert(2 * (h / 2) == h);
        assert(2 * e == d);
        lemma_pow_square(r, e);
        lemma_pow_square(r, h / 2);
        assert(pow(r * r, h / 2) == pow(r, h));
        assert(pow(r * r, e) == z);
        lemma_orthogonal(r * r, h, e);
        lemma_cong_mul(pow(z, h), 1, g, g);
        lemma_cong_add(g, 0, pow(z, h) * g, 0);
        lemma_small_mod(0, MODULUS as nat);
        lemma_small_mod(1, MODULUS as nat);
        assert(1 * g == g);
        lemma_modp_basics(g);
    }
}

/// Taking the lowest coefficient out of the sum over the values of a
/// polynomial.
proof fn lemma_cross_first(c: Seq<int>, w: int, z: int, m: nat)
    requires
        c.len() > 0,
    ensures
        cross(c, w, z, m) == c[0] * geo(z, m) + cross(c.drop_first(), w, w * z, m),
    decreases m,
{
    if m == 0 {
        assert(c[0] * 0 == 0);
    } else {
        let k = (m - 1) as nat;
        lemma_cross_first(c, w, z, k);
        let wk = pow(w, k);
        let zk = pow(z, k);
        lemma_eval_first(c, wk);
        lemma_pow_distributes(w, z, k);
        let rest = eval(c.drop_first(), wk);
        let g = geo(z, k);
        assert((c[0] + wk * rest) * zk == c[0] * zk + rest * (wk * zk)) by (nonlinear_arith);
        assert(c[0] * (g + zk) == c[0] * g + c[0] * zk) by (nonlinear_arith);
    }
}

/// The sum over the values of the polynomial without coefficients is zero.
proof fn lemma_cross_empty(c: Seq<int>, w: int, z: int, m: nat)
    requires
        c.len() == 0,
    ensures
        cross(c, w, z, m) == 0,
    decreases m,
{
    if m > 0 {
        lemma_cross_empty(c, w, z, (m - 1) as nat);
        assert(0 * pow(z, (m - 1) as nat) == 0);
    }
}

/// The sums over congruent points are congruent.
proof fn lemma_cross_cong(c: Seq<int>, w: int, z: int, z2: int, m: nat)
    requires
        modp(z) == modp(z2),
    ensures
        modp(cross(c, w, z, m)) == modp(cross(c, w, z2, m)),
    decreases m,
{
    if m > 0 {
        let k = (m - 1) as nat;
        lemma_cross_cong(c, w, z, z2, k);
        lemma_cong_pow(z, z2, k);
        let e = eval(c, pow(w, k));
        lemma_cong_mul(e, e, pow(z, k), pow(z2, k));
        lemma_cong_add(cross(c, w, z, k), cross(c, w, z2, k), e * pow(z, k), e * pow(z2, k));
    }
}

/// The sum over the values of a polynomial at the powers of a root of unity,
/// weighted by the powers of the inverse root to the `j`, picks out the
/// coefficient at `j`, times the order.
proof fn lemma_cross_picks(c: Seq<int>, w: int, u: int, n: nat, s: nat, j: nat)
    requires
        is_pow2(n),
        n >= 2,
        modp(pow(w, n / 2)) == MODULUS - 1,
        modp(pow(u, n / 2)) == MODULUS - 1,
        modp(w * u) == 1,
        s + c.len() <= n,
        j < n,
    ensures
        modp(cross(c, w, pow(w, s) * pow(u, j), n)) == modp(n * at(c, j - s)),
    decreases c.len(),
{
    let z = pow(w, s) * pow(u, j);
    if c.len() == 0 {
        lemma_cross_empty(c, w, z, n);
        assert(n * 0 == 0);
    } else {
        let c1 = c.drop_first();
        lemma_cross_first(c, w, z, n);
        lemma_pow_adds(w, 1, s);
        lemma_pow1(w);
        assert(w * z == pow(w, s + 1) * pow(u, j)) by (nonlinear_arith)
            requires
                z == pow(w, s) * pow(u, j),
                pow(w, s + 1) == w * pow(w, s),
        ;
        lemma_cross_picks(c1, w, u, n, s + 1, j);
        let rest = cross(c1, w, w * z, n);
        assert(at(c1, j - s - 1) == (if j > s {
            at(c, j - s)
        } else {
            0
        }));
        // the sum of the powers of z
        let g = geo(z, n);
        lemma_small_mod(1, MODULUS as nat);
        lemma_small_mod(0, MODULUS as nat);
        if s == j {
            lemma_pow_distributes(w, u, j);
            lemma_cong_pow(w * u, 1, j);
            lemma1_pow(j);
            lemma_geo_cong(z, 1, n);
            lemma_geo_one(n);
            lemma_cong_mul(c[0], c[0], g, n as int);
            lemma_cong_add(c[0] * g, c[0] * n, rest, (n as int) * 0);
            assert(c[0] * n + (n as int) * 0 == n * c[0]) by (nonlinear_arith);
        } else {
            if s > j {
                let d = (s - j) as nat;
                lemma_pow_adds(w, d, j);
                lemma_pow_distributes(w, u, j);
                lemma_cong_pow(w * u, 1, j);
                lemma1_pow(j);
                let wd = pow(w, d);
                assert(z == wd * (pow(w, j) * pow(u, j))) by (nonlinear_arith)
                    requires
                        z == pow(w, s) * pow(u, j),
                        pow(w, s) == wd * pow(w, j),
                ;
                lemma_cong_mul(wd, wd, pow(w, j) * pow(u, j), 1);
                assert(wd * 1 == wd);
                lemma_geo_cong(z, wd, n);
                lemma_orthogonal(w, n, d);
            } else {
                let d = (j - s) as nat;
                lemma_pow_adds(u, d, s);
                lemma_pow_distributes(w, u, s);
                lemma_cong_pow(w * u, 1, s);
                lemma1_pow(s);
                let ud = pow(u, d);
                assert(z == ud * (pow(w, s) * pow(u, s))) by (nonlinear_arith)
                    requires
                        z == pow(w, s) * pow(u, j),
                        pow(u, j) == ud * pow(u, s),
                ;
                lemma_cong_mul(ud, ud, pow(w, s) * pow(u, s), 1);
                assert(ud * 1 == ud);
                lemma_geo_cong(z, ud, n);
                lemma_orthogonal(u, n, d);
            }
            lemma_cong_mul(c[0], c[0], g, 0);
            assert(c[0] * 0 == 0);
            lemma_cong_add(c[0] * g, 0, rest, n * at(c1, j - s - 1));
        }
    }
}

/// The value at `v` of the polynomial whose coefficients are the values of
/// `x` at the powers of `w` is the sum over those values.
proof fn lemma_eval_of_spectrum(x: Seq<int>, w: int, v: int, m: nat)
    requires
        m <= x.len(),
    ensures
        modp(eval(spectrum(x, w).subrange(0, m as int), v)) == modp(cross(x, w, v, m)),
    decreases m,
{
    let f = spectrum(x, w);
    if m > 0 {
        let k = (m - 1) as nat;
        lemma_eval_of_spectrum(x, w, v, k);
        let cur = f.subrange(0, m as int);
        assert(cur.drop_last() =~= f.subrange(0, k as int));
        assert(cur.last() == modp(eval(x, pow(w, k))));
        lemma_modp_basics(eval(x, pow(w, k)));
        lemma_cong_mul(cur.last(), eval(x, pow(w, k)), pow(v, k), pow(v, k));
        lemma_cong_add(
            eval(f.subrange(0, k as int), v),
            cross(x, w, v, k),
            cur.last() * pow(v, k),
            eval(x, pow(w, k)) * pow(v, k),
        );
    } else {
        assert(f.subrange(0, 0) =~= Seq::<int>::empty());
    }
}

/// The sum over the one value of a polynomial with one coefficient is that
/// coefficient.
proof fn lemma_cross_single(x: Seq<int>, w: int, v: int)
    requires
        x.len() == 1,
    ensures
        cross(x, w, v, 1) == x[0],
{
    lemma_pow0(w);
    lemma_pow0(v);
    lemma_pow0(1);
    assert(cross(x, w, v, 0) == 0);
    assert(cross(x, w, v, 1) == cross(x, w, v, 0) + eval(x, pow(w, 0)) * pow(v, 0));
    assert(x.drop_last() =~= Seq::<int>::empty());
    assert(eval(x.drop_last(), 1) == 0);
    assert(eval(x, 1) == eval(x.drop_last(), 1) + x.last() * pow(1, 0));
    assert(x.last() == x[0]);
    assert(x[0] * 1 == x[0]);
}

/// The inverse transform undoes the transform: for every sequence of reduced
/// numbers whose length is a power of two up to `2^23`.
pub proof fn lemma_round_trip(x: Seq<int>)
    requires
        is_pow2(x.len()),
        x.len() <= MAX_LEN,
        reduced(x),
    ensures
        inverse(forward(x)) == x,
{
    let n = x.len();
    let w = unit_root(n, false);
    let u = unit_root(n, true);
    let f = forward(x);
    let back = inverse(f);
    lemma_inverse_of(n);
    assert forall|j: int| 0 <= j < n implies back[j] == x[j] by {
        let v = pow(u, j as nat);
        let target = eval(f, v);
        assert(f.subrange(0, n as int) =~= f);
        lemma_eval_of_spectrum(x, w, v, n);
        if n >= 2 {
            lemma_unit_root_half(n, false);
            lemma_unit_root_half(n, true);
            lemma_unit_root_inverse(n);
            lemma_pow0(w);
            assert(pow(w, 0) * v == v) by (nonlinear_arith)
                requires
                    pow(w, 0) == 1,
            ;
            lemma_cross_picks(x, w, u, n, 0, j as nat);
            assert(at(x, j - 0) == x[j]);
        } else {
            lemma_cross_single(x, w, v);
            assert(n * x[j] == x[0]) by (nonlinear_arith)
                requires
                    n == 1,
                    j == 0,
                    x[j] == x[0],
            ;
        }
        assert(modp(target) == modp(n * x[j]));
        // dividing by the length
        lemma_modp_basics(target);
        lemma_cong_mul(modp(target), n * x[j], inverse_of(n), inverse_of(n));
        assert((n * x[j]) * inverse_of(n) == x[j] * (n * inverse_of(n))) by (nonlinear_arith);
        lemma_cong_mul(x[j], x[j], n * inverse_of(n), 1);
        lemma_small_mod(1, MODULUS as nat);
        assert(x[j] * 1 == x[j]);
        lemma_modp_basics(x[j]);
    }
    assert(back =~= x);
}

} // verus!
