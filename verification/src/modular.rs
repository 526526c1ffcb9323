//! Whole numbers modulo the prime `998244353 = 119 * 2^23 + 1`, in which every
//! power of two up to `2^23` has a root of unity: the numbers that the exact
//! transform works in.

use crate::ft::{is_pow2, lemma_two_pow, two_pow};
use vstd::arithmetic::div_mod::{
    lemma_add_mod_noop, lemma_div_multiples_vanish, lemma_mod_add_multiples_vanish,
    lemma_mod_multiples_vanish, lemma_mul_mod_noop_general, lemma_small_mod, lemma_sub_mod_noop,
};
use vstd::arithmetic::power::{
    lemma1_pow, lemma_pow1, lemma_pow_adds, lemma_pow_distributes, lemma_pow_mod_noop,
    lemma_pow_multiplies, pow,
};
use vstd::prelude::*;

verus! {

/// The modulus, a prime.
pub const MODULUS: u64 = 998_244_353;

/// A root of unity of order `2^23` modulo the prime: `3^119`.
pub const ROOT: u64 = 15_311_432;

/// The inverse of [`ROOT`] modulo the prime.
pub const ROOT_INV: u64 = 469_870_224;

/// The inverse of 2 modulo the prime.
pub const HALF: u64 = 499_122_177;

/// The longest transform that the roots of unity allow: `2^23`.
pub const MAX_LEN: usize = 8_388_608;

/// `x` reduced modulo the prime.
pub open spec fn modp(x: int) -> int {
    x % (MODULUS as int)
}

/// The root of unity of order `2^23` that a transform starts from: [`ROOT`],
/// and its inverse for the inverse transform.
pub open spec fn root_base(inv: bool) -> int {
    if inv {
        ROOT_INV as int
    } else {
        ROOT as int
    }
}

/// The root of unity raised to the power `2^i`.
pub open spec fn root_pow2(i: nat, inv: bool) -> int {
    modp(pow(root_base(inv), two_pow(i)))
}

/// The root of unity of order `n`, for a power of two `n` up to `2^23`: the
/// root of order `2^23` raised to the power `2^23 / n`.
pub open spec fn unit_root(n: nat, inv: bool) -> int {
    modp(pow(root_base(inv), MAX_LEN as nat / n))
}

/// The inverse of the power of two `n` modulo the prime: one half, as often
/// as `n` can be halved.
pub open spec fn inverse_of(n: nat) -> int
    decreases n,
{
    if n <= 1 {
        1
    } else {
        modp(inverse_of(n / 2) * HALF)
    }
}

/// The binary logarithm of `n`, rounded down.
pub open spec fn log2(n: nat) -> nat
    decreases n,
{
    if n <= 1 {
        0
    } else {
        1 + log2(n / 2)
    }
}

/// The sum of `a` and `b` modulo the prime.
pub fn add_mod(a: u64, b: u64) -> (r: u64)
    requires
        a < MODULUS,
        b < MODULUS,
    ensures
        r == modp(a + b),
        r < MODULUS,
{
    (a + b) % MODULUS
}

/// The difference of `a` and `b` modulo the prime.
pub fn sub_mod(a: u64, b: u64) -> (r: u64)
    requires
        a < MODULUS,
        b < MODULUS,
    ensures
        r == modp(a - b),
        r < MODULUS,
{
    proof {
        lemma_mod_add_multiples_vanish(a - b, MODULUS as int);
    }
    (a + MODULUS - b) % MODULUS
}

/// The product of `a` and `b` modulo the prime.
pub fn mul_mod(a: u64, b: u64) -> (r: u64)
    requires
        a < MODULUS,
        b < MODULUS,
    ensures
        r == modp(a * b),
        r < MODULUS,
{
    proof {
        assert(a * b <= 998244352 * 998244352) by (nonlinear_arith)
            requires
                a <= 998244352,
                b <= 998244352,
        ;
    }
    (a * b) % MODULUS
}

/// Sums of congruent numbers are congruent.
pub proof fn lemma_cong_add(a: int, a2: int, b: int, b2: int)
    requires
        modp(a) == modp(a2),
        modp(b) == modp(b2),
    ensures
        modp(a + b) == modp(a2 + b2),
{
    lemma_add_mod_noop(a, b, MODULUS as int);
    lemma_add_mod_noop(a2, b2, MODULUS as int);
}

/// Differences of congruent numbers are congruent.
pub proof fn lemma_cong_sub(a: int, a2: int, b: int, b2: int)
    requires
        modp(a) == modp(a2),
        modp(b) == modp(b2),
    ensures
        modp(a - b) == modp(a2 - b2),
{
    lemma_sub_mod_noop(a, b, MODULUS as int);
    lemma_sub_mod_noop(a2, b2, MODULUS as int);
}

/// Products of congruent numbers are congruent.
pub proof fn lemma_cong_mul(a: int, a2: int, b: int, b2: int)
    requires
        modp(a) == modp(a2),
        modp(b) == modp(b2),
    ensures
        modp(a * b) == modp(a2 * b2),
{
    lemma_mul_mod_noop_general(a, b, MODULUS as int);
    lemma_mul_mod_noop_general(a2, b2, MODULUS as int);
}

/// Powers of congruent numbers are congruent.
pub proof fn lemma_cong_pow(a: int, a2: int, e: nat)
    requires
        modp(a) == modp(a2),
    ensures
        modp(pow(a, e)) == modp(pow(a2, e)),
{
    lemma_pow_mod_noop(a, e, MODULUS as int);
    lemma_pow_mod_noop(a2, e, MODULUS as int);
}

/// Reducing twice is reducing once, and a reduced number is its own
/// remainder.
pub proof fn lemma_modp_basics(x: int)
    ensures
        0 <= modp(x) < MODULUS,
        modp(modp(x)) == modp(x),
        0 <= x < MODULUS ==> modp(x) == x,
{
    if 0 <= x < MODULUS {
        lemma_small_mod(x as nat, MODULUS as nat);
    }
    lemma_small_mod(modp(x) as nat, MODULUS as nat);
}

/// Squaring the root raised to `2^i` raises it to `2^(i+1)`.
pub proof fn lemma_root_step(i: nat, inv: bool)
    ensures
        root_pow2(i + 1, inv) == modp(root_pow2(i, inv) * root_pow2(i, inv)),
{
    let b = root_base(inv);
    let e = two_pow(i);
    assert(two_pow(i + 1) == e + e);
    lemma_pow_adds(b, e, e);
    lemma_mul_mod_noop_general(pow(b, e), pow(b, e), MODULUS as int);
}

/// The root is of order `2^23`: raised to `2^22` it is `-1`, raised to `2^23`
/// it is 1.
pub proof fn lemma_root_order()
    ensures
        root_pow2(22, false) == MODULUS - 1,
        root_pow2(23, false) == 1,
{
    assert(root_pow2(0, false) == 15311432) by {
        assert(two_pow(0) == 1);
        lemma_pow1(ROOT as int);
    }
    lemma_root_step(0, false);
    assert(15311432int * 15311432int % 998244353 == 267099868);
    lemma_root_step(1, false);
    assert(267099868int * 267099868int % 998244353 == 733596141);
    lemma_root_step(2, false);
    assert(733596141int * 733596141int % 998244353 == 565042129);
    lemma_root_step(3, false);
    assert(565042129int * 565042129int % 998244353 == 363395222);
    lemma_root_step(4, false);
    assert(363395222int * 363395222int % 998244353 == 996173970);
    lemma_root_step(5, false);
    assert(996173970int * 996173970int % 998244353 == 24514907);
    lemma_root_step(6, false);
    assert(24514907int * 24514907int % 998244353 == 629671588);
    lemma_root_step(7, false);
    assert(629671588int * 629671588int % 998244353 == 968855178);
    lemma_root_step(8, false);
    assert(968855178int * 968855178int % 998244353 == 666702199);
    lemma_root_step(9, false);
    assert(666702199int * 666702199int % 998244353 == 350007156);
    lemma_root_step(10, false);
    assert(350007156int * 350007156int % 998244353 == 63912897);
    lemma_root_step(11, false);
    assert(63912897int * 63912897int % 998244353 == 584193783);
    lemma_root_step(12, false);
    assert(584193783int * 584193783int % 998244353 == 258648936);
    lemma_root_step(13, false);
    assert(258648936int * 258648936int % 998244353 == 166035806);
    lemma_root_step(14, false);
    assert(166035806int * 166035806int % 998244353 == 476477967);
    lemma_root_step(15, false);
    assert(476477967int * 476477967int % 998244353 == 781712469);
    lemma_root_step(16, false);
    assert(781712469int * 781712469int % 998244353 == 922799308);
    lemma_root_step(17, false);
    assert(922799308int * 922799308int % 998244353 == 452798380);
    lemma_root_step(18, false);
    assert(452798380int * 452798380int % 998244353 == 929031873);
    lemma_root_step(19, false);
    assert(929031873int * 929031873int % 998244353 == 372528824);
    lemma_root_step(20, false);
    assert(372528824int * 372528824int % 998244353 == 911660635);
    lemma_root_step(21, false);
    assert(911660635int * 911660635int % 998244353 == 998244352);
    lemma_root_step(22, false);
    assert(998244352int * 998244352int % 998244353 == 1);
}

/// The two roots are inverse to each other, and so are their powers.
pub proof fn lemma_root_inverse(e: nat)
    ensures
        modp(pow(ROOT as int, e) * pow(ROOT_INV as int, e)) == 1,
{
    let r = ROOT as int;
    let s = ROOT_INV as int;
    assert(15311432int * 469870224int % 998244353 == 1);
    lemma_pow_distributes(r, s, e);
    lemma_pow_mod_noop(r * s, e, MODULUS as int);
    lemma1_pow(e);
    lemma_small_mod(1, MODULUS as nat);
}

/// The inverse root raised to `2^22` is `-1` as well.
pub proof fn lemma_root_order_inverse()
    ensures
        root_pow2(22, true) == MODULUS - 1,
{
    lemma_root_order();
    let e = two_pow(22);
    lemma_root_inverse(e);
    let x = pow(ROOT as int, e);
    let y = pow(ROOT_INV as int, e);
    lemma_mul_mod_noop_general(x, y, MODULUS as int);
    let v = modp(y);
    // (P - 1) * v is congruent to 1, so v is congruent to -1
    assert(modp((MODULUS - 1) * v) == 1);
    assert((MODULUS - 1) * v == MODULUS * v + (-v)) by (nonlinear_arith);
    lemma_mod_multiples_vanish(v, -v, MODULUS as int);
    assert(modp(-v) == 1);
    if v == 0 {
        lemma_small_mod(0, MODULUS as nat);
    } else {
        lemma_mod_add_multiples_vanish(-v, MODULUS as int);
        lemma_small_mod((MODULUS - v) as nat, MODULUS as nat);
    }
}

/// The powers of two multiply by adding their exponents.
pub proof fn lemma_two_pow_adds(i: nat, j: nat)
    ensures
        two_pow(i + j) == two_pow(i) * two_pow(j),
    decreases i,
{
    if i == 0 {
        assert(two_pow(0) == 1);
        assert(1 * two_pow(j) == two_pow(j));
    } else {
        lemma_two_pow_adds((i - 1) as nat, j);
        assert(two_pow(i + j) == 2 * two_pow((i + j - 1) as nat));
        assert(2 * (two_pow((i - 1) as nat) * two_pow(j)) == (2 * two_pow((i - 1) as nat))
            * two_pow(j)) by (nonlinear_arith);
    }
}

/// `2^23` is the longest transform.
pub proof fn lemma_max_len()
    ensures
        two_pow(23) == MAX_LEN,
{
    assert(two_pow(5) == 32) by {
        reveal_with_fuel(two_pow, 6);
    }
    lemma_two_pow_adds(5, 5);
    lemma_two_pow_adds(10, 10);
    assert(two_pow(3) == 8) by {
        reveal_with_fuel(two_pow, 4);
    }
    lemma_two_pow_adds(20, 3);
    assert(two_pow(10) == 1024) by (nonlinear_arith)
        requires
            two_pow(5) == 32,
            two_pow(10) == two_pow(5) * two_pow(5),
    ;
    assert(two_pow(20) == 1048576) by (nonlinear_arith)
        requires
            two_pow(10) == 1024,
            two_pow(20) == two_pow(10) * two_pow(10),
    ;
    assert(two_pow(23) == 8388608) by (nonlinear_arith)
        requires
            two_pow(20) == 1048576,
            two_pow(3) == 8,
            two_pow(23) == two_pow(20) * two_pow(3),
    ;
}

/// A power of two is two to the power of its logarithm.
pub proof fn lemma_log2(n: nat)
    requires
        is_pow2(n),
    ensures
        two_pow(log2(n)) == n,
        n >= 2 ==> log2(n) >= 1 && log2(n / 2) + 1 == log2(n) && is_pow2(n / 2),
    decreases n,
{
    if n > 1 {
        lemma_log2(n / 2);
    } else {
        assert(two_pow(0) == 1);
    }
}

/// The logarithm of a power of two that is no greater than another is no
/// greater either.
pub proof fn lemma_log2_bound(n: nat, k: nat)
    requires
        is_pow2(n),
        n <= two_pow(k),
    ensures
        log2(n) <= k,
    decreases n,
{
    if n > 1 {
        if k == 0 {
            assert(two_pow(0) == 1);
        } else {
            assert(two_pow(k) == 2 * two_pow((k - 1) as nat));
            lemma_log2_bound(n / 2, (k - 1) as nat);
        }
    }
}

/// The root of unity of order `n` is the root raised to `2^(23 - log2(n))`.
pub proof fn lemma_unit_root_level(n: nat, inv: bool)
    requires
        is_pow2(n),
        n <= MAX_LEN,
    ensures
        log2(n) <= 23,
        unit_root(n, inv) == root_pow2((23 - log2(n)) as nat, inv),
{
    lemma_max_len();
    lemma_log2(n);
    lemma_log2_bound(n, 23);
    let s = log2(n);
    let r = (23 - s) as nat;
    lemma_two_pow_adds(r, s);
    lemma_two_pow(r);
    lemma_div_multiples_vanish(two_pow(r) as int, n as int);
}

/// The root of unity of half the order is the square of the root.
pub proof fn lemma_unit_root_square(n: nat, inv: bool)
    requires
        is_pow2(n),
        2 <= n <= MAX_LEN,
    ensures
        unit_root(n / 2, inv) == modp(unit_root(n, inv) * unit_root(n, inv)),
{
    lemma_log2(n);
    lemma_unit_root_level(n, inv);
    lemma_unit_root_level(n / 2, inv);
    lemma_root_step((23 - log2(n)) as nat, inv);
}

/// The root of unity of order `n` raised to half its order is `-1`.
pub proof fn lemma_unit_root_half(n: nat, inv: bool)
    requires
        is_pow2(n),
        2 <= n <= MAX_LEN,
    ensures
        modp(pow(unit_root(n, inv), n / 2)) == MODULUS - 1,
{
    lemma_max_len();
    lemma_log2(n);
    lemma_log2_bound(n, 23);
    lemma_log2(n / 2);
    let s = log2(n);
    let r = (23 - s) as nat;
    let b = root_base(inv);
    lemma_unit_root_level(n, inv);
    // (b^(2^r))^(n/2) = b^(2^r * 2^(s-1)) = b^(2^22)
    lemma_pow_mod_noop(pow(b, two_pow(r)), n / 2, MODULUS as int);
    lemma_pow_multiplies(b, two_pow(r), n / 2);
    lemma_two_pow_adds(r, (s - 1) as nat);
    if inv {
        lemma_root_order_inverse();
    } else {
        lemma_root_order();
    }
}

/// The roots of unity of one order for the transform and for its inverse are
/// inverse to each other.
pub proof fn lemma_unit_root_inverse(n: nat)
    requires
        is_pow2(n),
        n <= MAX_LEN,
    ensures
        modp(unit_root(n, false) * unit_root(n, true)) == 1,
{
    let e = MAX_LEN as nat / n;
    lemma_root_inverse(e);
    lemma_mul_mod_noop_general(pow(ROOT as int, e), pow(ROOT_INV as int, e), MODULUS as int);
}

/// `inverse_of(n)` is the inverse of the power of two `n`.
pub proof fn lemma_inverse_of(n: nat)
    requires
        is_pow2(n),
    ensures
        modp(n * inverse_of(n)) == 1,
        0 <= inverse_of(n) < MODULUS,
    decreases n,
{
    if n <= 1 {
        lemma_small_mod(1, MODULUS as nat);
    } else {
        let h = n / 2;
        lemma_inverse_of(h);
        let v = inverse_of(h);
        // n * (v * HALF) = (h * v) * (2 * HALF), and 2 * HALF is congruent to 1
        assert(2int * 499122177int % 998244353 == 1);
        lemma_mul_mod_noop_general(n as int, v * HALF, MODULUS as int);
        assert(n * (v * HALF) == (h * v) * (2 * HALF)) by (nonlinear_arith)
            requires
                n == 2 * h,
        ;
        lemma_cong_mul(h * v, 1, 2 * HALF, 1);
        lemma_small_mod(1, MODULUS as nat);
    }
}

} // verus!
