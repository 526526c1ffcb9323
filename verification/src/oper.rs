//! Addition, multiplication and squaring of digit vectors, with the carry
//! propagation and trimming that they share.

use crate::digits::{
    canon, canonical, fixed_digits, is_digits, lemma_canon, lemma_canonical_unique,
    lemma_fixed_digits_drops_high, lemma_fixed_digits_len, lemma_fixed_digits_of_value,
    lemma_fixed_digits_value, lemma_pow10_adds, lemma_pow10_monotonic, lemma_pow10_positive,
    lemma_prefix_step, lemma_trim, lemma_value_bound,
    lemma_value_lower_bound, lemma_value_push, lemma_value_zeros, pow10, prefix, trim, value,
};
use crate::ft::{fft, ints, is_pow2, lemma_pow2_next, rev_swap, rev_table, RevCash};
use crate::modular::{
    lemma_cong_mul, lemma_max_len, lemma_modp_basics, modp, mul_mod, MAX_LEN, MODULUS,
};
use crate::poly::{
    at, conv, digit_ints, eval, lemma_conv_bound, lemma_eval_conv, lemma_eval_padded,
    lemma_pow10_is_pow, lemma_value_is_eval, padded,
};
use crate::spectrum::{forward, inverse, lemma_round_trip, reduced};
use rayon::iter::{IntoParallelIterator, ParallelIterator};
use vstd::arithmetic::power::pow;
use vstd::prelude::*;
use vstd::slice::slice_to_vec;

verus! {

/// The larger of two lengths.
pub open spec fn longer(m: nat, n: nat) -> nat {
    if m >= n {
        m
    } else {
        n
    }
}

/// The digit-by-digit sum of two digit sequences: as wide as the longer of the
/// two, and one digit wider where the sum does not fit.
pub open spec fn wide_sum(a: Seq<u8>, b: Seq<u8>) -> Seq<u8> {
    let m = longer(a.len(), b.len());
    let s = value(a) + value(b);
    if s < pow10(m) {
        fixed_digits(s, m)
    } else {
        fixed_digits(s, m + 1)
    }
}

/// What [`add_vec`] returns: the other operand where one is the single digit
/// zero, the digit-by-digit sum otherwise.
pub open spec fn sum_digits(a: Seq<u8>, b: Seq<u8>) -> Seq<u8> {
    if a == seq![0u8] {
        b
    } else if b == seq![0u8] {
        a
    } else {
        wide_sum(a, b)
    }
}

/// What [`mul_vec`] returns: zero or the other operand where one is the single
/// digit zero or one, the canonical digits of the product otherwise.
pub open spec fn product_digits(a: Seq<u8>, b: Seq<u8>) -> Seq<u8> {
    if a == seq![0u8] || b == seq![0u8] {
        seq![0u8]
    } else if a == seq![1u8] {
        b
    } else if b == seq![1u8] {
        a
    } else {
        canon(value(a) * value(b))
    }
}

/// The number that a sequence of coefficients stands for when the coefficient
/// at index `i` weighs `10^i`. A coefficient may be any number, not a digit
/// only.
pub open spec fn weighted(c: Seq<u32>) -> nat
    decreases c.len(),
{
    if c.len() == 0 {
        0
    } else {
        weighted(c.drop_last()) + c.last() as nat * pow10((c.len() - 1) as nat)
    }
}

/// How many coefficients [`normalize`] reads: all `size` of them, but no more
/// than twice `src_size + 1`.
pub open spec fn normalized_len(size: nat, src_size: nat) -> nat {
    if 2 * (src_size + 1) < size {
        2 * (src_size + 1)
    } else {
        size
    }
}

/// The value of the single digit `d` alone.
pub proof fn lemma_value_single(d: u8)
    ensures
        value(seq![d]) == d as nat,
{
    let s = seq![d];
    assert(s.drop_last() =~= Seq::<u8>::empty());
    assert(value(s.drop_last()) == 0);
    assert(pow10(0) == 1);
    assert(s.last() == d);
    assert(d as nat * 1 == d as nat);
}

/// The digit-by-digit sum is a digit sequence that stands for the sum of the
/// two numbers.
pub proof fn lemma_wide_sum(a: Seq<u8>, b: Seq<u8>)
    requires
        is_digits(a),
        is_digits(b),
    ensures
        is_digits(wide_sum(a, b)),
        value(wide_sum(a, b)) == value(a) + value(b),
        wide_sum(a, b) == wide_sum(b, a),
        wide_sum(a, b).len() == longer(a.len(), b.len()) || wide_sum(a, b).len() == longer(
            a.len(),
            b.len(),
        ) + 1,
        canonical(a) && canonical(b) ==> wide_sum(a, b) == canon(value(a) + value(b)),
{
    let m = longer(a.len(), b.len());
    let s = value(a) + value(b);
    lemma_value_bound(a);
    lemma_value_bound(b);
    lemma_pow10_monotonic(a.len(), m);
    lemma_pow10_monotonic(b.len(), m);
    assert(pow10(m + 1) == 10 * pow10(m));
    lemma_fixed_digits_len(s, m);
    lemma_fixed_digits_len(s, m + 1);
    if s < pow10(m) {
        lemma_fixed_digits_value(s, m);
    } else {
        lemma_fixed_digits_value(s, m + 1);
    }
    if canonical(a) && canonical(b) {
        let w = wide_sum(a, b);
        if s < pow10(m) {
            if m > 1 {
                // the longer operand has a leading digit that is not zero
                if a.len() == m {
                    lemma_value_lower_bound(a);
                } else {
                    lemma_value_lower_bound(b);
                }
                if w.last() == 0 {
                    let t = w.drop_last();
                    assert(is_digits(t)) by {
                        assert forall|i: int| 0 <= i < t.len() implies #[trigger] t[i] <= 9 by {
                            assert(t[i] == w[i]);
                        }
                    }
                    lemma_value_bound(t);
                    assert(0 * pow10((m - 1) as nat) == 0);
                }
            }
        } else {
            if w.last() == 0 {
                let t = w.drop_last();
                assert(is_digits(t)) by {
                    assert forall|i: int| 0 <= i < t.len() implies #[trigger] t[i] <= 9 by {
                        assert(t[i] == w[i]);
                    }
                }
                lemma_value_bound(t);
                assert(0 * pow10(m) == 0);
            }
        }
        lemma_canonical_unique(w);
    }
}

/// What [`add_vec`] returns is a digit sequence that stands for the sum of the
/// two numbers, and is canonical where both operands are.
pub proof fn lemma_sum_digits(a: Seq<u8>, b: Seq<u8>)
    requires
        is_digits(a),
        is_digits(b),
    ensures
        is_digits(sum_digits(a, b)),
        value(sum_digits(a, b)) == value(a) + value(b),
        canonical(a) && canonical(b) ==> sum_digits(a, b) == canon(value(a) + value(b)),
{
    lemma_value_single(0);
    lemma_wide_sum(a, b);
    if canonical(a) {
        lemma_canonical_unique(a);
    }
    if canonical(b) {
        lemma_canonical_unique(b);
    }
}

/// What [`mul_vec`] returns is a digit sequence that stands for the product of
/// the two numbers, and is canonical where both operands are.
pub proof fn lemma_product_digits(a: Seq<u8>, b: Seq<u8>)
    requires
        is_digits(a),
        is_digits(b),
    ensures
        is_digits(product_digits(a, b)),
        value(product_digits(a, b)) == value(a) * value(b),
        canonical(a) && canonical(b) ==> product_digits(a, b) == canon(value(a) * value(b)),
{
    lemma_value_single(0);
    lemma_value_single(1);
    lemma_canon(value(a) * value(b));
    lemma_canon(0);
    assert(0 * value(b) == 0);
    assert(value(a) * 0 == 0);
    assert(1 * value(b) == value(b));
    assert(value(a) * 1 == value(a));
    if canonical(a) {
        lemma_canonical_unique(a);
    }
    if canonical(b) {
        lemma_canonical_unique(b);
    }
}

/// Whether `a` is the one digit `d` and nothing else.
fn is_single(a: &[u8], d: u8) -> (r: bool)
    ensures
        r == (a@ == seq![d]),
{
    if a.len() == 1 && a[0] == d {
        assert(a@ =~= seq![d]);
        true
    } else {
        assert(seq![d].len() == 1 && seq![d][0] == d);
        false
    }
}

/// Removes the most significant zeros of `res`, down to one digit at the least.
fn trim_zeros(res: &mut Vec<u8>)
    ensures
        final(res)@ == trim(old(res)@),
{
    while res.len() > 1 && res[res.len() - 1] == 0
        invariant
            trim(res@) == trim(old(res)@),
        decreases res.len(),
    {
        proof {
            assert(res@.last() == 0);
        }
        let ghost before = res@;
        res.pop();
        assert(res@ =~= before.drop_last());
    }
}

/// The sum of two digit vectors.
///
/// Where one operand is the single digit zero the other is returned as it is;
/// otherwise the result is as wide as the longer operand, and one digit wider
/// where the sum carries out of it.
pub fn add_vec(arr_a: &[u8], arr_b: &[u8]) -> (res: Vec<u8>)
    requires
        is_digits(arr_a@),
        is_digits(arr_b@),
    ensures
        res@ == sum_digits(arr_a@, arr_b@),
        is_digits(res@),
        value(res@) == value(arr_a@) + value(arr_b@),
        canonical(arr_a@) && canonical(arr_b@) ==> canonical(res@),
{
    proof {
        lemma_sum_digits(arr_a@, arr_b@);
        lemma_canon(value(arr_a@) + value(arr_b@));
    }
    if is_single(arr_a, 0) {
        return slice_to_vec(arr_b);
    }
    if is_single(arr_b, 0) {
        return slice_to_vec(arr_a);
    }
    if arr_a.len() >= arr_b.len() {
        add_vec_loc(arr_a, arr_b)
    } else {
        proof {
            lemma_wide_sum(arr_a@, arr_b@);
        }
        add_vec_loc(arr_b, arr_a)
    }
}

/// The digit-by-digit sum of `a` and a `b` that is no longer than `a`.
pub(crate) fn add_vec_loc(a: &[u8], b: &[u8]) -> (res: Vec<u8>)
    requires
        is_digits(a@),
        is_digits(b@),
        a.len() >= b.len(),
    ensures
        res@ == wide_sum(a@, b@),
{
    let size_a = a.len();
    let size_b = b.len();
    let mut res: Vec<u8> = Vec::new();
    let mut carry: u8 = 0;
    let mut i: usize = 0;
    proof {
        lemma_prefix_step(a@, 0);
        lemma_prefix_step(b@, 0);
        assert(0 * pow10(0) == 0);
    }
    while i < size_a
        invariant
            i <= size_a,
            size_a == a.len(),
            size_b == b.len(),
            size_b <= size_a,
            is_digits(a@),
            is_digits(b@),
            is_digits(res@),
            res.len() == i,
            carry <= 1,
            value(res@) + carry as nat * pow10(i as nat) == value(prefix(a@, i as int)) + value(
                prefix(b@, i as int),
            ),
        decreases size_a - i,
    {
        let ghost before = res@;
        let ghost p = pow10(i as nat);
        assert(a@[i as int] <= 9);
        let mut t: u8 = a[i] + carry;
        if i < size_b {
            assert(b@[i as int] <= 9);
            t = t + b[i];
        }
        let ghost sum = t as nat;
        let digit: u8 = if t > 9 {
            t - 10
        } else {
            t
        };
        let next: u8 = if t > 9 {
            1
        } else {
            0
        };
        res.push(digit);
        proof {
            lemma_value_push(before, digit);
            lemma_prefix_step(a@, i as int);
            lemma_prefix_step(b@, i as int);
            assert(pow10((i + 1) as nat) == 10 * p);
            assert(digit as nat * p + next as nat * (10 * p) == sum * p) by (nonlinear_arith)
                requires
                    digit as nat + 10 * next as nat == sum,
            ;
            let ai = a@[i as int] as nat;
            let bi = if i < size_b {
                b@[i as int] as nat
            } else {
                0nat
            };
            assert(sum * p == ai * p + bi * p + carry as nat * p) by (nonlinear_arith)
                requires
                    sum == ai + bi + carry as nat,
            ;
            assert(0 * p == 0);
            assert forall|k: int| 0 <= k < res@.len() implies #[trigger] res@[k] <= 9 by {
                if k < before.len() {
                    assert(res@[k] == before[k]);
                }
            }
        }
        carry = next;
        i = i + 1;
    }
    proof {
        assert(prefix(a@, size_a as int) == a@);
        assert(prefix(b@, size_a as int) == b@);
    }
    let ghost low = res@;
    if carry > 0 {
        res.push(carry);
        proof {
            lemma_value_push(low, carry);
            assert(1 * pow10(size_a as nat) == pow10(size_a as nat));
            lemma_value_bound(low);
            assert forall|k: int| 0 <= k < res@.len() implies #[trigger] res@[k] <= 9 by {
                if k < low.len() {
                    assert(res@[k] == low[k]);
                }
            }
        }
    } else {
        proof {
            assert(0 * pow10(size_a as nat) == 0);
            lemma_value_bound(low);
        }
    }
    proof {
        lemma_fixed_digits_of_value(res@);
    }
    res
}

/// Putting the digit `d` in the place `k` changes the number that `s` stands
/// for by the difference of the new and the old digit, weighted by `10^k`.
proof fn lemma_value_update(s: Seq<u8>, k: int, d: u8)
    requires
        0 <= k < s.len(),
    ensures
        value(s.update(k, d)) + s[k] as nat * pow10(k as nat) == value(s) + d as nat * pow10(
            k as nat,
        ),
    decreases s.len(),
{
    let u = s.update(k, d);
    if k == s.len() - 1 {
        assert(u.drop_last() =~= s.drop_last());
    } else {
        lemma_value_update(s.drop_last(), k, d);
        assert(u.drop_last() =~= s.drop_last().update(k, d));
    }
}

/// The canonical digits of the product of two digit vectors, by long
/// multiplication: each digit of `a` times all of `b`, added into the result at
/// its place, with the carries taken along. This is the way for operands that
/// are too long for the transform.
pub fn long_mul(a: &[u8], b: &[u8]) -> (res: Vec<u8>)
    requires
        is_digits(a@),
        is_digits(b@),
    ensures
        res@ == canon(value(a@) * value(b@)),
{
    let size_a = a.len();
    let size_b = b.len();
    let mut res: Vec<u8> = Vec::new();
    let mut k: usize = 0;
    while k < size_a
        invariant
            k <= size_a,
            res.len() == k,
            forall|m: int| 0 <= m < res.len() ==> res@[m] == 0,
        decreases size_a - k,
    {
        res.push(0);
        k = k + 1;
    }
    k = 0;
    while k < size_b
        invariant
            k <= size_b,
            res.len() == size_a + k,
            forall|m: int| 0 <= m < res.len() ==> res@[m] == 0,
        decreases size_b - k,
    {
        res.push(0);
        k = k + 1;
    }
    proof {
        lemma_value_zeros(res@);
        lemma_prefix_step(a@, 0);
        assert(0 * value(b@) == 0);
    }
    let ghost vb = value(b@);
    let mut i: usize = 0;
    while i < size_a
        invariant
            i <= size_a,
            size_a == a.len(),
            size_b == b.len(),
            res.len() == size_a + size_b,
            is_digits(a@),
            is_digits(b@),
            is_digits(res@),
            vb == value(b@),
            forall|m: int| i + size_b <= m < res.len() ==> res@[m] == 0,
            value(res@) == value(prefix(a@, i as int)) * vb,
        decreases size_a - i,
    {
        let ai: u8 = a[i];
        assert(ai <= 9) by {
            assert(a@[i as int] <= 9);
        }
        let ghost row = value(res@);
        let ghost pi = pow10(i as nat);
        let mut carry: u8 = 0;
        let mut j: usize = 0;
        proof {
            lemma_prefix_step(b@, 0);
            assert(0 * pow10(i as nat) == 0);
            assert(ai as nat * pi * 0 == 0);
        }
        while j < size_b
            invariant
                j <= size_b,
                i < size_a,
                size_a == a.len(),
                size_b == b.len(),
                res.len() == size_a + size_b,
                is_digits(b@),
                is_digits(res@),
                ai <= 9,
                carry <= 9,
                pi == pow10(i as nat),
                forall|m: int| i + size_b <= m < res.len() ==> res@[m] == 0,
                value(res@) + carry as nat * pow10((i + j) as nat) == row + ai as nat * pi * value(
                    prefix(b@, j as int),
                ),
            decreases size_b - j,
        {
            let ghost before = res@;
            let ghost p = pow10((i + j) as nat);
            let bj: u8 = b[j];
            assert(bj <= 9) by {
                assert(b@[j as int] <= 9);
            }
            let old_digit: u8 = res[i + j];
            assert(old_digit <= 9) by {
                assert(res@[i + j] <= 9);
            }
            assert(ai * bj <= 81) by (nonlinear_arith)
                requires
                    ai <= 9,
                    bj <= 9,
            ;
            let t: u8 = old_digit + ai * bj + carry;
            let digit: u8 = t % 10;
            let next: u8 = t / 10;
            res[i + j] = digit;
            proof {
                lemma_value_update(before, (i + j) as int, digit);
                lemma_prefix_step(b@, j as int);
                lemma_pow10_adds(i as nat, j as nat);
                assert(pow10((i + j + 1) as nat) == 10 * p);
                let pj = pow10(j as nat);
                let vbj = value(prefix(b@, j as int));
                assert(digit as nat * p + next as nat * (10 * p) == old_digit as nat * p + (ai as nat
                    * bj as nat) * p + carry as nat * p) by (nonlinear_arith)
                    requires
                        digit as nat + 10 * next as nat == old_digit as nat + ai as nat * bj as nat
                            + carry as nat,
                ;
                assert(ai as nat * pi * (vbj + bj as nat * pj) == ai as nat * pi * vbj + (ai as nat
                    * bj as nat) * p) by (nonlinear_arith)
                    requires
                        p == pi * pj,
                ;
                assert forall|m: int| 0 <= m < res@.len() implies #[trigger] res@[m] <= 9 by {
                    if m != i + j {
                        assert(res@[m] == before[m]);
                    }
                }
            }
            carry = next;
            j = j + 1;
        }
        let ghost before = res@;
        assert(res@[i + size_b] == 0);
        res[i + size_b] = carry;
        proof {
            lemma_value_update(before, (i + size_b) as int, carry);
            assert(0 * pow10((i + size_b) as nat) == 0);
            assert(prefix(b@, size_b as int) == b@);
            lemma_prefix_step(a@, i as int);
            let va = value(prefix(a@, i as int));
            assert((va + ai as nat * pi) * vb == va * vb + ai as nat * pi * vb)
                by (nonlinear_arith);
            assert forall|m: int| 0 <= m < res@.len() implies #[trigger] res@[m] <= 9 by {
                if m != i + size_b {
                    assert(res@[m] == before[m]);
                }
            }
        }
        i = i + 1;
    }
    proof {
        assert(prefix(a@, size_a as int) == a@);
    }
    if res.len() == 0 {
        res.push(0);
        proof {
            assert(res@ =~= seq![0u8]);
            lemma_value_single(0);
            assert(a@ =~= Seq::<u8>::empty());
            assert(0 * vb == 0);
        }
    }
    proof {
        lemma_trim(res@);
    }
    trim_zeros(&mut res);
    res
}

/// Taking one more coefficient into a prefix adds its weighted worth.
proof fn lemma_weighted_step(c: Seq<u32>, i: int)
    requires
        0 <= i < c.len(),
    ensures
        weighted(c.subrange(0, i + 1)) == weighted(c.subrange(0, i)) + c[i] as nat * pow10(
            i as nat,
        ),
{
    assert(c.subrange(0, i + 1).drop_last() =~= c.subrange(0, i));
}

/// Turns the coefficients of a product into its digits.
///
/// `inp_arr` holds at least `size` coefficients, of which the one at index `i`
/// weighs `10^i`; `src_size` is the length of the longer operand. The first
/// `normalized_len(size, src_size)` coefficients are read, each is added to the
/// running carry, the lowest digit of the sum is kept and the rest carried on.
/// A carry out of the last of them is dropped. The most significant zeros are
/// then removed, down to one digit.
pub fn normalize(inp_arr: &[u32], size: usize, src_size: usize) -> (res: Vec<u8>)
    requires
        size <= inp_arr.len(),
    ensures
        res@ == trim(
            fixed_digits(
                weighted(
                    inp_arr@.subrange(0, normalized_len(size as nat, src_size as nat) as int),
                ),
                normalized_len(size as nat, src_size as nat),
            ),
        ),
{
    let res_size: usize = if src_size >= size / 2 {
        size
    } else {
        2 * (src_size + 1)
    };
    assert(res_size == normalized_len(size as nat, src_size as nat));
    let mut res: Vec<u8> = Vec::new();
    let mut carry: u64 = 0;
    let mut i: usize = 0;
    proof {
        assert(inp_arr@.subrange(0, 0) =~= Seq::<u32>::empty());
        assert(0 * pow10(0) == 0);
    }
    while i < res_size
        invariant
            i <= res_size,
            res_size <= inp_arr.len(),
            res.len() == i,
            is_digits(res@),
            carry <= u32::MAX,
            value(res@) + carry as nat * pow10(i as nat) == weighted(
                inp_arr@.subrange(0, i as int),
            ),
        decreases res_size - i,
    {
        let ghost before = res@;
        let ghost p = pow10(i as nat);
        let x: u64 = inp_arr[i] as u64 + carry;
        let digit: u8 = (x % 10) as u8;
        let next: u64 = x / 10;
        res.push(digit);
        proof {
            lemma_value_push(before, digit);
            lemma_weighted_step(inp_arr@, i as int);
            assert(pow10((i + 1) as nat) == 10 * p);
            assert(digit as nat * p + next as nat * (10 * p) == inp_arr@[i as int] as nat * p
                + carry as nat * p) by (nonlinear_arith)
                requires
                    digit as nat + 10 * next as nat == inp_arr@[i as int] as nat + carry as nat,
            ;
            assert forall|k: int| 0 <= k < res@.len() implies #[trigger] res@[k] <= 9 by {
                if k < before.len() {
                    assert(res@[k] == before[k]);
                }
            }
        }
        carry = next;
        i = i + 1;
    }
    proof {
        lemma_fixed_digits_of_value(res@);
        lemma_fixed_digits_drops_high(value(res@), carry as nat, res_size as nat);
    }
    trim_zeros(&mut res);
    res
}

/// The most digits that an operand may have for the transform to take it: half
/// the longest transform.
pub const MAX_OPERAND: usize = 4_194_304;

/// The coefficients of a vector as whole numbers.
pub open spec fn coefficient_ints(s: Seq<u32>) -> Seq<int> {
    Seq::new(s.len(), |i: int| s[i] as int)
}

/// The number that coefficients stand for is the value at 10 of their
/// polynomial.
proof fn lemma_weighted_is_eval(s: Seq<u32>)
    ensures
        weighted(s) == eval(coefficient_ints(s), 10),
    decreases s.len(),
{
    if s.len() > 0 {
        lemma_weighted_is_eval(s.drop_last());
        assert(coefficient_ints(s).drop_last() =~= coefficient_ints(s.drop_last()));
        lemma_pow10_is_pow((s.len() - 1) as nat);
    }
}

/// The transform of the product of two digit vectors, and what comes back from
/// it: the pointwise products of the transforms of the operands are the
/// transform of the coefficients of the product, and the inverse transform
/// gives these coefficients back exactly.
proof fn lemma_product_by_transform(a: Seq<u8>, b: Seq<u8>, n: nat)
    requires
        is_digits(a),
        is_digits(b),
        is_pow2(n),
        n <= MAX_LEN,
        a.len() + b.len() <= n,
    ensures
        reduced(conv(digit_ints(a), digit_ints(b), n)),
        forall|k: int|
            0 <= k < n ==> modp(
                #[trigger] forward(padded(digit_ints(a), n))[k] * forward(
                    padded(digit_ints(b), n),
                )[k],
            ) == forward(conv(digit_ints(a), digit_ints(b), n))[k],
        inverse(forward(conv(digit_ints(a), digit_ints(b), n))) == conv(
            digit_ints(a),
            digit_ints(b),
            n,
        ),
        eval(conv(digit_ints(a), digit_ints(b), n), 10) == value(a) * value(b),
{
    let ai = digit_ints(a);
    let bi = digit_ints(b);
    let pa = padded(ai, n);
    let pb = padded(bi, n);
    let c = conv(ai, bi, n);
    let w = crate::modular::unit_root(n, false);
    assert(reduced(c)) by {
        assert forall|k: int| 0 <= k < c.len() implies 0 <= #[trigger] c[k] < MODULUS by {
            lemma_conv_bound(a, b, k);
            lemma_max_len();
        }
    }
    assert forall|k: int| 0 <= k < n implies modp(#[trigger] forward(pa)[k] * forward(pb)[k])
        == forward(c)[k] by {
        let z = pow(w, k as nat);
        lemma_eval_padded(ai, n, z);
        lemma_eval_padded(bi, n, z);
        lemma_eval_conv(ai, bi, n, z);
        lemma_modp_basics(eval(pa, z));
        lemma_modp_basics(eval(pb, z));
        lemma_cong_mul(forward(pa)[k], eval(ai, z), forward(pb)[k], eval(bi, z));
    }
    lemma_round_trip(c);
    lemma_eval_conv(ai, bi, n, 10);
    lemma_value_is_eval(a);
    lemma_value_is_eval(b);
}

/// The least power of two that is no less than `size`.
pub open spec fn ceil_pow2(size: nat) -> nat
    decreases size,
{
    if size <= 1 {
        1
    } else {
        2 * ceil_pow2((size + 1) / 2)
    }
}

/// The length of the transform for operands of `size` digits at the most: the
/// least power of two that is no less than `size`, doubled, so that the
/// product has room in it.
pub open spec fn transform_size(size: nat) -> nat {
    2 * ceil_pow2(size)
}

/// Whether [`mul_vec`] multiplies `a` and `b` by way of the transform: neither
/// is the single digit zero or one, nor longer than the transform has room
/// for.
pub open spec fn uses_transform(a: Seq<u8>, b: Seq<u8>) -> bool {
    &&& a != seq![0u8] && b != seq![0u8]
    &&& a != seq![1u8] && b != seq![1u8]
    &&& a.len() <= MAX_OPERAND && b.len() <= MAX_OPERAND
}

/// The lengths that a table of permutations holds after `a` and `b` have been
/// multiplied with it, where it held `before`: the transform length has come
/// to them where the transform was used.
pub open spec fn sizes_after(before: Set<usize>, a: Seq<u8>, b: Seq<u8>) -> Set<usize> {
    if uses_transform(a, b) {
        before.insert(transform_size(longer(a.len(), b.len())) as usize)
    } else {
        before
    }
}

/// `ceil_pow2(size)` is a power of two, no less than `size`, and the least
/// such.
pub proof fn lemma_ceil_pow2(size: nat)
    ensures
        is_pow2(ceil_pow2(size)),
        ceil_pow2(size) >= size,
        ceil_pow2(size) == 1 || ceil_pow2(size) / 2 < size,
    decreases size,
{
    if size > 1 {
        lemma_ceil_pow2((size + 1) / 2);
    }
}

/// A power of two that is no less than `size`, and whose half is less, is the
/// least power of two that is no less than `size`.
proof fn lemma_ceil_pow2_unique(p: nat, size: nat)
    requires
        is_pow2(p),
        p >= size,
        p == 1 || p / 2 < size,
    ensures
        p == ceil_pow2(size),
{
    let c = ceil_pow2(size);
    lemma_ceil_pow2(size);
    if p < c {
        lemma_pow2_next(p, c);
    } else if c < p {
        lemma_pow2_next(c, p);
    }
}

/// The length of the transform for operands of `size` digits at the most.
fn transform_len(size: usize) -> (n: usize)
    requires
        size <= MAX_OPERAND,
    ensures
        n == transform_size(size as nat),
        is_pow2(n as nat),
        2 <= n <= MAX_LEN,
        2 * size <= n,
{
    let mut p: usize = 1;
    proof {
        lemma_max_len();
        crate::ft::lemma_two_pow(22);
        assert(crate::ft::two_pow(23) == 2 * crate::ft::two_pow(22));
    }
    while p < size
        invariant
            is_pow2(p as nat),
            p <= MAX_OPERAND,
            size <= MAX_OPERAND,
            is_pow2(MAX_OPERAND as nat),
            p == 1 || p / 2 < size,
        decreases MAX_OPERAND - p,
    {
        proof {
            lemma_pow2_next(p as nat, MAX_OPERAND as nat);
            assert(is_pow2((2 * p) as nat));
        }
        p = p * 2;
    }
    proof {
        lemma_ceil_pow2_unique(p as nat, size as nat);
        assert(is_pow2((2 * p) as nat));
    }
    p * 2
}

/// The transform of a digit vector, continued with zeros to the length
/// `size`, which is a power of two up to `2^23`; `rev_indexes` is the
/// bit-reversal permutation of that length.
pub fn go_fft(inp_arr: &[u8], rev_indexes: &[usize], size: usize) -> (res: Vec<u64>)
    requires
        is_pow2(size as nat),
        size <= MAX_LEN,
        inp_arr.len() <= size,
        rev_indexes@ == rev_table(size as nat),
    ensures
        ints(res@) == forward(padded(digit_ints(inp_arr@), size as nat)),
        reduced(ints(res@)),
        res.len() == size,
{
    let mut res: Vec<u64> = Vec::new();
    let mut i: usize = 0;
    while i < size
        invariant
            i <= size,
            inp_arr.len() <= size,
            res.len() == i,
            forall|k: int| 0 <= k < i ==> #[trigger] res@[k] == at(digit_ints(inp_arr@), k),
        decreases size - i,
    {
        let d: u64 = if i < inp_arr.len() {
            inp_arr[i] as u64
        } else {
            0
        };
        res.push(d);
        i = i + 1;
    }
    proof {
        assert(ints(res@) =~= padded(digit_ints(inp_arr@), size as nat));
        assert(reduced(ints(res@)));
    }
    fft(&mut res, rev_indexes, false);
    res
}

/// The product of the elements at `i` of `x` and `y`, modulo the prime.
fn product_at(x: &Vec<u64>, y: &Vec<u64>, i: usize) -> (r: u64)
    requires
        i < x.len(),
        i < y.len(),
        x@[i as int] < MODULUS,
        y@[i as int] < MODULUS,
    ensures
        r == modp(x@[i as int] * y@[i as int]),
{
    mul_mod(x[i], y[i])
}

/// The transforms of two digit vectors. Trusted: `join` of the `rayon` crate,
/// which runs its two closures, on two threads where it can, and returns what
/// the first and what the second returned as a pair. Each closure is one call
/// of [`go_fft`], whose contract the result repeats.
#[verifier::external_body]
fn join_transforms(a: &[u8], b: &[u8], rev_indexes: &[usize], size: usize) -> (r: (
    Vec<u64>,
    Vec<u64>,
))
    requires
        is_pow2(size as nat),
        size <= MAX_LEN,
        a.len() <= size,
        b.len() <= size,
        rev_indexes@ == rev_table(size as nat),
    ensures
        ints(r.0@) == forward(padded(digit_ints(a@), size as nat)),
        ints(r.1@) == forward(padded(digit_ints(b@), size as nat)),
        reduced(ints(r.0@)),
        reduced(ints(r.1@)),
        r.0.len() == size,
        r.1.len() == size,
{
    rayon::join(|| go_fft(a, rev_indexes, size), || go_fft(b, rev_indexes, size))
}

/// The products of the elements of `x` and `y` at each index. Trusted: the
/// parallel iterator of the `rayon` crate over a range of indices, which
/// collects into a vector what the closure returns for each index, in the
/// order of the indices. The closure is one call of [`product_at`].
#[verifier::external_body]
fn pointwise_products(x: &Vec<u64>, y: &Vec<u64>) -> (r: Vec<u64>)
    requires
        x.len() == y.len(),
        reduced(ints(x@)),
        reduced(ints(y@)),
    ensures
        r.len() == x.len(),
        forall|i: int| 0 <= i < x.len() ==> #[trigger] r@[i] == modp(x@[i] * y@[i]),
{
    (0..x.len()).into_par_iter().map(|i| product_at(x, y, i)).collect()
}

/// The coefficients of a product as 32-bit numbers, which they fit in.
fn to_coefficients(v: &Vec<u64>) -> (r: Vec<u32>)
    requires
        reduced(ints(v@)),
    ensures
        coefficient_ints(r@) == ints(v@),
{
    let mut r: Vec<u32> = Vec::new();
    let mut i: usize = 0;
    while i < v.len()
        invariant
            i <= v.len(),
            r.len() == i,
            reduced(ints(v@)),
            forall|k: int| 0 <= k < i ==> #[trigger] r@[k] == v@[k],
        decreases v.len() - i,
    {
        assert(0 <= ints(v@)[i as int] < MODULUS);
        r.push(v[i] as u32);
        i = i + 1;
    }
    assert(coefficient_ints(r@) =~= ints(v@));
    r
}

/// The digits of a product from the transforms of its two operands.
///
/// `x` and `y` are the transforms of `a` and `b`, continued with zeros to the
/// transform length `n`, which has room for both together. The transforms are
/// multiplied element by element; the inverse transform of that holds the
/// coefficients of the product, which are carried over into digits.
fn from_transforms(
    x: &Vec<u64>,
    y: &Vec<u64>,
    a: &[u8],
    b: &[u8],
    rev_indexes: &[usize],
    n: usize,
    size: usize,
) -> (res: Vec<u8>)
    requires
        is_digits(a@),
        is_digits(b@),
        is_pow2(n as nat),
        n <= MAX_LEN,
        a.len() <= size,
        b.len() <= size,
        2 * size <= n,
        rev_indexes@ == rev_table(n as nat),
        x.len() == n,
        y.len() == n,
        ints(x@) == forward(padded(digit_ints(a@), n as nat)),
        ints(y@) == forward(padded(digit_ints(b@), n as nat)),
        reduced(ints(x@)),
        reduced(ints(y@)),
    ensures
        res@ == canon(value(a@) * value(b@)),
{
    let mut red_xy = pointwise_products(x, y);
    let ghost c = conv(digit_ints(a@), digit_ints(b@), n as nat);
    proof {
        lemma_product_by_transform(a@, b@, n as nat);
        assert(ints(red_xy@) =~= forward(c)) by {
            assert forall|k: int| 0 <= k < n implies ints(red_xy@)[k] == forward(c)[k] by {
                assert(ints(x@)[k] == x@[k] && ints(y@)[k] == y@[k]);
                assert(red_xy@[k] == modp(x@[k] * y@[k]));
            }
        }
        assert(reduced(ints(red_xy@))) by {
            assert forall|k: int| 0 <= k < n implies 0 <= #[trigger] ints(red_xy@)[k]
                < MODULUS by {
                lemma_modp_basics(
                    eval(c, pow(crate::modular::unit_root(n as nat, false), k as nat)),
                );
            }
        }
    }
    fft(&mut red_xy, rev_indexes, true);
    let coefficients = to_coefficients(&red_xy);
    let res = normalize(coefficients.as_slice(), n, size);
    proof {
        let p = value(a@) * value(b@);
        let rs = normalized_len(n as nat, size as nat);
        let low = coefficients@.subrange(0, rs as int);
        assert(a.len() + b.len() <= rs);
        // the coefficients that are not read are zero
        assert(c =~= padded(coefficient_ints(low), n as nat)) by {
            assert forall|k: int| 0 <= k < n implies c[k] == padded(
                coefficient_ints(low),
                n as nat,
            )[k] by {
                lemma_conv_bound(a@, b@, k);
                assert(coefficient_ints(coefficients@)[k] == c[k]);
            }
        }
        lemma_eval_padded(coefficient_ints(low), n as nat, 10);
        lemma_weighted_is_eval(low);
        assert(weighted(low) == p);
        // the product has room in the digits that are kept
        lemma_value_bound(a@);
        lemma_value_bound(b@);
        lemma_pow10_adds(a@.len(), b@.len());
        lemma_pow10_monotonic(a@.len() + b@.len(), rs);
        assert(p < pow10(a@.len()) * pow10(b@.len())) by (nonlinear_arith)
            requires
                p == value(a@) * value(b@),
                value(a@) < pow10(a@.len()),
                value(b@) < pow10(b@.len()),
        ;
        lemma_fixed_digits_value(p, rs);
        lemma_fixed_digits_len(p, rs);
        lemma_trim(fixed_digits(p, rs));
    }
    res
}

/// The lengths that a table of permutations holds after operands of the
/// lengths `m` and `n` have been multiplied by [`mul_vec_loc`], where it held
/// `before`: the transform length has come to them, unless an operand is too
/// long for the transform.
pub open spec fn sizes_after_transform(before: Set<usize>, m: nat, n: nat) -> Set<usize> {
    if m <= MAX_OPERAND && n <= MAX_OPERAND {
        before.insert(transform_size(longer(m, n)) as usize)
    } else {
        before
    }
}

/// The canonical digits of the product of two digit vectors.
///
/// The operands are continued with zeros to a transform length of at least
/// twice the longer of them and transformed, the two of them at the same time
/// where the machine allows it; the digits of the product are made from the
/// two transforms. The bit-reversal permutation of the transform length is
/// taken into `cache` where it does not hold it. Operands of more digits than
/// the longest transform has room for are multiplied the long way.
pub(crate) fn mul_vec_loc(a: &[u8], b: &[u8], cache: &mut RevCash) -> (res: Vec<u8>)
    requires
        is_digits(a@),
        is_digits(b@),
    ensures
        res@ == canon(value(a@) * value(b@)),
        final(cache).sizes() == sizes_after_transform(old(cache).sizes(), a@.len(), b@.len()),
{
    if a.len() > MAX_OPERAND || b.len() > MAX_OPERAND {
        return long_mul(a, b);
    }
    let size = if a.len() >= b.len() {
        a.len()
    } else {
        b.len()
    };
    let n = transform_len(size);
    cache.populate(n);
    let idx = cache.get(n);
    let (x, y) = join_transforms(a, b, idx, n);
    from_transforms(&x, &y, a, b, idx, n, size)
}

/// The canonical digits of the square of a digit vector: as the product, with
/// one transform in place of two.
pub(crate) fn sqr_loc(a: &[u8], cache: &mut RevCash) -> (res: Vec<u8>)
    requires
        is_digits(a@),
    ensures
        res@ == canon(value(a@) * value(a@)),
        final(cache).sizes() == sizes_after_transform(old(cache).sizes(), a@.len(), a@.len()),
{
    if a.len() > MAX_OPERAND {
        return long_mul(a, a);
    }
    let size = a.len();
    let n = transform_len(size);
    cache.populate(n);
    let idx = cache.get(n);
    let x = go_fft(a, idx, n);
    from_transforms(&x, &x, a, a, idx, n, size)
}

/// The product of two digit vectors.
///
/// Where one operand is the single digit zero the result is zero, where one is
/// the single digit one the other is returned as it is; otherwise the result is
/// the canonical digit vector of the product.
pub fn mul_vec(arr_a: &[u8], arr_b: &[u8]) -> (res: Vec<u8>)
    requires
        is_digits(arr_a@),
        is_digits(arr_b@),
    ensures
        res@ == product_digits(arr_a@, arr_b@),
        is_digits(res@),
        value(res@) == value(arr_a@) * value(arr_b@),
        canonical(arr_a@) && canonical(arr_b@) ==> canonical(res@),
{
    let mut cache = RevCash::new(0);
    mul_vec_with(arr_a, arr_b, &mut cache)
}

/// The product of two digit vectors, as [`mul_vec`] gives it, with the
/// bit-reversal permutation of the transform kept in `cache`.
///
/// Where the operands are multiplied by way of the transform, the permutation
/// of the transform length is taken from `cache`, after it has been taken into
/// it where it was not held; nothing else is changed in it.
pub fn mul_vec_with(arr_a: &[u8], arr_b: &[u8], cache: &mut RevCash) -> (res: Vec<u8>)
    requires
        is_digits(arr_a@),
        is_digits(arr_b@),
    ensures
        res@ == product_digits(arr_a@, arr_b@),
        is_digits(res@),
        value(res@) == value(arr_a@) * value(arr_b@),
        canonical(arr_a@) && canonical(arr_b@) ==> canonical(res@),
        final(cache).sizes() == sizes_after(old(cache).sizes(), arr_a@, arr_b@),
{
    proof {
        lemma_product_digits(arr_a@, arr_b@);
        lemma_canon(value(arr_a@) * value(arr_b@));
    }
    if is_single(arr_a, 0) || is_single(arr_b, 0) {
        let zero: Vec<u8> = vec![0u8];
        assert(zero@ =~= seq![0u8]);
        return zero;
    }
    if is_single(arr_a, 1) {
        return slice_to_vec(arr_b);
    }
    if is_single(arr_b, 1) {
        return slice_to_vec(arr_a);
    }
    if arr_a.len() >= arr_b.len() {
        mul_vec_loc(arr_a, arr_b, cache)
    } else {
        assert(value(arr_a@) * value(arr_b@) == value(arr_b@) * value(arr_a@))
            by (nonlinear_arith);
        mul_vec_loc(arr_b, arr_a, cache)
    }
}

/// The square of a digit vector: what [`mul_vec`] returns for the vector and
/// itself.
pub fn sqr(arr_a: &[u8]) -> (res: Vec<u8>)
    requires
        is_digits(arr_a@),
    ensures
        res@ == product_digits(arr_a@, arr_a@),
        is_digits(res@),
        value(res@) == value(arr_a@) * value(arr_a@),
        canonical(arr_a@) ==> canonical(res@),
{
    let mut cache = RevCash::new(0);
    sqr_with(arr_a, &mut cache)
}

/// The square of a digit vector, as [`sqr`] gives it, with the bit-reversal
/// permutation of the transform kept in `cache`, as [`mul_vec_with`] keeps it.
pub fn sqr_with(arr_a: &[u8], cache: &mut RevCash) -> (res: Vec<u8>)
    requires
        is_digits(arr_a@),
    ensures
        res@ == product_digits(arr_a@, arr_a@),
        is_digits(res@),
        value(res@) == value(arr_a@) * value(arr_a@),
        canonical(arr_a@) ==> canonical(res@),
        final(cache).sizes() == sizes_after(old(cache).sizes(), arr_a@, arr_a@),
{
    proof {
        lemma_product_digits(arr_a@, arr_a@);
        lemma_canon(value(arr_a@) * value(arr_a@));
    }
    if is_single(arr_a, 0) {
        let zero: Vec<u8> = vec![0u8];
        assert(zero@ =~= seq![0u8]);
        return zero;
    }
    if is_single(arr_a, 1) {
        return slice_to_vec(arr_a);
    }
    sqr_loc(arr_a, cache)
}

/// Adding in either order gives the same digits.
pub proof fn lemma_add_commutative(a: Seq<u8>, b: Seq<u8>)
    requires
        is_digits(a),
        is_digits(b),
    ensures
        sum_digits(a, b) == sum_digits(b, a),
{
    lemma_wide_sum(a, b);
}

/// Adding three canonical digit vectors gives the same digits however the
/// additions are grouped.
pub proof fn lemma_add_associative(a: Seq<u8>, b: Seq<u8>, c: Seq<u8>)
    requires
        canonical(a),
        canonical(b),
        canonical(c),
    ensures
        sum_digits(sum_digits(a, b), c) == sum_digits(a, sum_digits(b, c)),
{
    lemma_sum_digits(a, b);
    lemma_sum_digits(b, c);
    lemma_canon(value(a) + value(b));
    lemma_canon(value(b) + value(c));
    lemma_sum_digits(sum_digits(a, b), c);
    lemma_sum_digits(a, sum_digits(b, c));
}

/// The digits of a sum are the sum of the digits, and the digits of a product
/// the product of the digits: the arithmetic on digit vectors agrees with the
/// arithmetic on the numbers that they stand for.
pub proof fn lemma_agrees_with_numbers(x: nat, y: nat)
    ensures
        sum_digits(canon(x), canon(y)) == canon(x + y),
        product_digits(canon(x), canon(y)) == canon(x * y),
{
    lemma_canon(x);
    lemma_canon(y);
    lemma_sum_digits(canon(x), canon(y));
    lemma_product_digits(canon(x), canon(y));
}

/// One is the identity of the multiplication and zero annihilates, on either
/// side and for every digit vector.
pub proof fn lemma_mul_identity_and_zero(a: Seq<u8>)
    ensures
        product_digits(a, seq![1u8]) == a,
        product_digits(seq![1u8], a) == a,
        product_digits(a, seq![0u8]) == seq![0u8],
        product_digits(seq![0u8], a) == seq![0u8],
{
    assert(seq![1u8][0] != seq![0u8][0]);
}

/// Multiplying in either order gives the same digits.
pub proof fn lemma_mul_commutative(a: Seq<u8>, b: Seq<u8>)
    ensures
        product_digits(a, b) == product_digits(b, a),
{
    assert(value(a) * value(b) == value(b) * value(a)) by (nonlinear_arith);
}

/// The product of two numbers that are not zero, one of `m` and one of `n`
/// digits, has `m + n - 1` or `m + n` digits.
pub proof fn lemma_product_len(a: Seq<u8>, b: Seq<u8>)
    requires
        canonical(a),
        canonical(b),
        value(a) > 0,
        value(b) > 0,
    ensures
        a.len() + b.len() - 1 <= product_digits(a, b).len() <= a.len() + b.len(),
{
    let p = value(a) * value(b);
    let c = canon(p);
    let m = a.len();
    let n = b.len();
    lemma_product_digits(a, b);
    lemma_canon(p);
    lemma_value_single(0);
    assert(a.last() != 0) by {
        if a.len() == 1 {
            lemma_value_single(a[0]);
            assert(a =~= seq![a[0]]);
        }
    }
    assert(b.last() != 0) by {
        if b.len() == 1 {
            lemma_value_single(b[0]);
            assert(b =~= seq![b[0]]);
        }
    }
    lemma_value_bound(a);
    lemma_value_bound(b);
    lemma_value_lower_bound(a);
    lemma_value_lower_bound(b);
    lemma_pow10_adds(m, n);
    lemma_pow10_adds((m - 1) as nat, (n - 1) as nat);
    let lo = pow10((m - 1) as nat) * pow10((n - 1) as nat);
    let hi = pow10(m) * pow10(n);
    assert(lo <= p < hi) by (nonlinear_arith)
        requires
            p == value(a) * value(b),
            pow10((m - 1) as nat) <= value(a) < pow10(m),
            pow10((n - 1) as nat) <= value(b) < pow10(n),
            lo == pow10((m - 1) as nat) * pow10((n - 1) as nat),
            hi == pow10(m) * pow10(n),
    ;
    assert(p > 0) by {
        lemma_pow10_positive((m + n - 2) as nat);
    }
    assert(c.last() != 0);
    lemma_value_bound(c);
    lemma_value_lower_bound(c);
    if c.len() > m + n {
        lemma_pow10_monotonic(m + n, (c.len() - 1) as nat);
    }
    if c.len() + 1 < m + n {
        lemma_pow10_monotonic(c.len(), (m + n - 2) as nat);
    }
}

} // verus!
