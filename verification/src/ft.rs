//! The fast Fourier transform over the numbers modulo a prime, in place and
//! without recursion, with the bit-reversal permutation that it starts with
//! and the table that keeps that permutation for each length.

use crate::modular::{
    add_mod, inverse_of, lemma_cong_add, lemma_cong_mul, lemma_max_len, lemma_modp_basics,
    lemma_unit_root_half, lemma_unit_root_square, modp, mul_mod, root_base, sub_mod, unit_root,
    HALF, MAX_LEN, MODULUS, ROOT, ROOT_INV,
};
use crate::poly::eval;
use crate::spectrum::{
    butterfly_high, butterfly_low, forward, inverse, lemma_ntt_is_spectrum, lemma_ntt_len, ntt,
    reduced, spectrum, twiddle,
};
use std::collections::HashMap;
use vstd::arithmetic::div_mod::{
    lemma_fundamental_div_mod, lemma_fundamental_div_mod_converse, lemma_small_mod,
};
use vstd::arithmetic::power::{lemma_pow0, lemma_pow1, lemma_pow_adds, pow};
use vstd::prelude::*;
use vstd::std_specs::hash::group_hash_axioms;

verus! {

/// `n` is a power of two.
pub open spec fn is_pow2(n: nat) -> bool
    decreases n,
{
    n == 1 || (n > 1 && n % 2 == 0 && is_pow2(n / 2))
}

/// Two to the power `k`.
pub open spec fn two_pow(k: nat) -> nat
    decreases k,
{
    if k == 0 {
        1
    } else {
        2 * two_pow((k - 1) as nat)
    }
}

/// The index whose binary digits are those of `i` in reverse order, within an
/// index space of `n` elements, `n` a power of two: the lowest bit of `i` moves
/// to the highest place, and so on.
pub open spec fn bit_rev(i: nat, n: nat) -> nat
    decreases n,
{
    if n <= 1 {
        0
    } else {
        (i % 2) * (n / 2) + bit_rev(i / 2, n / 2)
    }
}

/// The bit-reversal permutation of `n` indices as a table.
pub open spec fn rev_table(n: nat) -> Seq<usize> {
    Seq::new(n, |i: int| bit_rev(i as nat, n) as usize)
}

/// `t` maps the indices below its length to each other, and applying it twice
/// leads back to where one started.
pub open spec fn is_involution(t: Seq<usize>) -> bool {
    forall|i: int| 0 <= i < t.len() ==> 0 <= #[trigger] t[i] < t.len() && t[t[i] as int] == i
}

/// `s` reordered by the table `t`: the element at `i` is the one that `s` has
/// at `t[i]`.
pub open spec fn permuted<T>(s: Seq<T>, t: Seq<usize>) -> Seq<T> {
    Seq::new(s.len(), |i: int| s[t[i] as int])
}

/// Two to a power is a power of two.
pub proof fn lemma_two_pow(k: nat)
    ensures
        is_pow2(two_pow(k)),
        two_pow(k) >= 1,
    decreases k,
{
    if k > 0 {
        lemma_two_pow((k - 1) as nat);
    }
}

/// No power of two lies strictly between `2^k` and `2^(k+1)`.
pub proof fn lemma_pow2_gap(m: nat, k: nat)
    requires
        is_pow2(m),
        two_pow(k) < m <= two_pow(k + 1),
    ensures
        m == two_pow(k + 1),
    decreases k,
{
    assert(two_pow(k + 1) == 2 * two_pow(k));
    lemma_two_pow(k);
    if k == 0 {
        assert(two_pow(0) == 1);
        assert(m == 2);
    } else {
        assert(two_pow(k) == 2 * two_pow((k - 1) as nat));
        lemma_pow2_gap(m / 2, (k - 1) as nat);
    }
}

/// The reversed index lies in the index space.
pub proof fn lemma_bit_rev_bound(i: nat, n: nat)
    requires
        is_pow2(n),
    ensures
        bit_rev(i, n) < n,
    decreases n,
{
    if n > 1 {
        lemma_bit_rev_bound(i / 2, n / 2);
        assert((i % 2) * (n / 2) <= n / 2) by (nonlinear_arith)
            requires
                i % 2 <= 1,
        ;
    }
}

/// The reversed index of the successor of `i`, from the reversed index of `i`:
/// where the highest bit is clear it is set; where it is set it is cleared, and
/// the same is done one bit lower.
proof fn lemma_bit_rev_next(i: nat, n: nat)
    requires
        is_pow2(n),
        i + 1 < n,
    ensures
        bit_rev(i, n) < n / 2 ==> bit_rev(i + 1, n) == bit_rev(i, n) + n / 2,
        bit_rev(i, n) >= n / 2 ==> {
            &&& i / 2 + 1 < n / 2
            &&& bit_rev(i, n) == n / 2 + bit_rev(i / 2, n / 2)
            &&& bit_rev(i + 1, n) == bit_rev(i / 2 + 1, n / 2)
        },
{
    lemma_bit_rev_bound(i / 2, n / 2);
    if i % 2 == 0 {
        assert((i + 1) / 2 == i / 2);
        assert(0 * (n / 2) == 0);
        assert(1 * (n / 2) == n / 2);
    } else {
        assert((i + 1) / 2 == i / 2 + 1);
        assert((i + 1) % 2 == 0);
        assert(0 * (n / 2) == 0);
        assert(1 * (n / 2) == n / 2);
    }
}

/// Halving `i` and then dividing by `q` is dividing `i` by `2 * q`.
proof fn lemma_split_halves(i: nat, q: nat)
    requires
        q > 0,
    ensures
        (i % (2 * q)) % 2 == i % 2,
        (i % (2 * q)) / 2 == (i / 2) % q,
        i / (2 * q) == (i / 2) / q,
{
    let a = i / (2 * q);
    let r = i % (2 * q);
    assert(i == (2 * q) * a + r && 0 <= r < 2 * q) by {
        vstd::arithmetic::div_mod::lemma_fundamental_div_mod(i as int, (2 * q) as int);
    }
    assert((2 * q) * a == 2 * (q * a)) by (nonlinear_arith);
    assert(i / 2 == q * a + r / 2);
    assert(i % 2 == r % 2);
    lemma_fundamental_div_mod_converse((i / 2) as int, q as int, a as int, (r / 2) as int);
}

/// The reversed index seen from the other end: the highest bit of `i` moves to
/// the lowest place.
pub proof fn lemma_bit_rev_high(i: nat, n: nat)
    requires
        is_pow2(n),
        n >= 2,
        i < n,
    ensures
        bit_rev(i, n) == 2 * bit_rev(i % (n / 2), n / 2) + i / (n / 2),
    decreases n,
{
    let h = n / 2;
    if n == 2 {
        assert(bit_rev(i / 2, 1) == 0);
        assert(bit_rev(i % 1, 1) == 0);
        assert((i % 2) * 1 == i);
    } else {
        let q = h / 2;
        assert(is_pow2(h));
        assert(h == 2 * q && q >= 1);
        lemma_bit_rev_high(i / 2, h);
        lemma_split_halves(i, q);
        let low = i % h;
        assert(bit_rev(low, h) == (low % 2) * q + bit_rev(low / 2, q));
        assert(2 * ((i % 2) * q) == (i % 2) * h) by (nonlinear_arith)
            requires
                h == 2 * q,
        ;
    }
}

/// Reversing the bits twice gives the index back.
pub proof fn lemma_bit_rev_involution(i: nat, n: nat)
    requires
        is_pow2(n),
        i < n,
    ensures
        bit_rev(i, n) < n,
        bit_rev(bit_rev(i, n), n) == i,
    decreases n,
{
    lemma_bit_rev_bound(i, n);
    if n >= 2 {
        let h = n / 2;
        let r = bit_rev(i, n);
        let low = bit_rev(i / 2, h);
        lemma_bit_rev_bound(i / 2, h);
        lemma_bit_rev_involution(i / 2, h);
        lemma_bit_rev_high(r, n);
        assert(r == (i % 2) * h + low);
        assert(r % h == low && r / h == i % 2) by {
            lemma_fundamental_div_mod_converse(r as int, h as int, (i % 2) as int, low as int);
            assert(h * (i % 2) == (i % 2) * h) by (nonlinear_arith);
        }
    }
}

/// The bit-reversal table of a power-of-two length is an involution.
pub proof fn lemma_rev_table_involution(n: nat)
    requires
        is_pow2(n),
        n <= usize::MAX,
    ensures
        is_involution(rev_table(n)),
{
    let t = rev_table(n);
    assert forall|i: int| 0 <= i < t.len() implies 0 <= #[trigger] t[i] < t.len() && t[t[i] as int]
        == i by {
        lemma_bit_rev_involution(i as nat, n);
    }
}

/// Reordering twice by one involution gives the first ordering back.
pub proof fn lemma_permuted_twice<T>(s: Seq<T>, t: Seq<usize>)
    requires
        is_involution(t),
        t.len() == s.len(),
    ensures
        permuted(permuted(s, t), t) == s,
{
    let once = permuted(s, t);
    let twice = permuted(once, t);
    assert forall|i: int| 0 <= i < s.len() implies twice[i] == s[i] by {
        assert(0 <= t[i] < t.len() && t[t[i] as int] == i);
    }
    assert(twice =~= s);
}

/// The bit-reversal permutation of `n` indices, `n` a power of two or zero.
///
/// The table is built index by index: the reversed index of the successor is
/// found by clearing the set bits from the top down to the first clear one,
/// which is set.
pub fn rev_swap(n: usize) -> (v: Vec<usize>)
    requires
        n == 0 || is_pow2(n as nat),
    ensures
        v@ == rev_table(n as nat),
{
    let mut v: Vec<usize> = Vec::new();
    if n == 0 {
        assert(v@ =~= rev_table(0));
        return v;
    }
    v.push(0);
    let mut j: usize = 0;
    let mut ind: usize = 1;
    proof {
        lemma_bit_rev_involution(0, n as nat);
        assert(bit_rev(0, n as nat) == 0) by {
            lemma_bit_rev_zero(n as nat);
        }
    }
    while ind < n
        invariant
            1 <= ind <= n,
            is_pow2(n as nat),
            v.len() == ind,
            j == bit_rev((ind - 1) as nat, n as nat),
            forall|k: int| 0 <= k < ind ==> v@[k] == bit_rev(k as nat, n as nat),
        decreases n - ind,
    {
        let mut bit: usize = n / 2;
        let ghost mut low: nat = (ind - 1) as nat;
        let ghost mut space: nat = n as nat;
        let ghost target: nat = bit_rev(ind as nat, n as nat);
        while j >= bit
            invariant
                is_pow2(space),
                space == 2 * bit,
                low + 1 < space,
                j == bit_rev(low, space),
                target == bit_rev(low + 1, space),
            decreases bit,
        {
            proof {
                lemma_bit_rev_next(low, space);
                lemma_bit_rev_bound(low / 2, space / 2);
                assert(is_pow2(space / 2));
                assert(low / 2 + 1 < space / 2);
                assert((space / 2) % 2 == 0);
                low = low / 2;
                space = space / 2;
            }
            j = j - bit;
            bit = bit / 2;
        }
        proof {
            lemma_bit_rev_next(low, space);
            lemma_bit_rev_bound(ind as nat, n as nat);
        }
        j = j + bit;
        v.push(j);
        ind = ind + 1;
    }
    assert(v@ =~= rev_table(n as nat));
    v
}

/// The index zero is its own reverse.
proof fn lemma_bit_rev_zero(n: nat)
    ensures
        bit_rev(0, n) == 0,
    decreases n,
{
    if n > 1 {
        lemma_bit_rev_zero(n / 2);
        assert(0 * (n / 2) == 0);
    }
}

/// Reorders `input_arr` in place by the involution `rev_indexes`: each pair of
/// indices that the table maps to each other is swapped once.
pub fn permute<T: Copy>(input_arr: &mut Vec<T>, rev_indexes: &[usize])
    requires
        rev_indexes.len() == old(input_arr).len(),
        is_involution(rev_indexes@),
    ensures
        final(input_arr)@ == permuted(old(input_arr)@, rev_indexes@),
{
    let n = input_arr.len();
    let ghost first = input_arr@;
    let mut i: usize = 0;
    while i < n
        invariant
            i <= n,
            n == input_arr.len(),
            n == first.len(),
            n == rev_indexes.len(),
            is_involution(rev_indexes@),
            forall|k: int|
                0 <= k < n ==> #[trigger] input_arr@[k] == (if k < i || rev_indexes@[k] < i {
                    first[rev_indexes@[k] as int]
                } else {
                    first[k]
                }),
        decreases n - i,
    {
        let j = rev_indexes[i];
        let ghost before = input_arr@;
        assert(0 <= rev_indexes@[i as int] < n && rev_indexes@[j as int] == i);
        if i < j {
            let x = input_arr[i];
            let y = input_arr[j];
            input_arr.set(i, y);
            input_arr.set(j, x);
        }
        proof {
            assert forall|k: int| 0 <= k < n implies #[trigger] input_arr@[k] == (if k < i + 1
                || rev_indexes@[k] < i + 1 {
                first[rev_indexes@[k] as int]
            } else {
                first[k]
            }) by {
                assert(0 <= rev_indexes@[k] < n && rev_indexes@[rev_indexes@[k] as int] == k);
                assert(before[k] == (if k < i || rev_indexes@[k] < i {
                    first[rev_indexes@[k] as int]
                } else {
                    first[k]
                }));
                assert(before[i as int] == (if i < i || rev_indexes@[i as int] < i {
                    first[rev_indexes@[i as int] as int]
                } else {
                    first[i as int]
                }));
                assert(before[j as int] == (if j < i || rev_indexes@[j as int] < i {
                    first[rev_indexes@[j as int] as int]
                } else {
                    first[j as int]
                }));
            }
        }
        i = i + 1;
    }
    assert(input_arr@ =~= permuted(first, rev_indexes@));
}

/// The bit-reversal permutations of transform lengths, each computed once:
/// those of the lengths 2, 4, 8 and so on up to a limit when the table is
/// made, those of other lengths when they are first asked to be taken in. A
/// permutation that is not held is not found by [`RevCash::get`], which asks
/// the caller to know that it is held.
pub struct RevCash {
    data: HashMap<usize, Vec<usize>>,
}

impl RevCash {
    /// The lengths that are held.
    pub closed spec fn sizes(&self) -> Set<usize> {
        self.data@.dom()
    }

    #[verifier::type_invariant]
    spec fn well_formed(&self) -> bool {
        forall|n: usize| #[trigger]
            self.data@.contains_key(n) ==> is_pow2(n as nat) && self.data@[n]@ == rev_table(
                n as nat,
            )
    }

    /// A table that holds the permutation of each power of two from 2 to
    /// `2^limit`.
    pub fn new(limit: usize) -> (cache: Self)
        requires
            two_pow(limit as nat) <= usize::MAX,
        ensures
            forall|n: usize|
                cache.sizes().contains(n) <==> (2 <= n <= two_pow(limit as nat) && is_pow2(
                    n as nat,
                )),
    {
        broadcast use group_hash_axioms;

        let mut data: HashMap<usize, Vec<usize>> = HashMap::new();
        let mut n: usize = 1;
        let mut k: usize = 0;
        assert(two_pow(0) == 1);
        while k < limit
            invariant
                k <= limit,
                two_pow(limit as nat) <= usize::MAX,
                n == two_pow(k as nat),
                forall|m: usize| #[trigger]
                    data@.contains_key(m) <==> (2 <= m <= two_pow(k as nat) && is_pow2(m as nat)),
                forall|m: usize| #[trigger]
                    data@.contains_key(m) ==> data@[m]@ == rev_table(m as nat),
            decreases limit - k,
        {
            proof {
                lemma_two_pow_monotonic((k + 1) as nat, limit as nat);
                lemma_two_pow((k + 1) as nat);
                assert(two_pow((k + 1) as nat) == 2 * two_pow(k as nat));
            }
            n = n * 2;
            let table = rev_swap(n);
            let ghost before = data@;
            data.insert(n, table);
            k = k + 1;
            proof {
                assert forall|m: usize| #[trigger]
                    data@.contains_key(m) <==> (2 <= m <= two_pow(k as nat) && is_pow2(
                        m as nat,
                    )) by {
                    lemma_two_pow((k - 1) as nat);
                    if is_pow2(m as nat) && two_pow((k - 1) as nat) < m <= two_pow(k as nat) {
                        lemma_pow2_gap(m as nat, (k - 1) as nat);
                    }
                    assert(before.contains_key(m) <==> (2 <= m <= two_pow((k - 1) as nat)
                        && is_pow2(m as nat)));
                }
            }
        }
        RevCash { data }
    }

    /// Takes the permutation of the power of two `n` into the table, where it
    /// is not held yet. Nothing ever leaves the table.
    pub fn populate(&mut self, n: usize)
        requires
            is_pow2(n as nat),
        ensures
            final(self).sizes() == old(self).sizes().insert(n),
    {
        broadcast use group_hash_axioms;

        proof {
            use_type_invariant(&*self);
        }
        if self.data.contains_key(&n) {
            assert(self.data@.dom() =~= self.data@.dom().insert(n));
            return ;
        }
        let table = rev_swap(n);
        let mut held = RevCash { data: HashMap::new() };
        core::mem::swap(self, &mut held);
        let mut data = held.data;
        data.insert(n, table);
        *self = RevCash { data };
    }

    /// Whether the permutation of length `n` is held.
    pub fn has(&self, n: usize) -> (r: bool)
        ensures
            r == self.sizes().contains(n),
    {
        broadcast use group_hash_axioms;

        self.data.contains_key(&n)
    }

    /// The permutation of length `n`, which the table must hold.
    pub fn get(&self, n: usize) -> (idx: &[usize])
        requires
            self.sizes().contains(n),
        ensures
            idx@ == rev_table(n as nat),
            is_pow2(n as nat),
    {
        broadcast use group_hash_axioms;

        proof {
            use_type_invariant(self);
        }
        let found = self.data.get(&n);
        match found {
            Some(v) => v.as_slice(),
            None => {
                proof {
                    assert(false);
                }
                &[]
            },
        }
    }
}

/// A greater exponent gives no smaller power of two.
pub proof fn lemma_two_pow_monotonic(j: nat, k: nat)
    requires
        j <= k,
    ensures
        two_pow(j) <= two_pow(k),
    decreases k,
{
    if j < k {
        lemma_two_pow_monotonic(j, (k - 1) as nat);
    }
}

/// Of two powers of two the greater is at least twice the smaller.
pub proof fn lemma_pow2_next(a: nat, b: nat)
    requires
        is_pow2(a),
        is_pow2(b),
        a < b,
    ensures
        2 * a <= b,
        b % a == 0,
    decreases b,
{
    if a > b / 2 {
        lemma_pow2_next(a / 2, b / 2);
    } else if a < b / 2 {
        lemma_pow2_next(a, b / 2);
        let k = (b / 2) / a;
        assert(b / 2 == a * k) by {
            vstd::arithmetic::div_mod::lemma_fundamental_div_mod((b / 2) as int, a as int);
        }
        assert(b == a * (2 * k)) by (nonlinear_arith)
            requires
                b == 2 * (b / 2),
                b / 2 == a * k,
        ;
        vstd::arithmetic::div_mod::lemma_mod_multiples_basic((2 * k) as int, a as int);
        assert(a * (2 * k) == (2 * k) * a) by (nonlinear_arith);
    } else {
        assert(b == a * 2);
        vstd::arithmetic::div_mod::lemma_mod_multiples_basic(2, a as int);
    }
}

/// The numbers of a vector as whole numbers.
pub open spec fn ints(s: Seq<u64>) -> Seq<int> {
    Seq::new(s.len(), |i: int| s[i] as int)
}

/// `y` with every block of `len` elements transformed by the fast transform
/// with the root `w`.
pub open spec fn stage(y: Seq<int>, len: nat, w: int) -> Seq<int> {
    Seq::new(
        y.len(),
        |t: int|
            ntt(y.subrange(t - t % (len as int), t - t % (len as int) + len), w)[t % (len as int)],
    )
}

/// `prev` after the butterflies of one level: in every block of `len`
/// elements the element at `r` of the lower half and the one at `r` of the
/// upper half are combined with the power `r` of the root `w`.
pub open spec fn butterflies(prev: Seq<int>, len: nat, w: int) -> Seq<int> {
    Seq::new(
        prev.len(),
        |t: int|
            if t % (len as int) < len / 2 {
                butterfly_low(prev[t], prev[t + len / 2], twiddle(w, t % (len as int)))
            } else {
                butterfly_high(
                    prev[t - len / 2],
                    prev[t],
                    twiddle(w, t % (len as int) - len / 2),
                )
            },
    )
}

/// Blocks of one element are their own transforms.
proof fn lemma_stage_one(y: Seq<int>, w: int)
    ensures
        stage(y, 1, w) == y,
{
    assert forall|t: int| 0 <= t < y.len() implies stage(y, 1, w)[t] == y[t] by {
        assert(t % 1 == 0);
        assert(y.subrange(t, t + 1).len() == 1);
    }
    assert(stage(y, 1, w) =~= y);
}

/// One block of the length of the whole is the transform of the whole.
proof fn lemma_stage_full(y: Seq<int>, w: int)
    requires
        y.len() > 0,
    ensures
        stage(y, y.len(), w) == ntt(y, w),
{
    let n = y.len() as int;
    lemma_ntt_len(y, w);
    assert forall|t: int| 0 <= t < n implies stage(y, y.len(), w)[t] == ntt(y, w)[t] by {
        lemma_small_mod(t as nat, n as nat);
        assert(y.subrange(0, n) =~= y);
    }
    assert(stage(y, y.len(), w) =~= ntt(y, w));
}

/// A number of the form `d * q + r` with `r` below `d` has the quotient `q`
/// and the remainder `r`.
proof fn lemma_div_mod_of(x: int, d: int, q: int, r: int)
    requires
        d > 0,
        0 <= r < d,
        x == d * q + r,
    ensures
        x % d == r,
        x / d == q,
{
    assert(d * q == q * d) by (nonlinear_arith);
    lemma_fundamental_div_mod_converse(x, d, q, r);
}

/// The place of an index in its block of `len` elements, and in its block of
/// half that length.
proof fn lemma_block_place(t: int, len: int, n: int)
    requires
        0 <= t < n,
        len >= 2,
        len % 2 == 0,
        n % len == 0,
    ensures
        0 <= t - t % len,
        t - t % len + len <= n,
        t % len < len / 2 ==> t % (len / 2) == t % len && (t + len / 2) % (len / 2) == t % len
            && t - t % (len / 2) == t - t % len,
        t % len >= len / 2 ==> t % (len / 2) == t % len - len / 2 && (t - len / 2) % (len / 2)
            == t % len - len / 2 && t - t % (len / 2) == t - t % len + len / 2,
{
    let m = len / 2;
    let q = t / len;
    let r = t % len;
    lemma_fundamental_div_mod(t, len);
    lemma_fundamental_div_mod(n, len);
    let k = n / len;
    assert(n == len * k);
    assert(q < k) by (nonlinear_arith)
        requires
            len * q + r < len * k,
            0 <= r,
            len > 0,
    ;
    assert(len * q + len <= len * k) by (nonlinear_arith)
        requires
            q < k,
            len > 0,
    ;
    assert(len * q == m * (2 * q)) by (nonlinear_arith)
        requires
            len == 2 * m,
    ;
    assert(m * (2 * q + 1) == m * (2 * q) + m) by (nonlinear_arith);
    if r < m {
        lemma_div_mod_of(t, m, 2 * q, r);
        lemma_div_mod_of(t + m, m, 2 * q + 1, r);
    } else {
        lemma_div_mod_of(t, m, 2 * q + 1, r - m);
        lemma_div_mod_of(t - m, m, 2 * q, r - m);
    }
}

/// The butterflies of one level make the transforms of the blocks of `len`
/// elements out of those of the blocks of half that length.
proof fn lemma_stage_step(y: Seq<int>, len: nat, w: int)
    requires
        len >= 2,
        len % 2 == 0,
        y.len() % len == 0,
    ensures
        butterflies(stage(y, len / 2, modp(w * w)), len, w) == stage(y, len, w),
{
    let n = y.len() as int;
    let m = (len / 2) as int;
    let w2 = modp(w * w);
    let prev = stage(y, len / 2, w2);
    let cur = butterflies(prev, len, w);
    assert forall|t: int| 0 <= t < n implies cur[t] == stage(y, len, w)[t] by {
        lemma_block_place(t, len as int, n);
        let r = t % (len as int);
        let base = t - r;
        let yb = y.subrange(base, base + len);
        assert(yb.subrange(0, m) =~= y.subrange(base, base + m));
        assert(yb.subrange(m, len as int) =~= y.subrange(base + m, base + len));
        lemma_ntt_len(y.subrange(base, base + m), w2);
        lemma_ntt_len(y.subrange(base + m, base + len), w2);
        lemma_fundamental_div_mod(t, len as int);
        if r < m {
            lemma_div_mod_of(t + m, len as int, t / (len as int), r + m);
        } else {
            lemma_div_mod_of(t - m, len as int, t / (len as int), r - m);
        }
    }
    assert(cur =~= stage(y, len, w));
}

/// The root of unity of order `n`, for the transform or for its inverse.
pub fn root_of_order(n: usize, inv: bool) -> (w: u64)
    requires
        is_pow2(n as nat),
        n <= MAX_LEN,
    ensures
        w == unit_root(n as nat, inv),
        w < MODULUS,
{
    let mut w: u64 = if inv {
        ROOT_INV
    } else {
        ROOT
    };
    let mut t: usize = MAX_LEN;
    proof {
        lemma_max_len();
        lemma_two_pow(23);
        lemma_pow1(root_base(inv));
        lemma_small_mod(w as nat, MODULUS as nat);
        assert(MAX_LEN as nat / (MAX_LEN as nat) == 1);
    }
    while t > n
        invariant
            is_pow2(t as nat),
            is_pow2(n as nat),
            n <= t <= MAX_LEN,
            w == unit_root(t as nat, inv),
            w < MODULUS,
        decreases t,
    {
        proof {
            lemma_pow2_next(n as nat, t as nat);
            lemma_unit_root_square(t as nat, inv);
        }
        w = mul_mod(w, w);
        t = t / 2;
    }
    w
}

/// The inverse of the power of two `n` modulo the prime.
pub fn inverse_of_order(n: usize) -> (v: u64)
    requires
        is_pow2(n as nat),
    ensures
        v == inverse_of(n as nat),
        v < MODULUS,
{
    let mut v: u64 = 1;
    let mut t: usize = 1;
    while t < n
        invariant
            is_pow2(t as nat),
            is_pow2(n as nat),
            t <= n,
            v == inverse_of(t as nat),
            v < MODULUS,
        decreases n - t,
    {
        proof {
            lemma_pow2_next(t as nat, n as nat);
            assert(is_pow2((2 * t) as nat));
        }
        v = mul_mod(v, HALF);
        t = t * 2;
    }
    v
}

/// The powers of `w` below `m`, modulo the prime.
fn twiddles(w: u64, m: usize) -> (t: Vec<u64>)
    requires
        w < MODULUS,
        m >= 1,
    ensures
        t.len() == m,
        forall|j: int| 0 <= j < m ==> #[trigger] t@[j] == twiddle(w as int, j),
{
    let mut t: Vec<u64> = Vec::new();
    t.push(1);
    proof {
        lemma_pow0(w as int);
        lemma_small_mod(1, MODULUS as nat);
    }
    let mut i: usize = 1;
    while i < m
        invariant
            1 <= i <= m,
            w < MODULUS,
            t.len() == i,
            forall|j: int| 0 <= j < i ==> #[trigger] t@[j] == twiddle(w as int, j),
        decreases m - i,
    {
        proof {
            assert(t@[i - 1] == twiddle(w as int, i - 1));
            lemma_modp_basics(pow(w as int, (i - 1) as nat));
            lemma_pow_adds(w as int, (i - 1) as nat, 1);
            lemma_pow1(w as int);
            lemma_small_mod(w as nat, MODULUS as nat);
            lemma_cong_mul(
                t@[i - 1] as int,
                pow(w as int, (i - 1) as nat),
                w as int,
                w as int,
            );
        }
        let next = mul_mod(t[i - 1], w);
        t.push(next);
        i = i + 1;
    }
    t
}

/// The fast Fourier transform over the numbers modulo the prime, in place.
///
/// The length of `input_arr` is a power of two up to `2^23` and `rev_indexes`
/// the bit-reversal permutation of that length. The elements are reordered by
/// the permutation; then, for the block lengths 2, 4, 8 and so on up to the
/// whole, the two halves of every block are combined by butterflies with the
/// powers of the root of unity of the order of the block length. With `rev`
/// the inverse roots are taken and every element is divided by the length at
/// the end.
pub fn fft(input_arr: &mut Vec<u64>, rev_indexes: &[usize], rev: bool)
    requires
        is_pow2(old(input_arr).len() as nat),
        old(input_arr).len() <= MAX_LEN,
        rev_indexes@ == rev_table(old(input_arr).len() as nat),
        reduced(ints(old(input_arr)@)),
    ensures
        ints(final(input_arr)@) == (if rev {
            inverse(ints(old(input_arr)@))
        } else {
            forward(ints(old(input_arr)@))
        }),
        reduced(ints(final(input_arr)@)),
        final(input_arr).len() == old(input_arr).len(),
{
    let n = input_arr.len();
    let ghost x = ints(input_arr@);
    let ghost wn = unit_root(n as nat, rev);
    proof {
        lemma_rev_table_involution(n as nat);
        if n >= 2 {
            lemma_unit_root_half(n as nat, rev);
        }
        lemma_ntt_is_spectrum(x, wn);
    }
    permute(input_arr, rev_indexes);
    let ghost y = ints(input_arr@);
    proof {
        assert(y =~= permuted(x, rev_table(n as nat)));
        lemma_stage_one(y, unit_root(1, rev));
        assert(reduced(y)) by {
            assert forall|i: int| 0 <= i < y.len() implies 0 <= #[trigger] y[i] < MODULUS by {
                lemma_bit_rev_bound(i as nat, n as nat);
                assert(0 <= x[rev_table(n as nat)[i] as int] < MODULUS);
            }
        }
    }
    let mut len: usize = 2;
    assert(is_pow2(1) && is_pow2(2));
    while len <= n
        invariant
            2 <= len <= 2 * n,
            n <= MAX_LEN,
            is_pow2(len as nat),
            is_pow2(n as nat),
            input_arr.len() == n,
            y.len() == n,
            ints(input_arr@) == stage(y, (len / 2) as nat, unit_root((len / 2) as nat, rev)),
            reduced(ints(input_arr@)),
        decreases 2 * n - len,
    {
        let m = len / 2;
        let w_len = root_of_order(len, rev);
        let w = twiddles(w_len, m);
        let ghost prev = ints(input_arr@);
        let ghost goal = butterflies(prev, len as nat, w_len as int);
        proof {
            if len < n {
                lemma_pow2_next(len as nat, n as nat);
            } else {
                lemma_div_mod_of(n as int, len as int, 1, 0);
            }
            assert(n % len == 0);
            assert forall|t: int| 0 <= t < n implies #[trigger] input_arr@[t] < MODULUS by {
                assert(0 <= prev[t] < MODULUS);
            }
            lemma_div_mod_of(0, len as int, 0, 0);
        }
        let mut i: usize = 0;
        while i < n
            invariant
                i <= n,
                i % len == 0,
                n % len == 0,
                len == 2 * m,
                m >= 1,
                input_arr.len() == n,
                prev.len() == n,
                goal == butterflies(prev, len as nat, w_len as int),
                w.len() == m,
                forall|j: int| 0 <= j < m ==> #[trigger] w@[j] == twiddle(w_len as int, j),
                reduced(prev),
                forall|t: int| 0 <= t < i ==> #[trigger] input_arr@[t] == goal[t],
                forall|t: int| i <= t < n ==> #[trigger] input_arr@[t] == prev[t],
                forall|t: int| 0 <= t < n ==> #[trigger] input_arr@[t] < MODULUS,
            decreases n - i,
        {
            proof {
                lemma_block_place(i as int, len as int, n as int);
            }
            let mut j: usize = 0;
            while j < m
                invariant
                    j <= m,
                    i + len <= n,
                    i % len == 0,
                    len == 2 * m,
                    input_arr.len() == n,
                    prev.len() == n,
                    goal == butterflies(prev, len as nat, w_len as int),
                    w.len() == m,
                    forall|j: int| 0 <= j < m ==> #[trigger] w@[j] == twiddle(w_len as int, j),
                    reduced(prev),
                    forall|t: int|
                        0 <= t < i || i <= t < i + j || i + m <= t < i + m + j
                            ==> #[trigger] input_arr@[t] == goal[t],
                    forall|t: int|
                        i + j <= t < i + m || i + m + j <= t < n ==> #[trigger] input_arr@[t]
                            == prev[t],
                    forall|t: int| 0 <= t < n ==> #[trigger] input_arr@[t] < MODULUS,
                decreases m - j,
            {
                let ghost before = input_arr@;
                assert(before[i + j] == prev[i + j]);
                assert(before[i + j + m] == prev[i + j + m]);
                assert(before[i + j] < MODULUS && before[i + j + m] < MODULUS);
                let u = input_arr[i + j];
                let v = mul_mod(w[j], input_arr[i + j + m]);
                input_arr.set(i + j, add_mod(u, v));
                input_arr.set(i + j + m, sub_mod(u, v));
                proof {
                    let q = i as int / (len as int);
                    lemma_fundamental_div_mod(i as int, len as int);
                    lemma_div_mod_of((i + j) as int, len as int, q, j as int);
                    lemma_div_mod_of((i + j + m) as int, len as int, q, (j + m) as int);
                    assert(w@[j as int] == twiddle(w_len as int, j as int));
                    assert(goal[i + j] == butterfly_low(
                        prev[i + j],
                        prev[i + j + m],
                        twiddle(w_len as int, j as int),
                    ));
                    assert(goal[i + j + m] == butterfly_high(
                        prev[i + j],
                        prev[i + j + m],
                        twiddle(w_len as int, j as int),
                    ));
                    assert forall|t: int|
                        0 <= t < i || i <= t < i + j + 1 || i + m <= t < i + m + j
                            + 1 implies #[trigger] input_arr@[t] == goal[t] by {
                        if t != i + j && t != i + j + m {
                            assert(input_arr@[t] == before[t]);
                        }
                    }
                    assert forall|t: int|
                        i + j + 1 <= t < i + m || i + m + j + 1 <= t < n implies #[trigger] input_arr@[t]
                        == prev[t] by {
                        assert(input_arr@[t] == before[t]);
                    }
                    assert forall|t: int| 0 <= t < n implies #[trigger] input_arr@[t]
                        < MODULUS by {
                        if t != i + j && t != i + j + m {
                            assert(input_arr@[t] == before[t]);
                        }
                    }
                }
                j = j + 1;
            }
            proof {
                lemma_fundamental_div_mod(i as int, len as int);
                assert(len * (i as int / (len as int) + 1) == len * (i as int / (len as int))
                    + len) by (nonlinear_arith);
                lemma_div_mod_of((i + len) as int, len as int, i as int / (len as int) + 1, 0);
            }
            i = i + len;
        }
        proof {
            assert(ints(input_arr@) =~= goal);
            lemma_unit_root_square(len as nat, rev);
            lemma_stage_step(y, len as nat, w_len as int);
            assert(reduced(ints(input_arr@)));
            assert(is_pow2((2 * len) as nat));
        }
        len = len * 2;
    }
    proof {
        // the blocks are now as long as the whole
        if len / 2 < n {
            lemma_pow2_next((len / 2) as nat, n as nat);
        }
        assert(len / 2 == n);
        lemma_stage_full(y, wn);
        assert(ints(input_arr@) == spectrum(x, wn));
    }
    if rev {
        let n_inv = inverse_of_order(n);
        let ghost raw = ints(input_arr@);
        let mut i: usize = 0;
        while i < n
            invariant
                i <= n,
                input_arr.len() == n,
                raw.len() == n,
                reduced(raw),
                n_inv == inverse_of(n as nat),
                n_inv < MODULUS,
                forall|t: int| 0 <= t < i ==> #[trigger] input_arr@[t] == modp(raw[t] * n_inv),
                forall|t: int| i <= t < n ==> #[trigger] input_arr@[t] == raw[t],
            decreases n - i,
        {
            let ghost before = input_arr@;
            assert(before[i as int] == raw[i as int]);
            assert(0 <= raw[i as int] < MODULUS);
            let scaled = mul_mod(input_arr[i], n_inv);
            input_arr.set(i, scaled);
            proof {
                assert forall|t: int| 0 <= t < i + 1 implies #[trigger] input_arr@[t] == modp(
                    raw[t] * n_inv,
                ) by {
                    if t != i {
                        assert(input_arr@[t] == before[t]);
                    }
                }
                assert forall|t: int| i + 1 <= t < n implies #[trigger] input_arr@[t]
                    == raw[t] by {
                    assert(input_arr@[t] == before[t]);
                }
            }
            i = i + 1;
        }
        proof {
            assert(ints(input_arr@) =~= inverse(x));
            assert(reduced(ints(input_arr@))) by {
                assert forall|t: int| 0 <= t < n implies 0 <= #[trigger] ints(input_arr@)[t]
                    < MODULUS by {
                    lemma_modp_basics(raw[t] * n_inv);
                }
            }
        }
    }
}

/// The Fourier transform by its definition, in quadratic time: the yardstick
/// for the fast one.
///
/// The length of `input_arr` is a power of two up to `2^23`. The element at
/// `i` of the result is the sum of the elements of `input_arr`, the one at `j`
/// times the power `i * j` of the root of unity; with `rev` the inverse root
/// is taken and the sum divided by the length.
pub fn dft(input_arr: &[u64], rev: bool) -> (res: Vec<u64>)
    requires
        is_pow2(input_arr.len() as nat),
        input_arr.len() <= MAX_LEN,
        reduced(ints(input_arr@)),
    ensures
        ints(res@) == (if rev {
            inverse(ints(input_arr@))
        } else {
            forward(ints(input_arr@))
        }),
{
    let l = input_arr.len();
    let ghost x = ints(input_arr@);
    let w = root_of_order(l, rev);
    let l_inv = inverse_of_order(l);
    let mut res: Vec<u64> = Vec::new();
    let mut point: u64 = 1;
    let mut i: usize = 0;
    proof {
        lemma_pow0(w as int);
        lemma_small_mod(1, MODULUS as nat);
    }
    while i < l
        invariant
            i <= l,
            l == input_arr.len(),
            x == ints(input_arr@),
            reduced(x),
            w == unit_root(l as nat, rev),
            w < MODULUS,
            l_inv == inverse_of(l as nat),
            l_inv < MODULUS,
            point == modp(pow(w as int, i as nat)),
            res.len() == i,
            forall|k: int|
                0 <= k < i ==> #[trigger] res@[k] == (if rev {
                    inverse(x)[k]
                } else {
                    forward(x)[k]
                }),
        decreases l - i,
    {
        let ghost z = pow(w as int, i as nat);
        let mut s: u64 = 0;
        let mut power: u64 = 1;
        let mut j: usize = 0;
        proof {
            assert(x.subrange(0, 0) =~= Seq::<int>::empty());
            lemma_pow0(z);
            lemma_small_mod(0, MODULUS as nat);
            lemma_small_mod(1, MODULUS as nat);
            lemma_modp_basics(z);
        }
        while j < l
            invariant
                j <= l,
                l == input_arr.len(),
                x == ints(input_arr@),
                reduced(x),
                point == modp(z),
                point < MODULUS,
                s == modp(eval(x.subrange(0, j as int), z)),
                power == modp(pow(z, j as nat)),
                s < MODULUS,
                power < MODULUS,
            decreases l - j,
        {
            assert(0 <= x[j as int] < MODULUS);
            let term = mul_mod(input_arr[j], power);
            proof {
                let low = x.subrange(0, j as int);
                let cur = x.subrange(0, j + 1);
                assert(cur.drop_last() =~= low);
                assert(cur.last() == x[j as int]);
                lemma_modp_basics(pow(z, j as nat));
                lemma_modp_basics(eval(low, z));
                lemma_cong_mul(x[j as int], x[j as int], power as int, pow(z, j as nat));
                lemma_cong_add(s as int, eval(low, z), term as int, x[j as int] * pow(z, j as nat));
                lemma_pow_adds(z, j as nat, 1);
                lemma_pow1(z);
                lemma_cong_mul(power as int, pow(z, j as nat), point as int, z);
            }
            s = add_mod(s, term);
            power = mul_mod(power, point);
            j = j + 1;
        }
        proof {
            assert(x.subrange(0, l as int) =~= x);
            lemma_pow_adds(w as int, i as nat, 1);
            lemma_pow1(w as int);
            lemma_small_mod(w as nat, MODULUS as nat);
            lemma_cong_mul(point as int, z, w as int, w as int);
        }
        let out = if rev {
            mul_mod(s, l_inv)
        } else {
            s
        };
        res.push(out);
        point = mul_mod(point, w);
        i = i + 1;
    }
    proof {
        if rev {
            assert(ints(res@) =~= inverse(x));
        } else {
            assert(ints(res@) =~= forward(x));
        }
    }
    res
}

} // verus!
