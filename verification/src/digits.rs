//! The mathematical model of a digit vector: a little-endian sequence of
//! base-10 digits and the natural number it stands for.

use vstd::prelude::*;

verus! {

/// Ten to the power `n`.
pub open spec fn pow10(n: nat) -> nat
    decreases n,
{
    if n == 0 {
        1
    } else {
        10 * pow10((n - 1) as nat)
    }
}

/// Every element of `s` is a decimal digit.
pub open spec fn is_digits(s: Seq<u8>) -> bool {
    forall|i: int| 0 <= i < s.len() ==> #[trigger] s[i] <= 9
}

/// The number that the little-endian digit sequence `s` stands for: the sum of
/// `s[i] * 10^i`.
pub open spec fn value(s: Seq<u8>) -> nat
    decreases s.len(),
{
    if s.len() == 0 {
        0
    } else {
        value(s.drop_last()) + s.last() as nat * pow10((s.len() - 1) as nat)
    }
}

/// A digit vector in canonical form: at least one digit, and no zero in the
/// most significant place unless the vector is the single digit zero.
pub open spec fn canonical(s: Seq<u8>) -> bool {
    &&& is_digits(s)
    &&& s.len() >= 1
    &&& (s.len() == 1 || s.last() != 0)
}

/// The digits of `n`, least significant first, without a leading zero. Zero has
/// no digits at all.
pub open spec fn digits_of(n: nat) -> Seq<u8>
    decreases n,
{
    if n == 0 {
        Seq::empty()
    } else {
        seq![(n % 10) as u8] + digits_of(n / 10)
    }
}

/// The canonical digit vector of `n`.
pub open spec fn canon(n: nat) -> Seq<u8> {
    if n == 0 {
        seq![0u8]
    } else {
        digits_of(n)
    }
}

/// The `k` lowest digits of `v`, least significant first.
pub open spec fn fixed_digits(v: nat, k: nat) -> Seq<u8>
    decreases k,
{
    if k == 0 {
        Seq::empty()
    } else {
        seq![(v % 10) as u8] + fixed_digits(v / 10, (k - 1) as nat)
    }
}

/// The first `i` elements of `s`, or all of `s` where it has fewer.
pub open spec fn prefix(s: Seq<u8>, i: int) -> Seq<u8> {
    if i < s.len() {
        s.subrange(0, i)
    } else {
        s
    }
}

/// `s` without its most significant zeros, down to one digit at the least.
pub open spec fn trim(s: Seq<u8>) -> Seq<u8>
    decreases s.len(),
{
    if s.len() > 1 && s.last() == 0 {
        trim(s.drop_last())
    } else {
        s
    }
}

/// A power of ten is at least one.
pub proof fn lemma_pow10_positive(n: nat)
    ensures
        pow10(n) >= 1,
    decreases n,
{
    if n > 0 {
        lemma_pow10_positive((n - 1) as nat);
    }
}

/// The powers of ten multiply by adding their exponents.
pub proof fn lemma_pow10_adds(m: nat, n: nat)
    ensures
        pow10(m + n) == pow10(m) * pow10(n),
    decreases m,
{
    if m == 0 {
        assert(pow10(0) == 1);
        assert(1 * pow10(n) == pow10(n));
    } else {
        lemma_pow10_adds((m - 1) as nat, n);
        assert(pow10(m + n) == 10 * pow10((m + n - 1) as nat));
        assert(10 * (pow10((m - 1) as nat) * pow10(n)) == (10 * pow10((m - 1) as nat)) * pow10(n))
            by (nonlinear_arith);
    }
}

/// A greater exponent gives no smaller power of ten.
pub proof fn lemma_pow10_monotonic(m: nat, n: nat)
    requires
        m <= n,
    ensures
        pow10(m) <= pow10(n),
    decreases n,
{
    if m < n {
        lemma_pow10_monotonic(m, (n - 1) as nat);
    }
}

/// Appending a digit adds its weighted worth.
pub proof fn lemma_value_push(s: Seq<u8>, d: u8)
    ensures
        value(s.push(d)) == value(s) + d as nat * pow10(s.len()),
{
    assert(s.push(d).drop_last() =~= s);
}

/// The value seen from the least significant end.
pub proof fn lemma_value_first(s: Seq<u8>)
    requires
        s.len() > 0,
    ensures
        value(s) == s[0] as nat + 10 * value(s.drop_first()),
    decreases s.len(),
{
    if s.len() == 1 {
        assert(s.drop_last() =~= Seq::<u8>::empty());
        assert(s.drop_first() =~= Seq::<u8>::empty());
        assert(value(s.drop_last()) == 0);
        assert(value(s.drop_first()) == 0);
        assert(pow10(0) == 1);
        assert(s.last() == s[0]);
        assert(s[0] as nat * 1 == s[0] as nat);
    } else {
        let t = s.drop_last();
        lemma_value_first(t);
        assert(t.drop_first() =~= s.drop_first().drop_last());
        let k = (s.len() - 2) as nat;
        assert(pow10(k + 1) == 10 * pow10(k));
        assert(s.drop_first().last() == s.last());
        assert(10 * (s.last() as nat * pow10(k)) == s.last() as nat * (10 * pow10(k)))
            by (nonlinear_arith);
    }
}

/// A sequence of `n` digits stands for a number below `10^n`.
pub proof fn lemma_value_bound(s: Seq<u8>)
    requires
        is_digits(s),
    ensures
        value(s) < pow10(s.len()),
    decreases s.len(),
{
    if s.len() > 0 {
        let t = s.drop_last();
        lemma_value_bound(t);
        let k = t.len();
        assert(s.last() <= 9);
        assert(s.last() as nat * pow10(k) <= 9 * pow10(k)) by (nonlinear_arith)
            requires
                s.last() <= 9,
        ;
    }
}

/// A sequence whose most significant digit is not zero stands for a number of
/// at least `10^(n-1)`.
pub proof fn lemma_value_lower_bound(s: Seq<u8>)
    requires
        s.len() > 0,
        s.last() != 0,
    ensures
        value(s) >= pow10((s.len() - 1) as nat),
{
    let k = (s.len() - 1) as nat;
    assert(s.last() as nat * pow10(k) >= pow10(k)) by (nonlinear_arith)
        requires
            s.last() >= 1,
    ;
}

/// Zeros only stand for zero.
pub proof fn lemma_value_zeros(s: Seq<u8>)
    requires
        forall|i: int| 0 <= i < s.len() ==> s[i] == 0,
    ensures
        value(s) == 0,
    decreases s.len(),
{
    if s.len() > 0 {
        lemma_value_zeros(s.drop_last());
        assert(s.last() == 0);
    }
}

/// The digits of a number are digits, stand for the number, and do not end in
/// a zero.
pub proof fn lemma_digits_of(n: nat)
    ensures
        is_digits(digits_of(n)),
        value(digits_of(n)) == n,
        n > 0 ==> digits_of(n).len() > 0 && digits_of(n).last() != 0,
        n == 0 ==> digits_of(n).len() == 0,
    decreases n,
{
    if n > 0 {
        let rest = digits_of(n / 10);
        let s = digits_of(n);
        lemma_digits_of(n / 10);
        assert(s[0] == (n % 10) as u8);
        assert(s.drop_first() =~= rest);
        lemma_value_first(s);
        assert forall|i: int| 0 <= i < s.len() implies #[trigger] s[i] <= 9 by {
            if i > 0 {
                assert(s[i] == rest[i - 1]);
            }
        }
        if n / 10 > 0 {
            assert(s.last() == rest.last());
        } else {
            assert(s.len() == 1);
        }
    }
}

/// The canonical digit vector of `n` is canonical and stands for `n`.
pub proof fn lemma_canon(n: nat)
    ensures
        canonical(canon(n)),
        value(canon(n)) == n,
{
    lemma_digits_of(n);
    if n == 0 {
        let z = seq![0u8];
        assert(z.drop_last() =~= Seq::<u8>::empty());
        assert(value(z.drop_last()) == 0);
        assert(z.last() == 0u8);
        assert(0 * pow10(0) == 0);
    }
}

/// Two digit sequences of one length that stand for one number are equal.
pub proof fn lemma_value_injective(a: Seq<u8>, b: Seq<u8>)
    requires
        is_digits(a),
        is_digits(b),
        a.len() == b.len(),
        value(a) == value(b),
    ensures
        a == b,
    decreases a.len(),
{
    if a.len() > 0 {
        lemma_value_first(a);
        lemma_value_first(b);
        let ra = a.drop_first();
        let rb = b.drop_first();
        assert(a[0] <= 9 && b[0] <= 9);
        assert(is_digits(ra)) by {
            assert forall|i: int| 0 <= i < ra.len() implies #[trigger] ra[i] <= 9 by {
                assert(ra[i] == a[i + 1]);
            }
        }
        assert(is_digits(rb)) by {
            assert forall|i: int| 0 <= i < rb.len() implies #[trigger] rb[i] <= 9 by {
                assert(rb[i] == b[i + 1]);
            }
        }
        assert(a[0] == b[0] && value(ra) == value(rb));
        lemma_value_injective(ra, rb);
        assert(a =~= seq![a[0]] + ra);
        assert(b =~= seq![b[0]] + rb);
    } else {
        assert(a =~= b);
    }
}

/// A canonical digit vector is the canonical digit vector of its value: each
/// number has exactly one canonical form.
pub proof fn lemma_canonical_unique(s: Seq<u8>)
    requires
        canonical(s),
    ensures
        s == canon(value(s)),
{
    let n = value(s);
    let c = canon(n);
    lemma_canon(n);
    lemma_value_bound(s);
    lemma_value_bound(c);
    if s.len() < c.len() {
        lemma_value_lower_bound(c);
        lemma_pow10_monotonic(s.len(), (c.len() - 1) as nat);
    } else if c.len() < s.len() {
        lemma_value_lower_bound(s);
        lemma_pow10_monotonic(c.len(), (s.len() - 1) as nat);
    }
    lemma_value_injective(s, c);
}

/// Taking one more element into a prefix adds that element's weighted worth.
pub proof fn lemma_prefix_step(s: Seq<u8>, i: int)
    requires
        0 <= i,
    ensures
        i < s.len() ==> value(prefix(s, i + 1)) == value(prefix(s, i)) + s[i] as nat * pow10(
            i as nat,
        ),
        i >= s.len() ==> prefix(s, i + 1) == prefix(s, i),
        prefix(s, 0) =~= Seq::<u8>::empty(),
        value(prefix(s, 0)) == 0,
{
    if i < s.len() {
        let t = s.subrange(0, i + 1);
        assert(t.drop_last() =~= s.subrange(0, i));
        assert(prefix(s, i + 1) =~= t);
    }
}

/// The `k` lowest digits of a number are `k` digits.
pub proof fn lemma_fixed_digits_len(v: nat, k: nat)
    ensures
        fixed_digits(v, k).len() == k,
        is_digits(fixed_digits(v, k)),
    decreases k,
{
    if k > 0 {
        lemma_fixed_digits_len(v / 10, (k - 1) as nat);
        let s = fixed_digits(v, k);
        let rest = fixed_digits(v / 10, (k - 1) as nat);
        assert forall|i: int| 0 <= i < s.len() implies #[trigger] s[i] <= 9 by {
            if i > 0 {
                assert(s[i] == rest[i - 1]);
            }
        }
    }
}

/// A digit sequence is the fixed-width rendering of its own value.
pub proof fn lemma_fixed_digits_of_value(s: Seq<u8>)
    requires
        is_digits(s),
    ensures
        s == fixed_digits(value(s), s.len()),
    decreases s.len(),
{
    if s.len() == 0 {
        assert(s =~= fixed_digits(value(s), 0));
    } else {
        let rest = s.drop_first();
        lemma_value_first(s);
        assert(s[0] <= 9);
        assert(is_digits(rest)) by {
            assert forall|i: int| 0 <= i < rest.len() implies #[trigger] rest[i] <= 9 by {
                assert(rest[i] == s[i + 1]);
            }
        }
        lemma_fixed_digits_of_value(rest);
        assert(value(s) % 10 == s[0] as nat);
        assert(value(s) / 10 == value(rest));
        assert(s =~= seq![s[0]] + rest);
    }
}

/// The `k` lowest digits do not see a multiple of `10^k`.
pub proof fn lemma_fixed_digits_drops_high(v: nat, c: nat, k: nat)
    ensures
        fixed_digits(v + c * pow10(k), k) == fixed_digits(v, k),
    decreases k,
{
    if k > 0 {
        let p = pow10((k - 1) as nat);
        assert(c * pow10(k) == 10 * (c * p)) by (nonlinear_arith)
            requires
                pow10(k) == 10 * p,
        ;
        assert((v + 10 * (c * p)) % 10 == v % 10);
        assert((v + 10 * (c * p)) / 10 == v / 10 + c * p);
        lemma_fixed_digits_drops_high(v / 10, c, (k - 1) as nat);
    }
}

/// The fixed-width rendering of a number below `10^k` stands for that number.
pub proof fn lemma_fixed_digits_value(v: nat, k: nat)
    requires
        v < pow10(k),
    ensures
        value(fixed_digits(v, k)) == v,
    decreases k,
{
    let s = fixed_digits(v, k);
    lemma_fixed_digits_len(v, k);
    if k > 0 {
        lemma_fixed_digits_value(v / 10, (k - 1) as nat);
        assert(s.drop_first() =~= fixed_digits(v / 10, (k - 1) as nat));
        lemma_value_first(s);
    }
}

/// Trimming keeps the value and the digits, and leaves a canonical vector
/// where there was a digit at all.
pub proof fn lemma_trim(s: Seq<u8>)
    requires
        is_digits(s),
    ensures
        is_digits(trim(s)),
        value(trim(s)) == value(s),
        trim(s).len() <= s.len(),
        s.len() >= 1 ==> canonical(trim(s)) && trim(s) == canon(value(s)),
        s.len() == 0 ==> trim(s) == s,
    decreases s.len(),
{
    if s.len() > 1 && s.last() == 0 {
        let t = s.drop_last();
        assert(is_digits(t)) by {
            assert forall|i: int| 0 <= i < t.len() implies #[trigger] t[i] <= 9 by {
                assert(t[i] == s[i]);
            }
        }
        lemma_trim(t);
        assert(0 * pow10((s.len() - 1) as nat) == 0);
    }
    if s.len() >= 1 {
        lemma_canonical_unique(trim(s));
    }
}

} // verus!
