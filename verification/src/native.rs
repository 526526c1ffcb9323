//! Big numbers with a shortcut through 128-bit integers: operands that are
//! short enough are added and multiplied as machine numbers.

use crate::big::{decimal_digits, digits_text, lemma_text_digits, push_char, to_vec, ParseError};
use crate::digits::{
    canon, canonical, digits_of, is_digits, lemma_canon, lemma_canonical_unique, lemma_digits_of,
    lemma_pow10_adds, lemma_pow10_monotonic, lemma_prefix_step, lemma_value_bound, pow10, prefix,
    value,
};
use crate::ft::{is_pow2, rev_swap, rev_table, RevCash};
use crate::oper::{
    add_vec_loc, lemma_value_single, lemma_wide_sum, longer, mul_vec_loc, product_digits,
    sqr_loc, sum_digits, wide_sum,
};
use rand::Rng;
use vstd::prelude::*;
use vstd::std_specs::cmp::PartialEqSpecImpl;
use vstd::utf8::encode_utf8;

verus! {

/// The most digits that two operands may have together for their sum and their
/// product to be formed in a 128-bit integer.
pub const NATIVE_DIGITS: usize = 37;

/// What [`add_vec`] returns: as [`sum_digits`], but the digits of the sum
/// without a leading zero where the operands are short.
pub open spec fn native_sum_digits(a: Seq<u8>, b: Seq<u8>) -> Seq<u8> {
    if a == seq![0u8] {
        b
    } else if b == seq![0u8] {
        a
    } else if a.len() + b.len() <= NATIVE_DIGITS {
        digits_of(value(a) + value(b))
    } else {
        wide_sum(a, b)
    }
}

/// What [`multiply`] returns: as [`product_digits`], but the digits of the
/// product without a leading zero where the operands are short.
pub open spec fn native_product_digits(a: Seq<u8>, b: Seq<u8>) -> Seq<u8> {
    if a == seq![0u8] {
        a
    } else if b == seq![0u8] {
        b
    } else if a == seq![1u8] {
        b
    } else if b == seq![1u8] {
        a
    } else if a.len() + b.len() <= NATIVE_DIGITS {
        digits_of(value(a) * value(b))
    } else {
        canon(value(a) * value(b))
    }
}

/// `10^38`, the greatest power of ten that a 128-bit integer holds.
proof fn lemma_pow10_38()
    ensures
        pow10(38) == 100000000000000000000000000000000000000,
        pow10(38) <= u128::MAX,
{
    assert(pow10(0) == 1);
    assert(pow10(2) == 100) by {
        reveal_with_fuel(pow10, 3);
    }
    lemma_pow10_adds(2, 2);
    lemma_pow10_adds(4, 4);
    lemma_pow10_adds(8, 8);
    lemma_pow10_adds(16, 16);
    lemma_pow10_adds(4, 2);
    lemma_pow10_adds(32, 6);
    assert(pow10(4) == 10000) by (nonlinear_arith)
        requires
            pow10(2) == 100,
            pow10(4) == pow10(2) * pow10(2),
    ;
    assert(pow10(6) == 1000000) by (nonlinear_arith)
        requires
            pow10(2) == 100,
            pow10(4) == 10000,
            pow10(6) == pow10(4) * pow10(2),
    ;
    assert(pow10(8) == 100000000) by (nonlinear_arith)
        requires
            pow10(4) == 10000,
            pow10(8) == pow10(4) * pow10(4),
    ;
    assert(pow10(16) == 10000000000000000) by (nonlinear_arith)
        requires
            pow10(8) == 100000000,
            pow10(16) == pow10(8) * pow10(8),
    ;
    assert(pow10(32) == 100000000000000000000000000000000) by (nonlinear_arith)
        requires
            pow10(16) == 10000000000000000,
            pow10(32) == pow10(16) * pow10(16),
    ;
    assert(pow10(38) == 100000000000000000000000000000000000000) by (nonlinear_arith)
        requires
            pow10(32) == 100000000000000000000000000000000,
            pow10(6) == 1000000,
            pow10(38) == pow10(32) * pow10(6),
    ;
}

/// What the shortcut returns stands for the same number as what the long way
/// returns, and is the same digit vector where the operands are canonical.
pub proof fn lemma_native_agrees(a: Seq<u8>, b: Seq<u8>)
    requires
        is_digits(a),
        is_digits(b),
    ensures
        is_digits(native_sum_digits(a, b)),
        is_digits(native_product_digits(a, b)),
        value(native_sum_digits(a, b)) == value(a) + value(b),
        value(native_product_digits(a, b)) == value(a) * value(b),
        canonical(a) && canonical(b) ==> native_sum_digits(a, b) == sum_digits(a, b),
        canonical(a) && canonical(b) ==> native_product_digits(a, b) == product_digits(a, b),
        canonical(a) && canonical(b) ==> native_sum_digits(a, b) == canon(value(a) + value(b)),
        canonical(a) && canonical(b) ==> native_product_digits(a, b) == canon(
            value(a) * value(b),
        ),
{
    let s = value(a) + value(b);
    let p = value(a) * value(b);
    lemma_value_single(0);
    lemma_value_single(1);
    lemma_digits_of(s);
    lemma_digits_of(p);
    lemma_canon(s);
    lemma_canon(p);
    lemma_wide_sum(a, b);
    crate::oper::lemma_sum_digits(a, b);
    crate::oper::lemma_product_digits(a, b);
    assert(0 * value(b) == 0);
    assert(value(a) * 0 == 0);
    assert(1 * value(b) == value(b));
    assert(value(a) * 1 == value(a));
    if canonical(a) && canonical(b) {
        lemma_canonical_unique(a);
        lemma_canonical_unique(b);
        if a != seq![0u8] && b != seq![0u8] {
            assert(value(a) != 0);
            assert(value(b) != 0);
            assert(p != 0) by (nonlinear_arith)
                requires
                    p == value(a) * value(b),
                    value(a) != 0,
                    value(b) != 0,
            ;
        }
    }
}

/// One is the identity of [`multiply`] and zero annihilates, on either side
/// and for every digit vector; and adding goes in either order.
pub proof fn lemma_native_laws(a: Seq<u8>, b: Seq<u8>)
    ensures
        native_product_digits(a, seq![1u8]) == a,
        native_product_digits(seq![1u8], a) == a,
        native_product_digits(a, seq![0u8]) == seq![0u8],
        native_product_digits(seq![0u8], a) == seq![0u8],
        native_sum_digits(a, b) == native_sum_digits(b, a),
{
    assert(seq![1u8][0] != seq![0u8][0]);
    assert(longer(a.len(), b.len()) == longer(b.len(), a.len()));
}

/// The digits of `number`, least significant first; none for zero.
pub fn to_digits(number: u128) -> (v: Vec<u8>)
    ensures
        v@ == digits_of(number as nat),
{
    let mut v: Vec<u8> = Vec::new();
    let mut rest: u128 = number;
    while rest > 0
        invariant
            digits_of(number as nat) == v@ + digits_of(rest as nat),
        decreases rest,
    {
        let ghost before = v@;
        v.push((rest % 10) as u8);
        proof {
            assert(digits_of(rest as nat) == seq![(rest % 10) as u8] + digits_of(
                (rest / 10) as nat,
            ));
            assert(v@ + digits_of((rest / 10) as nat) =~= before + digits_of(rest as nat));
        }
        rest = rest / 10;
    }
    assert(v@ =~= v@ + digits_of(0));
    v
}

/// The number that the digits of `a` stand for, for an `a` of 38 digits at the
/// most.
pub fn to_number(a: &Vec<u8>) -> (v: u128)
    requires
        is_digits(a@),
        a.len() <= 38,
    ensures
        v == value(a@),
{
    let mut v: u128 = 0;
    let mut k: u128 = 1;
    let mut i: usize = 0;
    proof {
        lemma_prefix_step(a@, 0);
        lemma_pow10_38();
        assert(pow10(0) == 1);
    }
    while i < a.len()
        invariant
            i <= a.len() <= 38,
            is_digits(a@),
            k == pow10(i as nat),
            v == value(prefix(a@, i as int)),
            v < pow10(i as nat),
            pow10(38) == 100000000000000000000000000000000000000,
        decreases a.len() - i,
    {
        proof {
            lemma_prefix_step(a@, i as int);
            lemma_pow10_monotonic((i + 1) as nat, 38);
            assert(pow10((i + 1) as nat) == 10 * pow10(i as nat));
            assert(a@[i as int] <= 9);
            assert(k * a@[i as int] <= 9 * k) by (nonlinear_arith)
                requires
                    a@[i as int] <= 9,
            ;
            assert(k * a@[i as int] == a@[i as int] as nat * pow10(i as nat)) by (nonlinear_arith)
                requires
                    k == pow10(i as nat),
            ;
        }
        v = v + k * (a[i] as u128);
        k = k * 10;
        i = i + 1;
    }
    assert(prefix(a@, a.len() as int) == a@);
    v
}

/// Whether `a` is the one digit `d` and nothing else.
fn is_single(a: &Vec<u8>, d: u8) -> (r: bool)
    ensures
        r == (a@ == seq![d]),
{
    if a.len() == 1 && a[0] == d {
        assert(a@ =~= seq![d]);
        true
    } else {
        assert(seq![d].len() == 1 && seq![d][0] == d);
        false
    }
}

/// Whether `a` and `b` are short enough together for the shortcut.
fn is_native(a: &Vec<u8>, b: &Vec<u8>) -> (r: bool)
    ensures
        r == (a.len() + b.len() <= NATIVE_DIGITS),
{
    a.len() <= NATIVE_DIGITS && b.len() <= NATIVE_DIGITS - a.len()
}

/// The product of the numbers of two digit sequences that are short together
/// fits in 128 bits, and so does their sum.
proof fn lemma_native_fits(a: Seq<u8>, b: Seq<u8>)
    requires
        is_digits(a),
        is_digits(b),
        a.len() + b.len() <= NATIVE_DIGITS,
    ensures
        value(a) * value(b) < pow10(37),
        value(a) + value(b) < 2 * pow10(37),
        2 * pow10(37) <= u128::MAX,
{
    lemma_pow10_38();
    assert(pow10(38) == 10 * pow10(37));
    lemma_value_bound(a);
    lemma_value_bound(b);
    lemma_pow10_adds(a.len(), b.len());
    lemma_pow10_monotonic(a.len() + b.len(), 37);
    lemma_pow10_monotonic(a.len(), 37);
    lemma_pow10_monotonic(b.len(), 37);
    assert(value(a) * value(b) < pow10(a.len()) * pow10(b.len())) by (nonlinear_arith)
        requires
            value(a) < pow10(a.len()),
            value(b) < pow10(b.len()),
    ;
}

/// The sum of two digit vectors.
///
/// Where one operand is the single digit zero the other is returned as it is.
/// Operands of 37 digits together at the most are added as 128-bit integers;
/// longer ones digit by digit with a carry.
pub fn add_vec(a: &Vec<u8>, b: &Vec<u8>) -> (res: Vec<u8>)
    requires
        is_digits(a@),
        is_digits(b@),
    ensures
        res@ == native_sum_digits(a@, b@),
        is_digits(res@),
        value(res@) == value(a@) + value(b@),
        canonical(a@) && canonical(b@) ==> canonical(res@),
{
    proof {
        lemma_native_agrees(a@, b@);
        lemma_canon(value(a@) + value(b@));
    }
    if is_single(a, 0) {
        return b.clone();
    }
    if is_single(b, 0) {
        return a.clone();
    }
    if is_native(a, b) {
        proof {
            lemma_native_fits(a@, b@);
        }
        return to_digits(to_number(a) + to_number(b));
    }
    if a.len() >= b.len() {
        add_vec_loc(a.as_slice(), b.as_slice())
    } else {
        add_vec_loc(b.as_slice(), a.as_slice())
    }
}

/// The bit-reversal permutation of `n` indices, `n` a power of two; for zero
/// the single index 0.
pub fn rev(n: usize) -> (v: Vec<usize>)
    requires
        n == 0 || is_pow2(n as nat),
    ensures
        n >= 1 ==> v@ == rev_table(n as nat),
        n == 0 ==> v@ == seq![0usize],
{
    if n == 0 {
        let v: Vec<usize> = vec![0];
        assert(v@ =~= seq![0usize]);
        v
    } else {
        rev_swap(n)
    }
}

/// The product of two digit vectors.
///
/// Where one operand is the single digit zero or one, zero or the other
/// operand is returned. Operands of 37 digits together at the most are
/// multiplied as 128-bit integers; for longer ones the result is the canonical
/// digit vector of the product.
pub fn multiply(a: &Vec<u8>, b: &Vec<u8>) -> (res: Vec<u8>)
    requires
        is_digits(a@),
        is_digits(b@),
    ensures
        res@ == native_product_digits(a@, b@),
        is_digits(res@),
        value(res@) == value(a@) * value(b@),
        canonical(a@) && canonical(b@) ==> canonical(res@),
{
    proof {
        lemma_native_agrees(a@, b@);
        lemma_canon(value(a@) * value(b@));
    }
    if is_single(a, 0) {
        return a.clone();
    }
    if is_single(b, 0) {
        return b.clone();
    }
    if is_single(a, 1) {
        return b.clone();
    }
    if is_single(b, 1) {
        return a.clone();
    }
    if is_native(a, b) {
        proof {
            lemma_native_fits(a@, b@);
            lemma_pow10_38();
        }
        return to_digits(to_number(a) * to_number(b));
    }
    let mut cache = RevCash::new(0);
    mul_vec_loc(a.as_slice(), b.as_slice(), &mut cache)
}

/// The square of a digit vector: what [`multiply`] returns for the vector and
/// itself.
pub fn sqr(a: &Vec<u8>) -> (res: Vec<u8>)
    requires
        is_digits(a@),
    ensures
        res@ == native_product_digits(a@, a@),
        is_digits(res@),
        value(res@) == value(a@) * value(a@),
        canonical(a@) ==> canonical(res@),
{
    proof {
        lemma_native_agrees(a@, a@);
        lemma_canon(value(a@) * value(a@));
    }
    let size = a.len();
    if is_single(a, 0) {
        return a.clone();
    }
    if is_single(a, 1) {
        return a.clone();
    }
    if size < 19 {
        proof {
            lemma_native_fits(a@, a@);
            lemma_pow10_38();
        }
        let x = to_number(a);
        return to_digits(x * x);
    }
    let mut cache = RevCash::new(0);
    sqr_loc(a.as_slice(), &mut cache)
}

/// A big number: its digits, least significant first.
pub struct Big(pub Vec<u8>);

impl View for Big {
    type V = nat;

    /// The number that the digits stand for.
    open spec fn view(&self) -> nat {
        value(self.0@)
    }
}

impl Clone for Big {
    fn clone(&self) -> (r: Self)
        ensures
            r.0@ == self.0@,
    {
        Big(self.0.clone())
    }
}

impl PartialEqSpecImpl for Big {
    open spec fn obeys_eq_spec() -> bool {
        true
    }

    open spec fn eq_spec(&self, other: &Big) -> bool {
        self.0@ == other.0@
    }
}

impl PartialEq for Big {
    /// Two big numbers are equal where they have the same digits.
    fn eq(&self, other: &Big) -> (r: bool) {
        if self.0.len() != other.0.len() {
            return false;
        }
        let mut i: usize = 0;
        while i < self.0.len()
            invariant
                i <= self.0.len(),
                self.0.len() == other.0.len(),
                forall|k: int| 0 <= k < i ==> self.0@[k] == other.0@[k],
            decreases self.0.len() - i,
        {
            if self.0[i] != other.0[i] {
                return false;
            }
            i = i + 1;
        }
        assert(self.0@ =~= other.0@);
        true
    }
}

impl Big {
    /// Every element of the digit vector is a decimal digit.
    pub open spec fn wf(&self) -> bool {
        is_digits(self.0@)
    }

    /// The digit vector is in canonical form.
    pub open spec fn is_canonical(&self) -> bool {
        canonical(self.0@)
    }

    /// The number `number` in canonical form.
    pub fn from_num(number: u128) -> (r: Self)
        ensures
            r.0@ == canon(number as nat),
            r.wf(),
            r.is_canonical(),
            r@ == number,
    {
        proof {
            lemma_canon(number as nat);
        }
        if number < 10 {
            let digits: Vec<u8> = vec![number as u8];
            proof {
                assert(digits_of(0) =~= Seq::<u8>::empty());
                if number > 0 {
                    assert((number as nat) / 10 == 0);
                    assert(digits_of(number as nat) =~= seq![number as u8]);
                }
                assert(digits@ =~= canon(number as nat));
            }
            Self(digits)
        } else {
            Self(to_digits(number))
        }
    }

    /// Reads a decimal number: the digits of `str`, the most significant
    /// first. Fails where a character is not a decimal digit.
    pub fn from_str(str: String) -> (r: Result<Self, ParseError>)
        ensures
            match r {
                Ok(n) => decimal_digits(encode_utf8(str@)) == Ok::<Seq<u8>, ParseError>(n.0@)
                    && n.wf(),
                Err(e) => decimal_digits(encode_utf8(str@)) == Err::<Seq<u8>, ParseError>(e),
            },
    {
        match to_vec(str.as_str()) {
            Ok(digits) => {
                proof {
                    lemma_text_digits(encode_utf8(str@));
                }
                Ok(Self(digits))
            },
            Err(e) => Err(e),
        }
    }

    /// The decimal text of the number, the most significant digit first. The
    /// number has one digit at the least.
    pub fn to_str(&self) -> (s: String)
        requires
            self.wf(),
            self.0.len() > 0,
        ensures
            s@ == digits_text(self.0@),
    {
        let n = self.0.len();
        let mut s = String::new();
        let mut i: usize = 0;
        while i < n
            invariant
                i <= n,
                n == self.0.len(),
                self.wf(),
                s@ == digits_text(self.0@).subrange(0, i as int),
            decreases n - i,
        {
            let d = self.0[n - 1 - i];
            assert(d <= 9) by {
                assert(self.0@[n - 1 - i] <= 9);
            }
            push_char(&mut s, (d + 48) as char);
            i = i + 1;
            assert(s@ =~= digits_text(self.0@).subrange(0, i as int));
        }
        assert(digits_text(self.0@).subrange(0, n as int) =~= digits_text(self.0@));
        s
    }

    /// The square of the number.
    pub fn sqr(&self) -> (r: Self)
        requires
            self.wf(),
        ensures
            r.0@ == native_product_digits(self.0@, self.0@),
            r.wf(),
            r@ == self@ * self@,
            self.is_canonical() ==> r.is_canonical(),
    {
        Self(sqr(&self.0))
    }

    /// The number zero.
    pub fn zero() -> (r: Self)
        ensures
            r.0@ == seq![0u8],
            r.wf(),
            r.is_canonical(),
            r@ == 0,
    {
        let digits: Vec<u8> = vec![0u8];
        proof {
            assert(digits@ =~= seq![0u8]);
            lemma_value_single(0);
        }
        Self(digits)
    }

    /// The number one.
    pub fn one() -> (r: Self)
        ensures
            r.0@ == seq![1u8],
            r.wf(),
            r.is_canonical(),
            r@ == 1,
    {
        let digits: Vec<u8> = vec![1u8];
        proof {
            assert(digits@ =~= seq![1u8]);
            lemma_value_single(1);
        }
        Self(digits)
    }

    /// Adds `rhs` to the number.
    pub fn add_assign(&mut self, rhs: Self)
        requires
            old(self).wf(),
            rhs.wf(),
        ensures
            final(self).0@ == native_sum_digits(old(self).0@, rhs.0@),
            final(self).wf(),
            final(self)@ == old(self)@ + rhs@,
            old(self).is_canonical() && rhs.is_canonical() ==> final(self).is_canonical(),
    {
        self.0 = add_vec(&self.0, &rhs.0);
    }
}

/// What `+` asks of its operands. What it gives is stated on the operator's
/// own function; no spec function stands in for it.
impl vstd::std_specs::ops::AddSpecImpl for Big {
    open spec fn obeys_add_spec() -> bool {
        false
    }

    open spec fn add_req(self, rhs: Big) -> bool {
        self.wf() && rhs.wf()
    }

    open spec fn add_spec(self, rhs: Big) -> Big {
        self
    }
}

impl core::ops::Add for Big {
    type Output = Big;

    /// The sum of two numbers.
    fn add(self, rhs: Big) -> (r: Big)
        ensures
            r.0@ == native_sum_digits(self.0@, rhs.0@),
            r.wf(),
            r@ == self@ + rhs@,
            self.is_canonical() && rhs.is_canonical() ==> r.is_canonical(),
    {
        Big(add_vec(&self.0, &rhs.0))
    }
}

/// What `+` asks of its operands. What it gives is stated on the operator's
/// own function; no spec function stands in for it.
impl vstd::std_specs::ops::AddSpecImpl<u128> for Big {
    open spec fn obeys_add_spec() -> bool {
        false
    }

    open spec fn add_req(self, rhs: u128) -> bool {
        self.wf()
    }

    open spec fn add_spec(self, rhs: u128) -> Big {
        self
    }
}

impl core::ops::Add<u128> for Big {
    type Output = Big;

    /// The sum of a big number and a 128-bit one.
    fn add(self, rhs: u128) -> (r: Big)
        ensures
            r.0@ == native_sum_digits(self.0@, canon(rhs as nat)),
            r.wf(),
            r@ == self@ + rhs,
            self.is_canonical() ==> r.is_canonical(),
    {
        self + Big::from_num(rhs)
    }
}

/// What `*` asks of its operands. What it gives is stated on the operator's
/// own function; no spec function stands in for it.
impl vstd::std_specs::ops::MulSpecImpl for Big {
    open spec fn obeys_mul_spec() -> bool {
        false
    }

    open spec fn mul_req(self, rhs: Big) -> bool {
        self.wf() && rhs.wf()
    }

    open spec fn mul_spec(self, rhs: Big) -> Big {
        self
    }
}

impl core::ops::Mul for Big {
    type Output = Big;

    /// The product of two numbers.
    fn mul(self, rhs: Big) -> (r: Big)
        ensures
            r.0@ == native_product_digits(self.0@, rhs.0@),
            r.wf(),
            r@ == self@ * rhs@,
            self.is_canonical() && rhs.is_canonical() ==> r.is_canonical(),
    {
        Big(multiply(&self.0, &rhs.0))
    }
}

/// What `+` asks of its operands. What it gives is stated on the operator's
/// own function; no spec function stands in for it.
impl vstd::std_specs::ops::AddSpecImpl<Big> for u128 {
    open spec fn obeys_add_spec() -> bool {
        false
    }

    open spec fn add_req(self, rhs: Big) -> bool {
        rhs.wf()
    }

    open spec fn add_spec(self, rhs: Big) -> Big {
        rhs
    }
}

impl core::ops::Add<Big> for u128 {
    type Output = Big;

    /// The sum of a 128-bit number and a big one.
    fn add(self, rhs: Big) -> (r: Big)
        ensures
            r.0@ == native_sum_digits(canon(self as nat), rhs.0@),
            r.wf(),
            r@ == self + rhs@,
            rhs.is_canonical() ==> r.is_canonical(),
    {
        Big::from_num(self) + rhs
    }
}

/// A number drawn at random from `low` up to, but not including, `high`.
/// Trusted: `gen_range` of the `rand` crate on the generator of the thread,
/// which fails on an empty range and else returns a number inside it; nothing
/// is said of which.
#[verifier::external_body]
fn random_digit(low: u8, high: u8) -> (d: u8)
    requires
        low < high,
    ensures
        low <= d < high,
{
    rand::thread_rng().gen_range(low..high)
}

/// An operand of `num_size` digits drawn at random for a measurement: each
/// from 1 to 8, the most significant one from 0 to 8.
pub fn random_operand(num_size: usize) -> (v: Vec<u8>)
    ensures
        v.len() == num_size,
        is_digits(v@),
        forall|i: int| 0 <= i < num_size ==> #[trigger] v@[i] <= 8,
        forall|i: int| 0 <= i < num_size - 1 ==> #[trigger] v@[i] >= 1,
{
    let mut v: Vec<u8> = Vec::new();
    let mut j: usize = 0;
    while j < num_size
        invariant
            j <= num_size,
            v.len() == j,
            forall|i: int| 0 <= i < j ==> #[trigger] v@[i] <= 8,
            forall|i: int| 0 <= i < j && i < num_size - 1 ==> #[trigger] v@[i] >= 1,
        decreases num_size - j,
    {
        let last = j == num_size - 1;
        let d = if last {
            random_digit(0, 9)
        } else {
            random_digit(1, 9)
        };
        v.push(d);
        j = j + 1;
    }
    v
}

} // verus!
