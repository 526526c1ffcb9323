//! Exact fractions of two 64-bit integers, reduced by their greatest common
//! divisor when they are made.

use crate::big::{digits_text, push_char, BigDecimal};
use crate::digits::canon;
use vstd::arithmetic::div_mod::{
    lemma_div_multiples_vanish, lemma_fundamental_div_mod, lemma_mod_multiples_basic,
    lemma_small_mod,
};
use vstd::prelude::*;

verus! {

/// `d` divides `n`.
pub open spec fn divides(d: nat, n: nat) -> bool {
    d > 0 && n % d == 0
}

/// `g` is the greatest common divisor of `x` and `y`: it divides both, and no
/// common divisor is greater.
pub open spec fn is_gcd(g: nat, x: nat, y: nat) -> bool {
    &&& divides(g, x)
    &&& divides(g, y)
    &&& forall|d: nat| #[trigger] divides(d, x) && divides(d, y) ==> d <= g
}

/// The greatest common divisor of `x` and `y`.
pub open spec fn gcd_of(x: nat, y: nat) -> nat {
    choose|g: nat| is_gcd(g, x, y)
}

/// The absolute value of `n`.
pub open spec fn abs_of(n: int) -> nat {
    if n < 0 {
        (-n) as nat
    } else {
        n as nat
    }
}

/// What a fraction is reduced by when it is made: the greatest common divisor
/// of numerator and denominator, and 1 where the numerator is zero.
pub open spec fn reduced_by(n: int, d: int) -> nat {
    if n != 0 {
        gcd_of(abs_of(n), abs_of(d))
    } else {
        1
    }
}

/// The fraction `n/d` in lowest terms, as a pair of numerator and denominator.
pub open spec fn lowest_terms(n: int, d: int) -> (int, int) {
    (n / (reduced_by(n, d) as int), d / (reduced_by(n, d) as int))
}

/// Whether the sum of the fractions `p` and `q` can be formed in 64 bits.
pub open spec fn can_add(p: (int, int), q: (int, int)) -> bool {
    &&& i64::MIN <= p.0 * q.1 <= i64::MAX
    &&& i64::MIN <= p.1 * q.0 <= i64::MAX
    &&& i64::MIN < p.0 * q.1 + p.1 * q.0 <= i64::MAX
    &&& i64::MIN < p.1 * q.1 <= i64::MAX
}

/// Whether the difference of the fractions `p` and `q` can be formed in 64
/// bits.
pub open spec fn can_sub(p: (int, int), q: (int, int)) -> bool {
    &&& i64::MIN <= p.0 * q.1 <= i64::MAX
    &&& i64::MIN <= p.1 * q.0 <= i64::MAX
    &&& i64::MIN < p.0 * q.1 - p.1 * q.0 <= i64::MAX
    &&& i64::MIN < p.1 * q.1 <= i64::MAX
}

/// Whether the product of the fractions `p` and `q` can be formed in 64 bits.
pub open spec fn can_mul(p: (int, int), q: (int, int)) -> bool {
    &&& i64::MIN < p.0 * q.0 <= i64::MAX
    &&& i64::MIN < p.1 * q.1 <= i64::MAX
}

/// Whether the quotient of the fraction `p` by `q` can be formed in 64 bits.
pub open spec fn can_div(p: (int, int), q: (int, int)) -> bool {
    &&& q.0 != 0
    &&& i64::MIN < p.0 * q.1 <= i64::MAX
    &&& i64::MIN < p.1 * q.0 <= i64::MAX
}

/// The sum of the fractions `p` and `q`, in lowest terms.
pub open spec fn sum_of(p: (int, int), q: (int, int)) -> (int, int) {
    lowest_terms(p.0 * q.1 + p.1 * q.0, p.1 * q.1)
}

/// The difference of the fractions `p` and `q`, in lowest terms.
pub open spec fn difference_of(p: (int, int), q: (int, int)) -> (int, int) {
    lowest_terms(p.0 * q.1 - p.1 * q.0, p.1 * q.1)
}

/// The product of the fractions `p` and `q`, in lowest terms.
pub open spec fn product_of(p: (int, int), q: (int, int)) -> (int, int) {
    lowest_terms(p.0 * q.0, p.1 * q.1)
}

/// The quotient of the fraction `p` by `q`, in lowest terms.
pub open spec fn quotient_of(p: (int, int), q: (int, int)) -> (int, int) {
    lowest_terms(p.0 * q.1, p.1 * q.0)
}

/// The decimal text of `n`.
pub open spec fn number_text(n: nat) -> Seq<char> {
    digits_text(canon(n))
}

/// The text `(x/y)`, or `x` alone where `y` is 1.
pub open spec fn quotient_text(x: nat, y: nat) -> Seq<char> {
    if y != 1 {
        seq!['('] + number_text(x) + seq!['/'] + number_text(y) + seq![')']
    } else {
        number_text(x)
    }
}

/// The text of the fraction `n/d`: `0` where it is zero, else the quotient of
/// the absolute values, after a `-` where the fraction is negative.
pub open spec fn ratio_text(n: int, d: int) -> Seq<char> {
    if n == 0 {
        seq!['0']
    } else if (n > 0 && d > 0) || (n < 0 && d < 0) {
        quotient_text(abs_of(n), abs_of(d))
    } else {
        seq!['-'] + quotient_text(abs_of(n), abs_of(d))
    }
}

/// A divisor of two numbers divides their sum.
proof fn lemma_divides_sum(d: nat, a: nat, b: nat)
    requires
        divides(d, a),
        divides(d, b),
    ensures
        divides(d, a + b),
{
    lemma_fundamental_div_mod(a as int, d as int);
    lemma_fundamental_div_mod(b as int, d as int);
    let k = (a / d + b / d) as int;
    assert(a + b == k * d) by (nonlinear_arith)
        requires
            a == d * (a / d),
            b == d * (b / d),
            k == a / d + b / d,
    ;
    lemma_mod_multiples_basic(k, d as int);
}

/// A divisor of a number divides its multiples.
proof fn lemma_divides_multiple(d: nat, a: nat, q: nat)
    requires
        divides(d, a),
    ensures
        divides(d, a * q),
{
    lemma_fundamental_div_mod(a as int, d as int);
    let k = ((a / d) * q) as int;
    assert(a * q == k * d) by (nonlinear_arith)
        requires
            a == d * (a / d),
            k == (a / d) * q,
    ;
    lemma_mod_multiples_basic(k, d as int);
}

/// A divisor of a sum and of one of its terms divides the other.
proof fn lemma_divides_difference(d: nat, a: nat, b: nat)
    requires
        divides(d, a + b),
        divides(d, a),
    ensures
        divides(d, b),
{
    lemma_fundamental_div_mod((a + b) as int, d as int);
    lemma_fundamental_div_mod(a as int, d as int);
    let k = (a + b) / d - a / d;
    assert(b == k * d) by (nonlinear_arith)
        requires
            a + b == d * ((a + b) / d),
            a == d * (a / d),
            k == (a + b) / d - a / d,
    ;
    lemma_mod_multiples_basic(k, d as int);
}

/// The common divisors of `x` and `y` are those of `y` and the remainder of
/// `x` by `y`.
proof fn lemma_divisors_of_remainder(d: nat, x: nat, y: nat)
    requires
        y > 0,
        d > 0,
    ensures
        (divides(d, x) && divides(d, y)) <==> (divides(d, y) && divides(d, x % y)),
{
    lemma_fundamental_div_mod(x as int, y as int);
    let whole = y * (x / y);
    assert(x == whole + x % y);
    if divides(d, y) {
        lemma_divides_multiple(d, y, x / y);
        if divides(d, x) {
            lemma_divides_difference(d, whole, x % y);
        }
        if divides(d, x % y) {
            lemma_divides_sum(d, whole, x % y);
        }
    }
}

/// There is one greatest common divisor, and `gcd_of` names it.
pub proof fn lemma_gcd_unique(g: nat, x: nat, y: nat)
    requires
        is_gcd(g, x, y),
    ensures
        gcd_of(x, y) == g,
{
    let h = gcd_of(x, y);
    assert(is_gcd(h, x, y));
}

/// The greatest common divisor of `x` and `y`, for an `x` that is not zero.
pub fn gcd(x: u64, y: u64) -> (g: u64)
    requires
        x > 0,
    ensures
        is_gcd(g as nat, x as nat, y as nat),
        g == gcd_of(x as nat, y as nat),
    decreases y,
{
    if y == 0 {
        proof {
            assert(x % x == 0);
            assert(0nat % (x as nat) == 0);
            assert forall|d: nat| divides(d, x as nat) && divides(d, 0) implies d <= x by {
                if d > x {
                    lemma_small_mod(x as nat, d);
                }
            }
            lemma_gcd_unique(x as nat, x as nat, 0);
        }
        return x;
    }
    if x >= y {
        let g = gcd(y, x % y);
        proof {
            assert forall|d: nat| divides(d, x as nat) && divides(d, y as nat) implies d <= g by {
                lemma_divisors_of_remainder(d, x as nat, y as nat);
            }
            lemma_divisors_of_remainder(g as nat, x as nat, y as nat);
            lemma_gcd_unique(g as nat, x as nat, y as nat);
        }
        g
    } else {
        let g = gcd(x, y % x);
        proof {
            assert forall|d: nat| divides(d, x as nat) && divides(d, y as nat) implies d <= g by {
                lemma_divisors_of_remainder(d, y as nat, x as nat);
            }
            lemma_divisors_of_remainder(g as nat, y as nat, x as nat);
            lemma_gcd_unique(g as nat, x as nat, y as nat);
        }
        g
    }
}

/// The absolute value of `n`, which is not the least 64-bit integer.
fn magnitude(n: i64) -> (r: u64)
    requires
        n > i64::MIN,
    ensures
        r == abs_of(n as int),
        r <= i64::MAX,
{
    if n < 0 {
        (-n) as u64
    } else {
        n as u64
    }
}

/// The sign of a fraction, with the absolute values of its numerator and its
/// denominator where it is not zero.
pub enum Sign {
    Plus(i64, i64),
    Minus(i64, i64),
    Null,
}

/// A fraction of two 64-bit integers with a denominator that is not zero.
pub struct Ratio {
    numerator: i64,
    denominator: i64,
}

impl View for Ratio {
    type V = (int, int);

    /// Numerator and denominator.
    closed spec fn view(&self) -> (int, int) {
        (self.numerator as int, self.denominator as int)
    }
}

impl Ratio {
    /// The numerator.
    pub open spec fn numer(&self) -> int {
        self@.0
    }

    /// The denominator.
    pub open spec fn denom(&self) -> int {
        self@.1
    }

    #[verifier::type_invariant]
    spec fn well_formed(&self) -> bool {
        self.denominator != 0
    }

    /// The fraction `n/d` in lowest terms.
    ///
    /// Numerator and denominator are divided by their greatest common divisor;
    /// where `n` is zero they are left as they are. `d` is not zero, and
    /// neither is the least 64-bit integer, which has no absolute value.
    pub fn new(n: i64, d: i64) -> (r: Self)
        requires
            d != 0,
            n > i64::MIN,
            d > i64::MIN,
        ensures
            r@ == lowest_terms(n as int, d as int),
            r.numer() * reduced_by(n as int, d as int) == n,
            r.denom() * reduced_by(n as int, d as int) == d,
            r.denom() != 0,
            r.numer() > i64::MIN,
            r.denom() > i64::MIN,
    {
        let an = magnitude(n);
        let ad = magnitude(d);
        let g: u64 = if n != 0 {
            gcd(an, ad)
        } else {
            1
        };
        proof {
            lemma_fundamental_div_mod(an as int, g as int);
            lemma_fundamental_div_mod(ad as int, g as int);
            assert(an % g == 0 && ad % g == 0);
            assert((ad / g) * g == ad) by (nonlinear_arith)
                requires
                    ad == g * (ad / g),
            ;
            assert((an / g) * g == an) by (nonlinear_arith)
                requires
                    an == g * (an / g),
            ;
            assert(ad / g != 0) by (nonlinear_arith)
                requires
                    (ad / g) * g == ad,
                    ad != 0,
            ;
            assert(an / g <= an && ad / g <= ad) by (nonlinear_arith)
                requires
                    (ad / g) * g == ad,
                    (an / g) * g == an,
                    g >= 1,
            ;
        }
        let qn: i64 = (an / g) as i64;
        let qd: i64 = (ad / g) as i64;
        let numerator: i64 = if n < 0 {
            -qn
        } else {
            qn
        };
        let denominator: i64 = if d < 0 {
            -qd
        } else {
            qd
        };
        proof {
            assert((-(qn as int)) * g == -((qn as int) * g)) by (nonlinear_arith);
            assert((-(qd as int)) * g == -((qd as int) * g)) by (nonlinear_arith);
            lemma_div_multiples_vanish(numerator as int, g as int);
            lemma_div_multiples_vanish(denominator as int, g as int);
            assert(g * numerator == numerator * g && g * denominator == denominator * g)
                by (nonlinear_arith);
        }
        Ratio { numerator, denominator }
    }

    /// The fraction `1/n`, for an `n` that is not zero.
    pub fn reciproc(n: i64) -> (r: Self)
        requires
            n != 0,
        ensures
            r.numer() == 1,
            r.denom() == n,
    {
        Ratio { numerator: 1i64, denominator: n }
    }

    /// The whole number `x` as a fraction.
    pub fn from_integer(x: i64) -> (r: Self)
        ensures
            r.numer() == x,
            r.denom() == 1,
    {
        Ratio { numerator: x, denominator: 1i64 }
    }

    /// The sign of the fraction, with the absolute values of numerator and
    /// denominator where it is not zero.
    pub fn sign(&self) -> (s: Sign)
        requires
            self.numer() > i64::MIN,
            self.denom() > i64::MIN,
        ensures
            self.numer() == 0 ==> s is Null,
            self.numer() != 0 && (self.numer() > 0) == (self.denom() > 0) ==> s == Sign::Plus(
                abs_of(self.numer()) as i64,
                abs_of(self.denom()) as i64,
            ),
            self.numer() != 0 && (self.numer() > 0) != (self.denom() > 0) ==> s == Sign::Minus(
                abs_of(self.numer()) as i64,
                abs_of(self.denom()) as i64,
            ),
    {
        proof {
            use_type_invariant(self);
        }
        if self.numerator == 0 {
            return Sign::Null;
        }
        let x = magnitude(self.numerator) as i64;
        let y = magnitude(self.denominator) as i64;
        if (self.numerator > 0 && self.denominator > 0) || (self.numerator < 0 && self.denominator
            < 0) {
            Sign::Plus(x, y)
        } else {
            Sign::Minus(x, y)
        }
    }

    /// The text of the fraction: `0`, a whole number, or `(x/y)`, after a `-`
    /// where it is negative.
    pub fn to_string(&self) -> (s: String)
        requires
            self.numer() > i64::MIN,
            self.denom() > i64::MIN,
        ensures
            s@ == ratio_text(self.numer(), self.denom()),
    {
        proof {
            use_type_invariant(self);
        }
        let mut s = String::new();
        match self.sign() {
            Sign::Null => {
                push_char(&mut s, '0');
            },
            Sign::Plus(x, y) => {
                append_quotient(&mut s, x, y);
            },
            Sign::Minus(x, y) => {
                push_char(&mut s, '-');
                append_quotient(&mut s, x, y);
            },
        }
        assert(s@ =~= ratio_text(self.numer(), self.denom()));
        s
    }

    /// Replaces the fraction by its sum with `rhs`, after reducing it.
    pub fn add_assign(&mut self, rhs: Ratio)
        requires
            old(self).numer() > i64::MIN,
            old(self).denom() > i64::MIN,
            can_add(lowest_terms(old(self).numer(), old(self).denom()), rhs@),
        ensures
            final(self)@ == sum_of(lowest_terms(old(self).numer(), old(self).denom()), rhs@),
    {
        proof {
            use_type_invariant(&*self);
        }
        let lhs = Ratio::new(self.numerator, self.denominator);
        let x = lhs + rhs;
        *self = x;
    }

    /// Replaces the fraction by its difference with `rhs`, after reducing it.
    pub fn sub_assign(&mut self, rhs: Ratio)
        requires
            old(self).numer() > i64::MIN,
            old(self).denom() > i64::MIN,
            can_sub(lowest_terms(old(self).numer(), old(self).denom()), rhs@),
        ensures
            final(self)@ == difference_of(
                lowest_terms(old(self).numer(), old(self).denom()),
                rhs@,
            ),
    {
        proof {
            use_type_invariant(&*self);
        }
        let lhs = Ratio::new(self.numerator, self.denominator);
        let x = lhs - rhs;
        *self = x;
    }

    /// Replaces the fraction by its product with `rhs`, after reducing it.
    pub fn mul_assign(&mut self, rhs: Ratio)
        requires
            old(self).numer() > i64::MIN,
            old(self).denom() > i64::MIN,
            can_mul(lowest_terms(old(self).numer(), old(self).denom()), rhs@),
        ensures
            final(self)@ == product_of(lowest_terms(old(self).numer(), old(self).denom()), rhs@),
    {
        proof {
            use_type_invariant(&*self);
        }
        let lhs = Ratio::new(self.numerator, self.denominator);
        let x = lhs * rhs;
        *self = x;
    }

    /// Replaces the fraction by its quotient by `rhs`, after reducing it.
    pub fn div_assign(&mut self, rhs: Ratio)
        requires
            old(self).numer() > i64::MIN,
            old(self).denom() > i64::MIN,
            can_div(lowest_terms(old(self).numer(), old(self).denom()), rhs@),
        ensures
            final(self)@ == quotient_of(lowest_terms(old(self).numer(), old(self).denom()), rhs@),
    {
        proof {
            use_type_invariant(&*self);
        }
        let lhs = Ratio::new(self.numerator, self.denominator);
        let x = lhs / rhs;
        *self = x;
    }
}

/// Appends the text of the quotient `x/y` of two numbers that are not
/// negative.
fn append_quotient(s: &mut String, x: i64, y: i64)
    requires
        x >= 0,
        y >= 0,
    ensures
        final(s)@ == old(s)@ + quotient_text(x as nat, y as nat),
{
    let ghost before = s@;
    let xs = BigDecimal::from_integer(x as u128).to_string();
    if y != 1 {
        let ys = BigDecimal::from_integer(y as u128).to_string();
        push_char(s, '(');
        s.append(xs.as_str());
        push_char(s, '/');
        s.append(ys.as_str());
        push_char(s, ')');
        assert(s@ =~= before + quotient_text(x as nat, y as nat));
    } else {
        s.append(xs.as_str());
    }
}

/// The product of two numbers that are not zero is not zero.
proof fn lemma_product_not_zero(a: int, b: int)
    requires
        a != 0,
        b != 0,
    ensures
        a * b != 0,
{
    assert(a * b != 0) by (nonlinear_arith)
        requires
            a != 0,
            b != 0,
    ;
}

/// What the conversion gives is stated on `from` itself; no spec
/// function stands in for it.
impl vstd::std_specs::convert::FromSpecImpl<i64> for Ratio {
    open spec fn obeys_from_spec() -> bool {
        false
    }

    open spec fn from_spec(v: i64) -> Ratio {
        arbitrary()
    }
}

impl From<i64> for Ratio {
    /// The whole number `x` as a fraction.
    fn from(x: i64) -> (r: Ratio)
        ensures
            r.numer() == x,
            r.denom() == 1,
    {
        Ratio::from_integer(x)
    }
}

/// What `+` asks of its operands. What it gives is stated on the operator's
/// own function; no spec function stands in for it.
impl vstd::std_specs::ops::AddSpecImpl for Ratio {
    open spec fn obeys_add_spec() -> bool {
        false
    }

    open spec fn add_req(self, rhs: Ratio) -> bool {
        can_add(self@, rhs@)
    }

    open spec fn add_spec(self, rhs: Ratio) -> Ratio {
        self
    }
}

impl core::ops::Add for Ratio {
    type Output = Ratio;

    /// The sum of two fractions, in lowest terms.
    fn add(self, rhs: Ratio) -> (r: Ratio)
        ensures
            r@ == sum_of(self@, rhs@),
    {
        proof {
            use_type_invariant(&self);
            use_type_invariant(&rhs);
            lemma_product_not_zero(self.denom(), rhs.denom());
        }
        Ratio::new(
            self.numerator * rhs.denominator + self.denominator * rhs.numerator,
            self.denominator * rhs.denominator,
        )
    }
}

/// What `-` asks of its operands. What it gives is stated on the operator's
/// own function; no spec function stands in for it.
impl vstd::std_specs::ops::SubSpecImpl for Ratio {
    open spec fn obeys_sub_spec() -> bool {
        false
    }

    open spec fn sub_req(self, rhs: Ratio) -> bool {
        can_sub(self@, rhs@)
    }

    open spec fn sub_spec(self, rhs: Ratio) -> Ratio {
        self
    }
}

impl core::ops::Sub for Ratio {
    type Output = Ratio;

    /// The difference of two fractions, in lowest terms.
    fn sub(self, rhs: Ratio) -> (r: Ratio)
        ensures
            r@ == difference_of(self@, rhs@),
    {
        proof {
            use_type_invariant(&self);
            use_type_invariant(&rhs);
            lemma_product_not_zero(self.denom(), rhs.denom());
        }
        Ratio::new(
            self.numerator * rhs.denominator - self.denominator * rhs.numerator,
            self.denominator * rhs.denominator,
        )
    }
}

/// What `*` asks of its operands. What it gives is stated on the operator's
/// own function; no spec function stands in for it.
impl vstd::std_specs::ops::MulSpecImpl for Ratio {
    open spec fn obeys_mul_spec() -> bool {
        false
    }

    open spec fn mul_req(self, rhs: Ratio) -> bool {
        can_mul(self@, rhs@)
    }

    open spec fn mul_spec(self, rhs: Ratio) -> Ratio {
        self
    }
}

impl core::ops::Mul for Ratio {
    type Output = Ratio;

    /// The product of two fractions, in lowest terms.
    fn mul(self, rhs: Ratio) -> (r: Ratio)
        ensures
            r@ == product_of(self@, rhs@),
    {
        proof {
            use_type_invariant(&self);
            use_type_invariant(&rhs);
            lemma_product_not_zero(self.denom(), rhs.denom());
        }
        Ratio::new(self.numerator * rhs.numerator, self.denominator * rhs.denominator)
    }
}

/// What `/` asks of its operands. What it gives is stated on the operator's
/// own function; no spec function stands in for it.
impl vstd::std_specs::ops::DivSpecImpl for Ratio {
    open spec fn obeys_div_spec() -> bool {
        false
    }

    open spec fn div_req(self, rhs: Ratio) -> bool {
        can_div(self@, rhs@)
    }

    open spec fn div_spec(self, rhs: Ratio) -> Ratio {
        self
    }
}

impl core::ops::Div for Ratio {
    type Output = Ratio;

    /// The quotient of two fractions, in lowest terms. The divisor is not
    /// zero.
    fn div(self, rhs: Ratio) -> (r: Ratio)
        ensures
            r@ == quotient_of(self@, rhs@),
    {
        proof {
            use_type_invariant(&self);
            use_type_invariant(&rhs);
            lemma_product_not_zero(self.denom(), rhs.numer());
        }
        Ratio::new(self.numerator * rhs.denominator, self.denominator * rhs.numerator)
    }
}

} // verus!
