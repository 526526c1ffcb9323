//! Fibonacci numbers as an entry of a power of the matrix `[[1, 1], [1, 0]]`,
//! the power found by repeated squaring.

use crate::big::{digits_text, push_char, BigDecimal};
use crate::digits::{canon, lemma_canonical_unique};
use crate::ft::RevCash;
use crate::oper::{mul_vec_with, sqr_with};
use vstd::prelude::*;

verus! {

/// A matrix of two rows and two columns of natural numbers,
/// `[[a, b], [c, d]]`.
pub struct Grid {
    pub a: nat,
    pub b: nat,
    pub c: nat,
    pub d: nat,
}

/// The identity matrix.
pub open spec fn grid_one() -> Grid {
    Grid { a: 1, b: 0, c: 0, d: 1 }
}

/// The matrix of the Fibonacci recurrence.
pub open spec fn grid_fib() -> Grid {
    Grid { a: 1, b: 1, c: 1, d: 0 }
}

/// The sum of two matrices.
pub open spec fn grid_add(p: Grid, q: Grid) -> Grid {
    Grid { a: p.a + q.a, b: p.b + q.b, c: p.c + q.c, d: p.d + q.d }
}

/// The product of two matrices.
pub open spec fn grid_mul(p: Grid, q: Grid) -> Grid {
    Grid {
        a: p.a * q.a + p.b * q.c,
        b: p.a * q.b + p.b * q.d,
        c: p.c * q.a + p.d * q.c,
        d: p.c * q.b + p.d * q.d,
    }
}

/// The `m`-th power of a matrix.
pub open spec fn grid_pow(p: Grid, m: nat) -> Grid
    decreases m,
{
    if m == 0 {
        grid_one()
    } else {
        grid_mul(p, grid_pow(p, (m - 1) as nat))
    }
}

/// The `n`-th Fibonacci number: 0, 1, 1, 2, 3, 5 and so on, each the sum of
/// the two before it.
pub open spec fn fib_spec(n: nat) -> nat
    decreases n,
{
    if n == 0 {
        0
    } else if n == 1 {
        1
    } else {
        fib_spec((n - 1) as nat) + fib_spec((n - 2) as nat)
    }
}

/// One entry of a product of three matrices, grouped either way.
proof fn lemma_entry_regroups(pa: int, pb: int, qa: int, qb: int, qc: int, qd: int, ra: int, rc: int)
    ensures
        (pa * qa + pb * qc) * ra + (pa * qb + pb * qd) * rc == pa * (qa * ra + qb * rc) + pb * (qc
            * ra + qd * rc),
{
    assert((pa * qa + pb * qc) * ra == pa * qa * ra + pb * qc * ra) by (nonlinear_arith);
    assert((pa * qb + pb * qd) * rc == pa * qb * rc + pb * qd * rc) by (nonlinear_arith);
    assert(pa * (qa * ra + qb * rc) == pa * qa * ra + pa * qb * rc) by (nonlinear_arith);
    assert(pb * (qc * ra + qd * rc) == pb * qc * ra + pb * qd * rc) by (nonlinear_arith);
}

/// The product of matrices does not depend on how it is grouped.
pub proof fn lemma_grid_mul_associative(p: Grid, q: Grid, r: Grid)
    ensures
        grid_mul(grid_mul(p, q), r) == grid_mul(p, grid_mul(q, r)),
{
    lemma_entry_regroups(
        p.a as int,
        p.b as int,
        q.a as int,
        q.b as int,
        q.c as int,
        q.d as int,
        r.a as int,
        r.c as int,
    );
    lemma_entry_regroups(
        p.a as int,
        p.b as int,
        q.a as int,
        q.b as int,
        q.c as int,
        q.d as int,
        r.b as int,
        r.d as int,
    );
    lemma_entry_regroups(
        p.c as int,
        p.d as int,
        q.a as int,
        q.b as int,
        q.c as int,
        q.d as int,
        r.a as int,
        r.c as int,
    );
    lemma_entry_regroups(
        p.c as int,
        p.d as int,
        q.a as int,
        q.b as int,
        q.c as int,
        q.d as int,
        r.b as int,
        r.d as int,
    );
}

/// The identity matrix changes nothing in a product.
pub proof fn lemma_grid_mul_one(p: Grid)
    ensures
        grid_mul(grid_one(), p) == p,
        grid_mul(p, grid_one()) == p,
{
    assert(1 * p.a + 0 * p.c == p.a && 1 * p.b + 0 * p.d == p.b);
    assert(0 * p.a + 1 * p.c == p.c && 0 * p.b + 1 * p.d == p.d);
    assert(p.a * 1 + p.b * 0 == p.a && p.a * 0 + p.b * 1 == p.b);
    assert(p.c * 1 + p.d * 0 == p.c && p.c * 0 + p.d * 1 == p.d);
}

/// Powers of one matrix multiply by adding their exponents.
pub proof fn lemma_grid_pow_adds(p: Grid, i: nat, j: nat)
    ensures
        grid_pow(p, i + j) == grid_mul(grid_pow(p, i), grid_pow(p, j)),
    decreases i,
{
    if i == 0 {
        lemma_grid_mul_one(grid_pow(p, j));
    } else {
        lemma_grid_pow_adds(p, (i - 1) as nat, j);
        lemma_grid_mul_associative(p, grid_pow(p, (i - 1) as nat), grid_pow(p, j));
        assert(grid_pow(p, i + j) == grid_mul(p, grid_pow(p, (i + j - 1) as nat)));
    }
}

/// The powers of the Fibonacci matrix hold the Fibonacci numbers.
pub proof fn lemma_fib_grid(k: nat)
    ensures
        grid_pow(grid_fib(), k) == (Grid {
            a: fib_spec(k + 1),
            b: fib_spec(k),
            c: fib_spec(k),
            d: if k == 0 {
                1
            } else {
                fib_spec((k - 1) as nat)
            },
        }),
    decreases k,
{
    if k > 0 {
        lemma_fib_grid((k - 1) as nat);
        let prev = grid_pow(grid_fib(), (k - 1) as nat);
        let next = grid_mul(grid_fib(), prev);
        assert(next.a == 1 * prev.a + 1 * prev.c);
        assert(next.b == 1 * prev.b + 1 * prev.d);
        assert(next.c == 1 * prev.a + 0 * prev.c);
        assert(next.d == 1 * prev.b + 0 * prev.d);
        if k == 1 {
            assert(fib_spec(2) == fib_spec(1) + fib_spec(0));
        }
    }
}

/// Each Fibonacci number from the third on is the sum of the two before it.
pub proof fn lemma_fib_recurrence(n: nat)
    requires
        n >= 3,
    ensures
        fib_spec(n) == fib_spec((n - 1) as nat) + fib_spec((n - 2) as nat),
{
}

/// The doubling identity: `F(2k) = F(k) * (2 * F(k + 1) - F(k))`.
pub proof fn lemma_fib_doubling(k: nat)
    requires
        k >= 1,
    ensures
        2 * fib_spec(k + 1) >= fib_spec(k),
        fib_spec(2 * k) == fib_spec(k) * (2 * fib_spec(k + 1) - fib_spec(k)),
{
    lemma_fib_grid(k);
    lemma_fib_grid(2 * k);
    lemma_grid_pow_adds(grid_fib(), k, k);
    let g = grid_pow(grid_fib(), k);
    let f = fib_spec(k);
    let up = fib_spec(k + 1);
    let down = fib_spec((k - 1) as nat);
    assert(up == f + down);
    assert(fib_spec(2 * k) == up * f + f * down);
    assert(up * f + f * down == f * (2 * up - f)) by (nonlinear_arith)
        requires
            up == f + down,
    ;
}

/// A matrix of two rows and two columns of big numbers, `[[a, b], [c, d]]`.
pub struct Mat {
    pub a: BigDecimal,
    pub b: BigDecimal,
    pub c: BigDecimal,
    pub d: BigDecimal,
}

impl View for Mat {
    type V = Grid;

    /// The matrix of the numbers that the entries stand for.
    open spec fn view(&self) -> Grid {
        Grid { a: self.a@, b: self.b@, c: self.c@, d: self.d@ }
    }
}

impl Mat {
    /// The four entries are digit vectors in canonical form, so that the
    /// matrix of their numbers says what their digits are.
    pub open spec fn wf(&self) -> bool {
        self.a.is_canonical() && self.b.is_canonical() && self.c.is_canonical()
            && self.d.is_canonical()
    }

    /// The identity matrix.
    pub fn one() -> (r: Self)
        ensures
            r@ == grid_one(),
            r.wf(),
    {
        Self {
            a: BigDecimal::one(),
            b: BigDecimal::zero(),
            c: BigDecimal::zero(),
            d: BigDecimal::one(),
        }
    }

    /// The square of the matrix.
    pub fn sqr(&self) -> (r: Self)
        requires
            self.wf(),
        ensures
            r@ == grid_mul(self@, self@),
            r.wf(),
    {
        let mut cache = RevCash::new(0);
        sqr_in(self, &mut cache)
    }

    /// Raises the matrix to the power `p`.
    pub fn exp(&mut self, p: u32)
        requires
            old(self).wf(),
        ensures
            final(self)@ == grid_pow(old(self)@, p as nat),
            final(self).wf(),
    {
        let r = pow(self, p);
        *self = r;
    }

    /// Adds `rhs` to the matrix.
    pub fn add_assign(&mut self, rhs: Self)
        requires
            old(self).wf(),
            rhs.wf(),
        ensures
            final(self)@ == grid_add(old(self)@, rhs@),
            final(self).wf(),
    {
        let r = add_mat(self, &rhs);
        *self = r;
    }

    /// Multiplies the matrix by `rhs` from the right.
    pub fn mul_assign(&mut self, rhs: Self)
        requires
            old(self).wf(),
            rhs.wf(),
        ensures
            final(self)@ == grid_mul(old(self)@, rhs@),
            final(self).wf(),
    {
        let r = mul_mat(self, &rhs);
        *self = r;
    }

    /// The text of the matrix: its two rows on a line each, the two entries of
    /// a row with a blank between them.
    pub fn to_string(&self) -> (s: String)
        requires
            self.wf(),
        ensures
            s@ == digits_text(self.a.digits@).push(' ') + digits_text(self.b.digits@).push('\n')
                + digits_text(self.c.digits@).push(' ') + digits_text(self.d.digits@),
    {
        let mut s = self.a.to_string();
        push_char(&mut s, ' ');
        let b = self.b.to_string();
        s.append(b.as_str());
        push_char(&mut s, '\n');
        let c = self.c.to_string();
        s.append(c.as_str());
        push_char(&mut s, ' ');
        let d = self.d.to_string();
        s.append(d.as_str());
        assert(s@ =~= digits_text(self.a.digits@).push(' ') + digits_text(self.b.digits@).push(
            '\n',
        ) + digits_text(self.c.digits@).push(' ') + digits_text(self.d.digits@));
        s
    }
}

/// What `+` asks of its operands. What it gives is stated on the operator's
/// own function; no spec function stands in for it.
impl vstd::std_specs::ops::AddSpecImpl for Mat {
    open spec fn obeys_add_spec() -> bool {
        false
    }

    open spec fn add_req(self, rhs: Mat) -> bool {
        self.wf() && rhs.wf()
    }

    open spec fn add_spec(self, rhs: Mat) -> Mat {
        self
    }
}

impl core::ops::Add for Mat {
    type Output = Mat;

    /// The sum of two matrices.
    fn add(self, rhs: Mat) -> (r: Mat)
        ensures
            r@ == grid_add(self@, rhs@),
            r.wf(),
    {
        add_mat(&self, &rhs)
    }
}

/// What `*` asks of its operands. What it gives is stated on the operator's
/// own function; no spec function stands in for it.
impl vstd::std_specs::ops::MulSpecImpl for Mat {
    open spec fn obeys_mul_spec() -> bool {
        false
    }

    open spec fn mul_req(self, rhs: Mat) -> bool {
        self.wf() && rhs.wf()
    }

    open spec fn mul_spec(self, rhs: Mat) -> Mat {
        self
    }
}

impl core::ops::Mul for Mat {
    type Output = Mat;

    /// The product of two matrices.
    fn mul(self, rhs: Mat) -> (r: Mat)
        ensures
            r@ == grid_mul(self@, rhs@),
            r.wf(),
    {
        mul_mat(&self, &rhs)
    }
}

/// The product of two big numbers, with the permutations of the transform
/// kept in `cache`.
fn times(x: &BigDecimal, y: &BigDecimal, cache: &mut RevCash) -> (r: BigDecimal)
    requires
        x.is_canonical(),
        y.is_canonical(),
    ensures
        r.is_canonical(),
        r@ == x@ * y@,
        old(cache).sizes().subset_of(final(cache).sizes()),
{
    BigDecimal { digits: mul_vec_with(x.digits.as_slice(), y.digits.as_slice(), cache) }
}

/// The square of a big number, with the permutations of the transform kept in
/// `cache`.
fn squared(x: &BigDecimal, cache: &mut RevCash) -> (r: BigDecimal)
    requires
        x.is_canonical(),
    ensures
        r.is_canonical(),
        r@ == x@ * x@,
        old(cache).sizes().subset_of(final(cache).sizes()),
{
    BigDecimal { digits: sqr_with(x.digits.as_slice(), cache) }
}

/// The square of a matrix: four multiplications and two squares of numbers in
/// place of the eight multiplications of the product.
fn sqr_in(m: &Mat, cache: &mut RevCash) -> (r: Mat)
    requires
        m.wf(),
    ensures
        r@ == grid_mul(m@, m@),
        r.wf(),
        old(cache).sizes().subset_of(final(cache).sizes()),
{
    let ad = m.a.plus(&m.d);
    let bc = times(&m.b, &m.c, cache);
    let aa = squared(&m.a, cache);
    let b = times(&m.b, &ad, cache);
    let c = times(&m.c, &ad, cache);
    let dd = squared(&m.d, cache);
    let r = Mat { a: aa.plus(&bc), b, c, d: dd.plus(&bc) };
    proof {
        let g = m@;
        assert(g.b * (g.a + g.d) == g.a * g.b + g.b * g.d) by (nonlinear_arith);
        assert(g.c * (g.a + g.d) == g.c * g.a + g.d * g.c) by (nonlinear_arith);
        assert(g.d * g.d + g.b * g.c == g.c * g.b + g.d * g.d) by (nonlinear_arith);
    }
    r
}

/// The product of two matrices: each entry the sum of two products of
/// numbers.
fn mul_mat_in(p: &Mat, q: &Mat, cache: &mut RevCash) -> (r: Mat)
    requires
        p.wf(),
        q.wf(),
    ensures
        r@ == grid_mul(p@, q@),
        r.wf(),
        old(cache).sizes().subset_of(final(cache).sizes()),
{
    let aa = times(&p.a, &q.a, cache);
    let bc = times(&p.b, &q.c, cache);
    let ab = times(&p.a, &q.b, cache);
    let bd = times(&p.b, &q.d, cache);
    let ca = times(&p.c, &q.a, cache);
    let dc = times(&p.d, &q.c, cache);
    let cb = times(&p.c, &q.b, cache);
    let dd = times(&p.d, &q.d, cache);
    Mat { a: aa.plus(&bc), b: ab.plus(&bd), c: ca.plus(&dc), d: cb.plus(&dd) }
}

/// The power of a matrix by repeated squaring: the square of the power of
/// half the exponent, times the matrix once more where the exponent is odd.
fn pow_in(mat: &Mat, m: u32, cache: &mut RevCash) -> (r: Mat)
    requires
        mat.wf(),
    ensures
        r@ == grid_pow(mat@, m as nat),
        r.wf(),
        old(cache).sizes().subset_of(final(cache).sizes()),
    decreases m,
{
    if m == 0 {
        return Mat::one();
    }
    let half = pow_in(mat, m / 2, cache);
    let x = sqr_in(&half, cache);
    proof {
        lemma_grid_pow_adds(mat@, (m / 2) as nat, (m / 2) as nat);
    }
    if m % 2 == 0 {
        x
    } else {
        mul_mat_in(mat, &x, cache)
    }
}

/// The `m`-th power of `mat`, found by repeated squaring.
pub fn pow(mat: &Mat, m: u32) -> (r: Mat)
    requires
        mat.wf(),
    ensures
        r@ == grid_pow(mat@, m as nat),
        r.wf(),
{
    let mut cache = RevCash::new(0);
    pow_in(mat, m, &mut cache)
}

/// The `n`-th Fibonacci number, `n` at least 1, in canonical form: the upper
/// left entry of the power `n - 1` of the matrix `[[1, 1], [1, 0]]`.
pub fn fib(n: u32) -> (r: BigDecimal)
    requires
        n >= 1,
    ensures
        r@ == fib_spec(n as nat),
        r.digits@ == canon(fib_spec(n as nat)),
{
    let mut cache = RevCash::new(0);
    fib_with(n, &mut cache)
}

/// The `n`-th Fibonacci number, as [`fib`] gives it, with the bit-reversal
/// permutations of the multiplications kept in `cache`: those that it does not
/// hold are taken into it, and none leaves it.
pub fn fib_with(n: u32, cache: &mut RevCash) -> (r: BigDecimal)
    requires
        n >= 1,
    ensures
        r@ == fib_spec(n as nat),
        r.digits@ == canon(fib_spec(n as nat)),
        old(cache).sizes().subset_of(final(cache).sizes()),
{
    let f = Mat {
        a: BigDecimal::one(),
        b: BigDecimal::one(),
        c: BigDecimal::one(),
        d: BigDecimal::zero(),
    };
    let p = pow_in(&f, n - 1, cache);
    proof {
        lemma_fib_grid((n - 1) as nat);
        lemma_canonical_unique(p.a.digits@);
    }
    p.a
}

/// The sum of two matrices.
pub fn add_mat(p: &Mat, q: &Mat) -> (r: Mat)
    requires
        p.wf(),
        q.wf(),
    ensures
        r@ == grid_add(p@, q@),
        r.wf(),
{
    Mat { a: p.a.plus(&q.a), b: p.b.plus(&q.b), c: p.c.plus(&q.c), d: p.d.plus(&q.d) }
}

/// The product of two matrices.
pub fn mul_mat(p: &Mat, q: &Mat) -> (r: Mat)
    requires
        p.wf(),
        q.wf(),
    ensures
        r@ == grid_mul(p@, q@),
        r.wf(),
{
    let mut cache = RevCash::new(0);
    mul_mat_in(p, q, &mut cache)
}

} // verus!
