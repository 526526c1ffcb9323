use bignum::big::BigDecimal;
use bignum::fibb::{add_mat, fib, fib_with, mul_mat, pow, Mat};
use bignum::ft::RevCash;

fn mat(a: u128, b: u128, c: u128, d: u128) -> Mat {
    Mat {
        a: BigDecimal::from_integer(a),
        b: BigDecimal::from_integer(b),
        c: BigDecimal::from_integer(c),
        d: BigDecimal::from_integer(d),
    }
}

fn entries(m: &Mat) -> [String; 4] {
    [m.a.to_string(), m.b.to_string(), m.c.to_string(), m.d.to_string()]
}

#[test]
fn first_fibonacci_numbers() {
    assert_eq!(fib(1).to_string(), "1");
    assert_eq!(fib(2).to_string(), "1");
    assert_eq!(fib(3).to_string(), "2");
    assert_eq!(fib(10).to_string(), "55");
    assert_eq!(fib(20).to_string(), "6765");
}

#[test]
fn larger_fibonacci_numbers() {
    assert_eq!(fib(100).to_string(), "354224848179261915075");
    assert_eq!(
        fib(300).to_string(),
        "222232244629420445529739893461909967206666939096499764990979600"
    );
}

#[test]
fn fibonacci_recurrence_holds() {
    for n in 3u32..60 {
        let sum = fib(n - 1) + fib(n - 2);
        assert_eq!(fib(n).digits, sum.digits);
    }
}

#[test]
fn fibonacci_doubling_identity_holds() {
    // F(2k) + F(k)^2 = 2 * F(k) * F(k + 1)
    for k in [1u32, 2, 10, 95, 250, 1000] {
        let left = fib(2 * k) + fib(k).sqr();
        let right = BigDecimal::from_integer(2) * fib(k) * fib(k + 1);
        assert_eq!(left.digits, right.digits);
    }
}

#[test]
fn fibonacci_digit_count() {
    assert_eq!(fib(1000).digits.len(), 209);
    assert_eq!(fib(5000).digits.len(), 1045);
}

#[test]
fn matrix_product_and_sum() {
    let p = mat(1, 2, 3, 4);
    let q = mat(5, 6, 7, 8);
    assert_eq!(entries(&mul_mat(&p, &q)), ["19", "22", "43", "50"]);
    assert_eq!(entries(&mul_mat(&q, &p)), ["23", "34", "31", "46"]);
    assert_eq!(entries(&add_mat(&p, &q)), ["6", "8", "10", "12"]);
    assert_eq!(entries(&(mat(1, 2, 3, 4) * mat(5, 6, 7, 8))), ["19", "22", "43", "50"]);
    assert_eq!(entries(&(mat(1, 2, 3, 4) + mat(5, 6, 7, 8))), ["6", "8", "10", "12"]);
}

#[test]
fn matrix_square_equals_product_with_itself() {
    let p = mat(1, 2, 3, 4);
    assert_eq!(entries(&p.sqr()), ["7", "10", "15", "22"]);
    assert_eq!(entries(&p.sqr()), entries(&mul_mat(&p, &p)));
}

#[test]
fn matrix_power() {
    let p = mat(1, 2, 3, 4);
    assert_eq!(entries(&pow(&p, 0)), ["1", "0", "0", "1"]);
    assert_eq!(entries(&pow(&p, 1)), ["1", "2", "3", "4"]);
    assert_eq!(entries(&pow(&p, 3)), ["37", "54", "81", "118"]);
    assert_eq!(entries(&pow(&p, 5)), ["1069", "1558", "2337", "3406"]);
    let mut q = mat(1, 1, 1, 0);
    q.exp(9);
    assert_eq!(entries(&q), ["55", "34", "34", "21"]);
    assert_eq!(entries(&Mat::one()), ["1", "0", "0", "1"]);
}

#[test]
fn matrix_assignment_operations() {
    let mut p = mat(1, 2, 3, 4);
    p.add_assign(mat(1, 1, 1, 1));
    assert_eq!(entries(&p), ["2", "3", "4", "5"]);
    p.mul_assign(mat(0, 1, 1, 0));
    assert_eq!(entries(&p), ["3", "2", "5", "4"]);
    assert_eq!(p.to_string(), "3 2\n5 4");
}

#[test]
fn fibonacci_with_a_cache() {
    let mut cache = RevCash::new(3);
    for n in [1u32, 2, 10, 100, 1000, 20_000] {
        assert_eq!(fib_with(n, &mut cache).digits, fib(n).digits);
    }
    // the lengths prepared are still held, and those that were needed have come
    assert!(cache.has(2) && cache.has(4) && cache.has(8));
    assert!(cache.has(8192));
}

#[test]
fn fibonacci_of_large_index() {
    let f = fib(200_000);
    assert_eq!(f.digits.len(), 41_798);
    assert_eq!(&f.to_string()[..20], "15085683557988938992");
}
