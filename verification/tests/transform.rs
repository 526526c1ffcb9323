use bignum::ft::{permute, rev_swap, RevCash};
use bignum::native::rev;

#[test]
fn bit_reversal_tables() {
    assert_eq!(rev_swap(0), Vec::<usize>::new());
    assert_eq!(rev_swap(1), vec![0]);
    assert_eq!(rev_swap(2), vec![0, 1]);
    assert_eq!(rev_swap(4), vec![0, 2, 1, 3]);
    assert_eq!(rev_swap(8), vec![0, 4, 2, 6, 1, 5, 3, 7]);
    assert_eq!(
        rev_swap(16),
        vec![0, 8, 4, 12, 2, 10, 6, 14, 1, 9, 5, 13, 3, 11, 7, 15]
    );
    assert_eq!(rev(0), vec![0]);
    assert_eq!(rev(8), vec![0, 4, 2, 6, 1, 5, 3, 7]);
}

#[test]
fn bit_reversal_reverses_the_bits() {
    let n = 1024usize;
    let table = rev_swap(n);
    assert_eq!(table.len(), n);
    for (i, &j) in table.iter().enumerate() {
        assert_eq!(j, i.reverse_bits() >> (usize::BITS - 10));
    }
}

#[test]
fn bit_reversal_is_an_involution() {
    for k in 0..12 {
        let n = 1usize << k;
        let table = rev_swap(n);
        for i in 0..n {
            assert_eq!(table[table[i]], i);
        }
    }
}

#[test]
fn permuting_follows_the_table() {
    let mut v = vec!['a', 'b', 'c', 'd', 'e', 'f', 'g', 'h'];
    let table = rev_swap(8);
    permute(&mut v, &table);
    assert_eq!(v, vec!['a', 'e', 'c', 'g', 'b', 'f', 'd', 'h']);
}

#[test]
fn permuting_twice_restores_the_order() {
    for k in 0..10 {
        let n = 1usize << k;
        let first: Vec<usize> = (0..n).map(|i| i * 7 + 1).collect();
        let mut v = first.clone();
        let table = rev_swap(n);
        permute(&mut v, &table);
        permute(&mut v, &table);
        assert_eq!(v, first);
    }
}

#[test]
fn cache_holds_powers_of_two_up_to_the_limit() {
    let cache = RevCash::new(5);
    for n in [2usize, 4, 8, 16, 32] {
        assert!(cache.has(n));
        assert_eq!(cache.get(n), rev_swap(n).as_slice());
    }
    for n in [0usize, 1, 3, 6, 64, 1024] {
        assert!(!cache.has(n));
    }
    let empty = RevCash::new(0);
    assert!(!empty.has(2));
}

#[test]
fn cache_takes_in_new_lengths_and_keeps_the_old() {
    let mut cache = RevCash::new(2);
    assert!(cache.has(2) && cache.has(4) && !cache.has(64));
    cache.populate(64);
    assert!(cache.has(2) && cache.has(4) && cache.has(64));
    assert_eq!(cache.get(64), rev_swap(64).as_slice());
    cache.populate(64);
    cache.populate(1);
    assert!(cache.has(1) && cache.has(64) && !cache.has(8));
    assert_eq!(cache.get(1), &[0]);
}

use bignum::ft::{dft, fft, inverse_of_order, root_of_order};
use bignum::modular::{add_mod, mul_mod, sub_mod, HALF, MODULUS, ROOT, ROOT_INV};
use bignum::oper::go_fft;

fn pow_mod(mut base: u64, mut exp: u64) -> u64 {
    let mut acc = 1u64;
    while exp > 0 {
        if exp & 1 == 1 {
            acc = acc * base % MODULUS;
        }
        base = base * base % MODULUS;
        exp >>= 1;
    }
    acc
}

fn sample(n: usize) -> Vec<u64> {
    (0..n as u64).map(|i| (i * i * 7919 + 13 * i + 5) % MODULUS).collect()
}

#[test]
fn modular_arithmetic() {
    assert_eq!(add_mod(MODULUS - 1, 1), 0);
    assert_eq!(add_mod(MODULUS - 1, MODULUS - 1), MODULUS - 2);
    assert_eq!(sub_mod(0, 1), MODULUS - 1);
    assert_eq!(sub_mod(5, 3), 2);
    assert_eq!(mul_mod(MODULUS - 1, MODULUS - 1), 1);
    assert_eq!(mul_mod(2, HALF), 1);
    assert_eq!(mul_mod(ROOT, ROOT_INV), 1);
    assert_eq!(mul_mod(123_456_789, 987_654_321), 123_456_789u64 * 987_654_321 % MODULUS);
}

#[test]
fn roots_of_unity_have_their_order() {
    assert_eq!(root_of_order(1, false), 1);
    assert_eq!(root_of_order(2, false), MODULUS - 1);
    assert_eq!(root_of_order(2, true), MODULUS - 1);
    assert_eq!(root_of_order(4, false), 911_660_635);
    assert_eq!(root_of_order(1 << 23, false), ROOT);
    assert_eq!(root_of_order(1 << 23, true), ROOT_INV);
    for k in 1..=23u32 {
        let n = 1usize << k;
        let w = root_of_order(n, false);
        assert_eq!(pow_mod(w, n as u64), 1);
        assert_eq!(pow_mod(w, n as u64 / 2), MODULUS - 1);
        assert_eq!(mul_mod(w, root_of_order(n, true)), 1);
    }
}

#[test]
fn inverse_of_a_power_of_two() {
    assert_eq!(inverse_of_order(1), 1);
    assert_eq!(inverse_of_order(2), HALF);
    for k in 0..=23u32 {
        let n = 1u64 << k;
        assert_eq!(mul_mod(n % MODULUS, inverse_of_order(n as usize)), 1);
    }
}

#[test]
fn transform_of_small_vectors() {
    // of one element: the element itself
    let mut v = vec![42];
    fft(&mut v, &rev_swap(1), false);
    assert_eq!(v, vec![42]);
    // of two elements: their sum and their difference
    let mut v = vec![5, 3];
    fft(&mut v, &rev_swap(2), false);
    assert_eq!(v, vec![8, 2]);
    // of a unit pulse: all ones
    let mut v = vec![1, 0, 0, 0, 0, 0, 0, 0];
    fft(&mut v, &rev_swap(8), false);
    assert_eq!(v, vec![1; 8]);
    // of a constant: the sum at index 0
    let mut v = vec![3; 8];
    fft(&mut v, &rev_swap(8), false);
    assert_eq!(v, vec![24, 0, 0, 0, 0, 0, 0, 0]);
    // of a pulse at index 1: the powers of the root
    let mut v = vec![0, 1, 0, 0];
    fft(&mut v, &rev_swap(4), false);
    let w = root_of_order(4, false);
    assert_eq!(v, vec![1, w, mul_mod(w, w), mul_mod(mul_mod(w, w), w)]);
}

#[test]
fn fast_transform_equals_transform_by_definition() {
    for k in 0..9 {
        let n = 1usize << k;
        let v = sample(n);
        let table = rev_swap(n);
        for rev in [false, true] {
            let mut fast = v.clone();
            fft(&mut fast, &table, rev);
            assert_eq!(fast, dft(&v, rev));
        }
    }
}

#[test]
fn transform_values_are_polynomial_values() {
    let v = sample(16);
    let out = dft(&v, false);
    let w = root_of_order(16, false);
    for (k, &got) in out.iter().enumerate() {
        let point = pow_mod(w, k as u64);
        let mut expected = 0u64;
        for &c in v.iter().rev() {
            expected = (expected * point + c) % MODULUS;
        }
        assert_eq!(got, expected);
    }
}

#[test]
fn inverse_transform_undoes_the_transform() {
    for k in 0..13 {
        let n = 1usize << k;
        let v = sample(n);
        let table = rev_swap(n);
        let mut w = v.clone();
        fft(&mut w, &table, false);
        fft(&mut w, &table, true);
        assert_eq!(w, v);
        let mut w = v.clone();
        fft(&mut w, &table, true);
        fft(&mut w, &table, false);
        assert_eq!(w, v);
    }
    let v = sample(32);
    assert_eq!(dft(&dft(&v, false), true), v);
}

#[test]
fn transform_of_digits_is_padded_with_zeros() {
    let table = rev_swap(8);
    let got = go_fft(&[1, 2, 3], &table, 8);
    assert_eq!(got, dft(&[1, 2, 3, 0, 0, 0, 0, 0], false));
    assert_eq!(go_fft(&[], &table, 8), vec![0; 8]);
}
