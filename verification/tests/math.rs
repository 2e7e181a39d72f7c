use procon::math::{gcd, lcm, to_n_adic};
use procon::modulus::{
    mod_comb, mod_comb_with_repetition, mod_inv, mod_perm, mod_perm_with_repetition, mod_pow,
    PRIME_1_000_000_007, PRIME_998_244_353,
};

#[test]
fn lib_test_gcd() {
    assert_eq!(gcd(14, 15), 1);
    assert_eq!(gcd(18, 24), 6);
    assert_eq!(gcd(108, 56), 4);
    assert_eq!(gcd(8633, 6052), 89);
    assert_eq!(gcd(2 * 3 * 5 * 11 * 17, 3 * 7 * 11 * 13 * 19), 3 * 11);
}

#[test]
fn lib_test_lcm() {
    assert_eq!(lcm(127, 45), 5715);
    assert_eq!(lcm(12, 18), 36);
}

#[test]
fn gcd_with_zero() {
    assert_eq!(gcd(0, 0), 0);
    assert_eq!(gcd(7, 0), 7);
    assert_eq!(gcd(7, 7), 7);
    assert_eq!(gcd(1, 9), 1);
}

#[test]
fn lcm_with_zero_and_one() {
    assert_eq!(lcm(5, 0), 0);
    assert_eq!(lcm(1, 1), 1);
    assert_eq!(lcm(4, 6), 12);
}

#[test]
fn powers_modulo() {
    assert_eq!(mod_pow(2, 10, 1000), 24);
    assert_eq!(mod_pow(2, 10, PRIME_1_000_000_007), 1024);
    assert_eq!(mod_pow(3, 0, 7), 1);
    assert_eq!(mod_pow(3, 0, 1), 0);
    assert_eq!(mod_pow(10, 1, 7), 3);
    assert_eq!(mod_pow(5, 3, 13), 8);
    assert_eq!(mod_pow(2, 100, PRIME_998_244_353), 882499718);
}

#[test]
fn inverse_modulo_a_prime() {
    assert_eq!(mod_inv(3, 7), 5);
    let inv = mod_inv(123456, PRIME_1_000_000_007);
    assert_eq!((inv * 123456) % PRIME_1_000_000_007, 1);
}

#[test]
fn permutations_modulo() {
    assert_eq!(mod_perm(5, 2, 1000), 20);
    assert_eq!(mod_perm(5, 0, 1000), 1);
    assert_eq!(mod_perm(5, 0, 1), 1);
    assert_eq!(mod_perm(5, 5, 7), 1);
    assert_eq!(mod_perm(10, 3, PRIME_1_000_000_007), 720);
}

#[test]
fn combinations_modulo() {
    assert_eq!(mod_comb(5, 2, PRIME_1_000_000_007), 10);
    assert_eq!(mod_comb(10, 0, PRIME_1_000_000_007), 1);
    assert_eq!(mod_comb(10, 10, PRIME_1_000_000_007), 1);
    assert_eq!(mod_comb(20, 10, PRIME_998_244_353), 184756);
    assert_eq!(mod_comb_with_repetition(3, 2, PRIME_1_000_000_007), 6);
    assert_eq!(mod_perm_with_repetition(3, 4, PRIME_1_000_000_007), 81);
}

fn join(list: &Vec<usize>) -> String {
    list.iter().map(|x| x.to_string()).collect()
}

#[test]
fn lib_test_to_n_adic() {
    assert_eq!(join(&to_n_adic(12, 2)), format!("{:b}", 12));
    assert_eq!(join(&to_n_adic(35, 8)), format!("{:o}", 35));

    assert_eq!(join(&to_n_adic(-9, -2)), "1011");
    assert_eq!(
        join(&to_n_adic(123456789, -2)),
        "11000101011001101110100010101"
    );
    assert_eq!(join(&to_n_adic(0, -2)), "0");
}

#[test]
fn math_test_to_n_adic() {
    assert_eq!(join(&to_n_adic(12, 2)), format!("{:b}", 12));
    assert_eq!(join(&to_n_adic(35, 8)), format!("{:o}", 35));

    assert_eq!(join(&to_n_adic(-9, -2)), "1011");
    assert_eq!(
        join(&to_n_adic(123456789, -2)),
        "11000101011001101110100010101"
    );
    assert_eq!(join(&to_n_adic(0, -2)), "0");

    println!("{:?}", &to_n_adic(7, 8));
    println!("{:?}", &to_n_adic(-9, -2));
    println!("{:0b}", 0);
    println!("{:0b}", 1);
    println!("{:0b}", 2);
}

#[test]
fn digits_to_small_and_negative_bases() {
    assert_eq!(to_n_adic(0, 10), vec![0]);
    assert_eq!(to_n_adic(7, 8), vec![7]);
    assert_eq!(to_n_adic(8, 8), vec![1, 0]);
    assert_eq!(to_n_adic(255, 16), vec![15, 15]);
    assert_eq!(to_n_adic(-1, -2), vec![1, 1]);
    assert_eq!(to_n_adic(1, -2), vec![1]);
    assert_eq!(to_n_adic(2, -2), vec![1, 1, 0]);
    assert_eq!(to_n_adic(-15, -10), vec![2, 5]);
    assert_eq!(to_n_adic(isize::MIN, isize::MIN), vec![1, 0]);
    assert_eq!(to_n_adic(5, isize::MIN), vec![5]);
}
