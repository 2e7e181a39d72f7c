use procon::prime::{divisors, get_prime, is_prime, osa_k, pre_osa_k, prime_factorize};

#[test]
fn test_get_prime() {
    let actual = get_prime(1_000);

    let expected = vec![
        2, 3, 5, 7, 11, 13, 17, 19, 23, 29, 31, 37, 41, 43, 47, 53, 59, 61, 67, 71, 73, 79, 83,
        89, 97, 101, 103, 107, 109, 113, 127, 131, 137, 139, 149, 151, 157, 163, 167, 173, 179,
        181, 191, 193, 197, 199, 211, 223, 227, 229, 233, 239, 241, 251, 257, 263, 269, 271,
        277, 281, 283, 293, 307, 311, 313, 317, 331, 337, 347, 349, 353, 359, 367, 373, 379,
        383, 389, 397, 401, 409, 419, 421, 431, 433, 439, 443, 449, 457, 461, 463, 467, 479,
        487, 491, 499, 503, 509, 521, 523, 541, 547, 557, 563, 569, 571, 577, 587, 593, 599,
        601, 607, 613, 617, 619, 631, 641, 643, 647, 653, 659, 661, 673, 677, 683, 691, 701,
        709, 719, 727, 733, 739, 743, 751, 757, 761, 769, 773, 787, 797, 809, 811, 821, 823,
        827, 829, 839, 853, 857, 859, 863, 877, 881, 883, 887, 907, 911, 919, 929, 937, 941,
        947, 953, 967, 971, 977, 983, 991, 997,
    ];

    assert_eq!(actual, expected);
}

#[test]
fn test_is_prime() {
    assert!(is_prime(2));
    assert!(is_prime(17));
    assert!(is_prime(997));
    assert!(is_prime(4759));
    assert!(is_prime(26399));
    assert!(is_prime(82339));
    assert!(is_prime(1_000_000_007));

    assert!(!is_prime(4));
    assert!(!is_prime(651));
    assert!(!is_prime(1437));
    assert!(!is_prime(79067));
    assert!(!is_prime(99997));
}

#[test]
fn test_prime_factorize() {
    assert_eq!(prime_factorize(30248), vec![2, 2, 2, 19, 199]);
    assert_eq!(prime_factorize(64197), vec![3, 3, 7, 1019]);
    assert_eq!(prime_factorize(86767), vec![86767]);
    assert_eq!(prime_factorize(94624), vec![2, 2, 2, 2, 2, 2957]);
}

#[test]
fn test_osa_k() {
    let min_factor = pre_osa_k(1_000_000);

    assert_eq!(osa_k(15866, &min_factor), vec![2, 7933]);
    assert_eq!(osa_k(20897, &min_factor), vec![20897]);
    assert_eq!(osa_k(45297, &min_factor), vec![3, 3, 7, 719]);
    assert_eq!(osa_k(70277, &min_factor), vec![31, 2267]);

    let n = 77526;
    assert_eq!(prime_factorize(n), osa_k(n, &min_factor));

    let n = 79039;
    assert_eq!(prime_factorize(n), osa_k(n, &min_factor));

    let n = 958550;
    assert_eq!(prime_factorize(n), osa_k(n, &min_factor));

    let n = 977821;
    assert_eq!(prime_factorize(n), osa_k(n, &min_factor));

    let n = 999978;
    assert_eq!(prime_factorize(n), osa_k(n, &min_factor));
}

#[test]
fn test_divisors() {
    assert_eq!(divisors(10), vec![1, 2, 5, 10]);
    assert_eq!(divisors(13), vec![1, 13]);
    assert_eq!(divisors(16), vec![1, 2, 4, 8, 16]);
    assert_eq!(divisors(1_000_000_007), vec![1, 1_000_000_007]);
}

#[test]
fn small_numbers_are_classified() {
    assert!(!is_prime(0));
    assert!(!is_prime(1));
    assert!(is_prime(3));
    assert!(!is_prime(9));
    assert!(!is_prime(25));
    assert!(is_prime(18446744073709551557));
}

#[test]
fn factorizations_of_the_smallest_numbers() {
    assert_eq!(prime_factorize(0), vec![0]);
    assert_eq!(prime_factorize(1), Vec::<usize>::new());
    assert_eq!(prime_factorize(2), vec![2]);
    assert_eq!(prime_factorize(4), vec![2, 2]);
    assert_eq!(prime_factorize(12), vec![2, 2, 3]);
}

#[test]
fn divisors_of_squares_and_of_nothing() {
    assert_eq!(divisors(0), Vec::<usize>::new());
    assert_eq!(divisors(1), vec![1]);
    assert_eq!(divisors(36), vec![1, 2, 3, 4, 6, 9, 12, 18, 36]);
    assert_eq!(divisors(27), vec![1, 3, 9, 27]);
}

#[test]
fn sieve_of_the_first_ten() {
    assert_eq!(get_prime(2), vec![2]);
    assert_eq!(get_prime(10), vec![2, 3, 5, 7]);
}

#[test]
fn least_divisor_table() {
    assert_eq!(pre_osa_k(12), vec![0, 1, 2, 3, 2, 5, 2, 7, 2, 3, 2, 11, 2]);
    let table = pre_osa_k(30);
    assert_eq!(osa_k(24, &table), vec![2, 2, 2, 3]);
    assert_eq!(osa_k(1, &table), Vec::<usize>::new());
    assert_eq!(osa_k(0, &table), Vec::<usize>::new());
}
