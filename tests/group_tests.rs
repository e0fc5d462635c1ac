use scalib_bp::group::{find_gen, gen_log_table, is_prime_u32, prime_factors, test_gen};

#[test]
fn prime_factors_of_composites() {
    assert_eq!(prime_factors(12), vec![2, 3]);
    assert_eq!(prime_factors(10), vec![2, 5]);
    assert_eq!(prime_factors(360), vec![2, 3, 5]);
    assert_eq!(prime_factors(65536), vec![2]);
}

#[test]
fn prime_factors_of_primes_and_edges() {
    assert_eq!(prime_factors(7), vec![7]);
    assert_eq!(prime_factors(2), vec![2]);
    assert_eq!(prime_factors(1), Vec::<u32>::new());
    assert_eq!(prime_factors(0), Vec::<u32>::new());
    assert_eq!(prime_factors(4294967291), vec![4294967291]);
}

#[test]
fn generator_test_on_z7() {
    let primes = prime_factors(6);
    assert!(test_gen(6, &primes, 3));
    assert!(test_gen(6, &primes, 5));
    assert!(!test_gen(6, &primes, 2));
    assert!(!test_gen(6, &primes, 1));
}

#[test]
fn generators_of_small_fields() {
    assert_eq!(find_gen(7), vec![3, 5]);
    assert_eq!(find_gen(5), vec![2, 3]);
    assert_eq!(find_gen(11), vec![2, 6, 7, 8]);
    // the candidates stop below p - 1, so Z_3^* gets none
    assert_eq!(find_gen(3), Vec::<u32>::new());
}

#[test]
fn log_tables_of_small_fields() {
    assert_eq!(gen_log_table(7), vec![1, 3, 2, 6, 4, 5]);
    assert_eq!(gen_log_table(5), vec![1, 2, 4, 3]);
    assert_eq!(gen_log_table(13), vec![1, 2, 4, 8, 3, 6, 12, 11, 9, 5, 10, 7]);
}

#[test]
fn primality() {
    for p in [2u32, 3, 5, 7, 13, 251, 257, 65537] {
        assert!(is_prime_u32(p), "{} is prime", p);
    }
    for n in [0u32, 1, 4, 9, 15, 256, 65536] {
        assert!(!is_prime_u32(n), "{} is not prime", n);
    }
}
