#![allow(non_snake_case)]
#![allow(unused_mut)]

use prime_sieve::primestwo::Sieve;

#[test]
fn Sieve_smalltest() {
    let mut s: Sieve<u32> = Sieve::new();
    assert_eq!(s.next().unwrap(), 2);
    assert_eq!(s.next().unwrap(), 3);
    assert_eq!(s.next().unwrap(), 5);
    assert_eq!(s.next().unwrap(), 7);
    assert_eq!(s.next().unwrap(), 11);
}

#[test]
fn Sieve_100test() {
    let mut s = Sieve::new();

    let result: Vec<u32> = s.take(100);
    let answer = vec![
        2, 3, 5, 7, 11, 13, 17, 19, 23, 29,
        31, 37, 41, 43, 47, 53, 59, 61, 67, 71,
        73, 79, 83, 89, 97, 101, 103, 107, 109, 113,
        127, 131, 137, 139, 149, 151, 157, 163, 167, 173,
        179, 181, 191, 193, 197, 199, 211, 223, 227, 229,
        233, 239, 241, 251, 257, 263, 269, 271, 277, 281,
        283, 293, 307, 311, 313, 317, 331, 337, 347, 349,
        353, 359, 367, 373, 379, 383, 389, 397, 401, 409,
        419, 421, 431, 433, 439, 443, 449, 457, 461, 463,
        467, 479, 487, 491, 499, 503, 509, 521, 523, 541,
    ];

    assert_eq!(result, answer);
}

fn prime_by_trial(n: u32) -> bool {
    if n < 2 {
        return false;
    }
    let mut d = 2;
    while d * d <= n {
        if n % d == 0 {
            return false;
        }
        d += 1;
    }
    true
}

#[test]
fn outputs_are_exactly_the_primes_up_to_a_bound() {
    let bound = 5000;
    let mut s: Sieve<u32> = Sieve::new();
    let mut produced = Vec::new();
    loop {
        let p = s.next().unwrap();
        if p > bound {
            break;
        }
        produced.push(p);
    }
    for n in 2..=bound {
        assert_eq!(produced.contains(&n), prime_by_trial(n), "at {}", n);
    }
}

#[test]
fn outputs_strictly_increase_and_are_prime() {
    let mut s: Sieve<u32> = Sieve::new();
    let run = s.take(1000);
    assert_eq!(run.len(), 1000);
    assert_eq!(run[0], 2);
    assert_eq!(run[999], 7919);
    for k in 0..run.len() {
        assert!(prime_by_trial(run[k]));
        if k > 0 {
            assert!(run[k - 1] < run[k]);
        }
    }
}

#[test]
fn take_of_none_is_empty_and_take_goes_on_where_it_stopped() {
    let mut s: Sieve<u32> = Sieve::new();
    assert_eq!(s.take(0), Vec::<u32>::new());
    assert_eq!(s.take(3), vec![2, 3, 5]);
    assert_eq!(s.take(0), Vec::<u32>::new());
    assert_eq!(s.next(), Some(7));
    assert_eq!(s.take(4), vec![11, 13, 17, 19]);
}

#[test]
fn two_generators_do_not_disturb_each_other() {
    let mut a: Sieve<u32> = Sieve::new();
    let mut b: Sieve<u32> = Sieve::new();
    assert_eq!(a.take(5), vec![2, 3, 5, 7, 11]);
    assert_eq!(b.next(), Some(2));
    assert_eq!(a.next(), Some(13));
    assert_eq!(b.next(), Some(3));
}

#[test]
fn a_generator_over_u64_starts_the_same() {
    let mut s: Sieve<u64> = Sieve::new();
    assert_eq!(s.next(), Some(2));
    assert_eq!(s.take(9), vec![3, 5, 7, 11, 13, 17, 19, 23, 29]);
}

#[test]
fn a_generator_over_u8_stops_where_a_double_no_longer_fits() {
    let mut s: Sieve<u8> = Sieve::new();
    let run = s.take(100);
    assert_eq!(
        run,
        vec![
            2, 3, 5, 7, 11, 13, 17, 19, 23, 29, 31, 37, 41, 43, 47, 53, 59, 61, 67, 71, 73, 79,
            83, 89, 97, 101, 103, 107, 109, 113, 127
        ]
    );
    assert_eq!(s.next(), None);
    assert_eq!(s.next(), None);
    assert_eq!(s.take(5), Vec::<u8>::new());
}

#[test]
fn the_last_prime_over_u8_comes_out_before_the_overflow() {
    let mut s: Sieve<u8> = Sieve::new();
    let mut last = 0;
    let mut count = 0;
    while let Some(p) = s.next() {
        assert!(p > last);
        last = p;
        count += 1;
    }
    assert_eq!(last, 127);
    assert_eq!(count, 31);
}
