use prime_summer::batch::sort_queries;
use prime_summer::boundary::{successor, two_prime_correction};
use prime_summer::phi::{apply_weight, phi, square_pyramid};
use prime_summer::query::Query;
use prime_summer::sweep::resolve_queries;
use prime_summer::table::PrimeTable;
use prime_summer::tree::Accumulator;
use prime_summer::wheel::{Wheel, VACANT};
use prime_summer::{floor_cbrt, floor_sqrt, sum_of_squares};
use rug::Integer;

fn trial_prime(n: u64) -> bool {
    if n < 2 {
        return false;
    }
    let mut d = 2;
    while d * d <= n {
        if n % d == 0 {
            return false;
        }
        d += 1;
    }
    true
}

/// The sum of k * k over the k up to x that none of the primes divides.
fn coprime_sum(x: u64, primes: &[u64]) -> Integer {
    let mut total = Integer::new();
    for k in 1..=x {
        if primes.iter().all(|p| k % p != 0) {
            total += k * k;
        }
    }
    total
}

fn value_of(query: &Query, primes: &[u64]) -> Integer {
    let sum = coprime_sum(query.x, &primes[..query.i]) * query.w * query.w;
    if query.sign {
        -sum
    } else {
        sum
    }
}

fn prime_sum(n: u64) -> Integer {
    let mut total = Integer::new();
    for p in 2..=n {
        if trial_prime(p) {
            total += p * p;
        }
    }
    total
}

#[test]
fn square_pyramid_closed_form() {
    assert_eq!(square_pyramid(0), 0);
    assert_eq!(square_pyramid(1), 1);
    assert_eq!(square_pyramid(10), 385);
    assert_eq!(square_pyramid(100), 338350);
    assert_eq!(
        square_pyramid(u64::MAX),
        "2092367245128893587775121957608752906972172301784412323840"
            .parse::<Integer>()
            .unwrap()
    );
}

#[test]
fn apply_weight_scales_and_signs() {
    assert_eq!(apply_weight(Integer::from(7), false, 3), 63);
    assert_eq!(apply_weight(Integer::from(7), true, 3), -63);
    assert_eq!(apply_weight(Integer::from(-2), true, 5), 50);
    assert_eq!(apply_weight(Integer::from(9), false, 1), 9);
    assert_eq!(apply_weight(Integer::from(9), true, 0), 0);
}

#[test]
fn floor_roots() {
    assert_eq!(floor_sqrt(0), 0);
    assert_eq!(floor_sqrt(1), 1);
    assert_eq!(floor_sqrt(3), 1);
    assert_eq!(floor_sqrt(4), 2);
    assert_eq!(floor_sqrt(99), 9);
    assert_eq!(floor_sqrt(100), 10);
    assert_eq!(floor_sqrt(u64::MAX), 4294967295);
    assert_eq!(floor_cbrt(0), 0);
    assert_eq!(floor_cbrt(1), 1);
    assert_eq!(floor_cbrt(7), 1);
    assert_eq!(floor_cbrt(8), 2);
    assert_eq!(floor_cbrt(26), 2);
    assert_eq!(floor_cbrt(27), 3);
    assert_eq!(floor_cbrt(1004), 10);
    assert_eq!(floor_cbrt(u64::MAX), 2642245);
}

#[test]
fn sum_of_squares_of_a_list() {
    assert_eq!(sum_of_squares(&[]), 0);
    assert_eq!(sum_of_squares(&[2, 3, 5, 7]), 87);
    assert_eq!(
        sum_of_squares(&[4294967295, 4294967295]),
        "36893488130239234050".parse::<Integer>().unwrap()
    );
}

#[test]
fn phi_without_primes_is_the_closed_form() {
    let mut queries = Vec::new();
    assert_eq!(phi(10, &[], false, 1, 100, &mut queries), 385);
    assert_eq!(phi(10, &[], true, 3, 100, &mut queries), -3465);
    assert_eq!(phi(0, &[], false, 7, 0, &mut queries), 0);
    assert!(queries.is_empty());
}

#[test]
fn phi_below_the_threshold_is_put_off() {
    let mut queries = vec![Query { x: 1, i: 1, sign: false, w: 1 }];
    let direct = phi(20, &[2, 3], true, 5, 30, &mut queries);
    assert_eq!(direct, 0);
    assert_eq!(
        queries,
        vec![
            Query { x: 1, i: 1, sign: false, w: 1 },
            Query { x: 20, i: 2, sign: true, w: 5 },
        ]
    );
}

#[test]
fn phi_descends_and_puts_off() {
    let primes = [2u64, 3, 5];
    let mut queries = Vec::new();
    let direct = phi(100, &primes, false, 1, 30, &mut queries);
    assert_eq!(direct, 107745);
    assert_eq!(queries, vec![Query { x: 20, i: 2, sign: true, w: 5 }]);
    assert_eq!(value_of(&queries[0], &primes), -25375);
    assert_eq!(direct + value_of(&queries[0], &primes), 82370);
    assert_eq!(coprime_sum(100, &primes), 82370);
}

#[test]
fn phi_with_a_low_threshold_computes_all_at_once() {
    let primes = [2u64, 3, 5];
    let mut queries = Vec::new();
    let direct = phi(100, &primes, false, 1, 5, &mut queries);
    assert!(queries.is_empty());
    assert_eq!(direct, 82370);
    let negated = phi(100, &primes, true, 2, 5, &mut queries);
    assert_eq!(negated, -4 * 82370);
}

#[test]
fn phi_adds_up_with_its_queries() {
    let primes = [2u64, 3, 5, 7, 11, 13];
    for (x, y) in [(1000u64, 40u64), (5000, 100), (777, 13), (12345, 333), (13, 13)] {
        for count in 0..=primes.len() {
            let head = &primes[..count];
            let mut queries = Vec::new();
            let mut total = phi(x, head, false, 1, y, &mut queries);
            for query in &queries {
                assert!(query.x < y);
                assert!(1 <= query.i && query.i <= count);
                total += value_of(query, &primes);
            }
            assert_eq!(total, coprime_sum(x, head), "x {} y {} count {}", x, y, count);
        }
    }
}

#[test]
fn sort_queries_orders_by_bound_then_count() {
    let mut queries = vec![
        Query { x: 9, i: 2, sign: false, w: 1 },
        Query { x: 3, i: 1, sign: true, w: 7 },
        Query { x: 9, i: 1, sign: true, w: 2 },
        Query { x: 0, i: 5, sign: false, w: 3 },
        Query { x: 3, i: 1, sign: false, w: 5 },
    ];
    sort_queries(&mut queries);
    let keys: Vec<(u64, usize)> = queries.iter().map(|q| (q.x, q.i)).collect();
    assert_eq!(keys, vec![(0, 5), (3, 1), (3, 1), (9, 1), (9, 2)]);
    assert_eq!(queries[0], Query { x: 0, i: 5, sign: false, w: 3 });
    assert_eq!(queries[3], Query { x: 9, i: 1, sign: true, w: 2 });
    assert_eq!(queries[4], Query { x: 9, i: 2, sign: false, w: 1 });
    let sevens = queries.iter().filter(|q| q.w == 7).count();
    let fives = queries.iter().filter(|q| q.w == 5).count();
    assert_eq!((sevens, fives), (1, 1));
    let mut nothing: Vec<Query> = Vec::new();
    sort_queries(&mut nothing);
    assert!(nothing.is_empty());
}

#[test]
fn resolve_queries_of_an_empty_batch_is_zero() {
    assert_eq!(resolve_queries(&Vec::new(), &[2, 3, 5]), 0);
}

#[test]
fn resolve_queries_single_known_values() {
    let primes = [2u64, 3, 5];
    let one = |x: u64, i: usize, sign: bool, w: u64| {
        resolve_queries(&vec![Query { x, i, sign, w }], &primes)
    };
    assert_eq!(one(20, 0, false, 1), 2870);
    assert_eq!(one(20, 1, false, 1), 1330);
    assert_eq!(one(20, 2, false, 1), 1015);
    assert_eq!(one(20, 2, true, 5), -25375);
    assert_eq!(one(7, 2, false, 1), 75);
    assert_eq!(one(30, 3, false, 1), 2360);
    assert_eq!(one(0, 3, false, 1), 0);
    assert_eq!(one(1, 3, true, 4), -16);
}

#[test]
fn each_resolved_query_matches_a_recount() {
    let primes = [2u64, 3, 5, 7, 11, 13, 17, 19, 23];
    for x in 0..400u64 {
        for i in 0..=primes.len() {
            let query = Query { x, i, sign: (x + i as u64) % 2 == 1, w: 1 + x % 4 };
            let answer = resolve_queries(&vec![query], &primes);
            assert_eq!(answer, value_of(&query, &primes), "x {} i {}", x, i);
        }
    }
}

#[test]
fn resolve_queries_adds_up_a_batch() {
    let primes = [2u64, 3, 5, 7, 11];
    let mut queries = Vec::new();
    for x in [3u64, 3, 10, 11, 11, 11, 50, 121, 122, 500, 500] {
        for i in [1usize, 4, 5] {
            queries.push(Query { x, i, sign: x % 3 == 0, w: x % 7 + 1 });
        }
    }
    sort_queries(&mut queries);
    let mut expected = Integer::new();
    for query in &queries {
        expected += value_of(query, &primes);
    }
    assert_eq!(resolve_queries(&queries, &primes), expected);
}

#[test]
fn resolve_queries_without_primes() {
    let queries = vec![
        Query { x: 4, i: 0, sign: false, w: 1 },
        Query { x: 10, i: 0, sign: true, w: 2 },
    ];
    assert_eq!(resolve_queries(&queries, &[]), 30 - 4 * 385);
}

#[test]
fn accumulator_sums_from_a_class_on() {
    let mut accumulator = Accumulator::new(5);
    for class in 0..5 {
        assert_eq!(accumulator.suffix_sum(class), 0);
    }
    accumulator.add(0, &Integer::from(1));
    accumulator.add(2, &Integer::from(10));
    accumulator.add(4, &Integer::from(100));
    accumulator.add(2, &Integer::from(1000));
    assert_eq!(accumulator.suffix_sum(0), 1111);
    assert_eq!(accumulator.suffix_sum(1), 1110);
    assert_eq!(accumulator.suffix_sum(2), 1110);
    assert_eq!(accumulator.suffix_sum(3), 100);
    assert_eq!(accumulator.suffix_sum(4), 100);
}

#[test]
fn accumulator_of_every_small_size() {
    for classes in 1..=40usize {
        let mut accumulator = Accumulator::new(classes);
        let mut sums = vec![0u64; classes];
        for step in 0..200u64 {
            let class = ((step * 7 + step / 3) % classes as u64) as usize;
            accumulator.add(class, &Integer::from(step));
            sums[class] += step;
        }
        for class in 0..classes {
            let expected: u64 = sums[class..].iter().sum();
            assert_eq!(accumulator.suffix_sum(class), expected, "{} of {}", class, classes);
        }
    }
}

#[test]
fn wheel_tells_the_first_prime_that_divides() {
    let primes = [2u64, 3, 5, 7, 11, 13];
    let mut wheel = Wheel::new(&primes);
    assert_eq!(wheel.advance(&primes), primes.len());
    for number in 1..5000u64 {
        let expected = primes.iter().position(|p| number % p == 0).unwrap_or(primes.len());
        assert_eq!(wheel.advance(&primes), expected, "number {}", number);
    }
}

#[test]
fn wheel_first_classes() {
    let primes = [2u64, 3];
    let mut wheel = Wheel::new(&primes);
    let classes: Vec<usize> = (0..13).map(|_| wheel.advance(&primes)).collect();
    assert_eq!(classes, vec![2, 2, 0, 1, 0, 2, 0, 2, 0, 1, 0, 2, 0]);
}

#[test]
fn wheel_without_primes_lets_all_survive() {
    let mut wheel = Wheel::new(&[]);
    for _ in 0..10 {
        assert_eq!(wheel.advance(&[]), 0);
    }
    assert_eq!(VACANT, usize::MAX);
}

#[test]
fn wheel_with_one_large_prime() {
    let primes = [101u64];
    let mut wheel = Wheel::new(&primes);
    for number in 0..1000u64 {
        let expected = if number > 0 && number % 101 == 0 { 0 } else { 1 };
        assert_eq!(wheel.advance(&primes), expected);
    }
}

#[test]
fn prime_table_lists_the_primes() {
    let table = PrimeTable::sieve(100);
    assert_eq!(table.primes_up_to(0), Vec::<u64>::new());
    assert_eq!(table.primes_up_to(1), Vec::<u64>::new());
    assert_eq!(table.primes_up_to(2), vec![2]);
    assert_eq!(table.primes_up_to(30), vec![2, 3, 5, 7, 11, 13, 17, 19, 23, 29]);
    assert_eq!(table.primes_up_to(100).len(), 25);
    assert_eq!(table.primes_up_to(100).last(), Some(&97));
}

#[test]
fn prime_table_agrees_with_trial_division() {
    for limit in [0usize, 1, 2, 3, 4, 8, 9, 10, 24, 25, 26, 1000, 10007] {
        let table = PrimeTable::sieve(limit);
        let expected: Vec<u64> = (0..=limit as u64).filter(|n| trial_prime(*n)).collect();
        assert_eq!(table.primes_up_to(limit as u64), expected, "limit {}", limit);
    }
}

#[test]
fn prime_table_walks_up_and_down() {
    let table = PrimeTable::sieve(100);
    assert_eq!(table.next_prime(0), Some(2));
    assert_eq!(table.next_prime(2), Some(3));
    assert_eq!(table.next_prime(7), Some(11));
    assert_eq!(table.next_prime(89), Some(97));
    assert_eq!(table.next_prime(96), Some(97));
    assert_eq!(table.next_prime(97), None);
    assert_eq!(table.next_prime(100), None);
    assert_eq!(table.next_prime(u64::MAX), None);
    assert_eq!(table.prev_prime(0), 0);
    assert_eq!(table.prev_prime(2), 0);
    assert_eq!(table.prev_prime(3), 2);
    assert_eq!(table.prev_prime(10), 7);
    assert_eq!(table.prev_prime(11), 7);
    assert_eq!(table.prev_prime(12), 11);
    assert_eq!(table.prev_prime(101), 97);
    assert_eq!(table.prev_prime(u64::MAX), 97);
    assert_eq!(successor(&table, 10), 11);
    assert_eq!(successor(&table, 97), u64::MAX);
}

#[test]
fn two_prime_correction_known_values() {
    let table = PrimeTable::sieve(1000);
    assert_eq!(two_prime_correction(100, 4, 10, &table), 41961);
    assert_eq!(two_prime_correction(1000, 10, 31, &table), 26277927);
    assert_eq!(two_prime_correction(10000, 21, 100, &table), 19635694353u64);
    assert_eq!(two_prime_correction(1, 1, 1, &table), 0);
    assert_eq!(two_prime_correction(100, 10, 10, &table), 0);
}

#[test]
fn two_prime_correction_matches_a_recount() {
    let table = PrimeTable::sieve(5000);
    for n in [4u64, 9, 10, 25, 26, 121, 1000, 4999, 5000] {
        let sqrt = floor_sqrt(n);
        for cbrt in 0..=sqrt {
            let mut expected = Integer::new();
            for p in (cbrt + 1)..=sqrt {
                if trial_prime(p) {
                    let inner = prime_sum(n / p) - prime_sum(p - 1);
                    expected += inner * p * p;
                }
            }
            assert_eq!(two_prime_correction(n, cbrt, sqrt, &table), expected, "{} {}", n, cbrt);
        }
    }
}
