use prime_summer::sum_primes_squared;
use rug::Integer;

#[test]
fn test_small() {
    assert_eq!(sum_primes_squared(0), 0);
    assert_eq!(sum_primes_squared(1), 0);
    let mut s = 0;
    for n in 2..10001 {
        let mut i = 2;
        loop {
            if i * i > n {
                s += n * n;
                break;
            }
            if n % i == 0 {
                break;
            }
            i += 1;
        }
        assert_eq!(sum_primes_squared(n), s);
    }
}

#[test]
fn test_powers_of_10() {
    assert_eq!(sum_primes_squared(2), "4".parse::<Integer>().unwrap());
    assert_eq!(sum_primes_squared(29), "2397".parse::<Integer>().unwrap());
    assert_eq!(
        sum_primes_squared(541),
        "8384727".parse::<Integer>().unwrap()
    );
    assert_eq!(
        sum_primes_squared(7919),
        "19053119163".parse::<Integer>().unwrap()
    );
    assert_eq!(
        sum_primes_squared(104729),
        "34099597499091".parse::<Integer>().unwrap()
    );
    assert_eq!(
        sum_primes_squared(1299709),
        "53251529659694763".parse::<Integer>().unwrap()
    );
    assert_eq!(
        sum_primes_squared(15485863),
        "76304519151822049179".parse::<Integer>().unwrap()
    );
    assert_eq!(
        sum_primes_squared(179424673),
        "103158861357874372432083".parse::<Integer>().unwrap()
    );
    assert_eq!(
        sum_primes_squared(2038074743),
        "133759354162117403400944283".parse::<Integer>().unwrap()
    );
    assert_eq!(
        sum_primes_squared(22801763489),
        "168072405102068540986037048787".parse::<Integer>().unwrap()
    );
    assert_eq!(
        sum_primes_squared(252097800623),
        "206076219788796447007218742841043"
            .parse::<Integer>()
            .unwrap()
    );
    assert_eq!(
        sum_primes_squared(2760727302517),
        "247754953701579144582110673365391267"
            .parse::<Integer>()
            .unwrap()
    );
}
