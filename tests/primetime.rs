use protohackers::primetime::{prime_verdict, PRIME_CHECK_LIMIT};

#[test]
fn primes_are_recognised() {
    assert_eq!(prime_verdict(0), Some(false));
    assert_eq!(prime_verdict(1), Some(false));
    assert_eq!(prime_verdict(2), Some(true));
    assert_eq!(prime_verdict(7919), Some(true));
    assert_eq!(prime_verdict(7917), Some(false));
    assert_eq!(prime_verdict(PRIME_CHECK_LIMIT), None);
}
