use vstd::prelude::*;

verus! {

/// The numbers below this one are checked; above it the trial division of the
/// outside crate would overflow on a prime.
pub const PRIME_CHECK_LIMIT: u64 = 18446744065119617025;

pub open spec fn is_prime_spec(n: int) -> bool {
    n > 1 && forall|d: int| 2 <= d < n ==> #[trigger] (n % d) != 0
}

/// Relies on primes::is_prime: whether `n` is prime, by trial division, which
/// overflows on primes from `PRIME_CHECK_LIMIT` on.
#[verifier::external_body]
fn prime_by_trial_division(n: u64) -> (r: bool)
    requires
        n < PRIME_CHECK_LIMIT,
    ensures
        r == is_prime_spec(n as int),
{
    primes::is_prime(n)
}

/// Whether the requested number is prime; `None` for a number too large to
/// check.
pub fn prime_verdict(number: u64) -> (r: Option<bool>)
    ensures
        number < PRIME_CHECK_LIMIT ==> r == Some(is_prime_spec(number as int)),
        number >= PRIME_CHECK_LIMIT ==> r is None,
{
    if number < PRIME_CHECK_LIMIT {
        Some(prime_by_trial_division(number))
    } else {
        None
    }
}

} // verus!
