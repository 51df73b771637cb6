//! The prime service: a client names a number, and is told whether it is
//! prime.
use vstd::prelude::*;

verus! {

/// Whether `n` is a prime number: at least two, and divisible by no number
/// between one and itself.
pub open spec fn is_prime(n: nat) -> bool {
    n >= 2 && forall|d: nat| 2 <= d < n ==> #[trigger] (n % d) != 0
}

/// `primal::is_prime`: whether the number is prime. The crate decides it
/// with the Miller-Rabin test on witnesses that are known to settle every
/// number of 64 bits; nothing of that is proved here.
#[verifier::external_body]
fn prime(n: u64) -> (p: bool)
    ensures
        p == is_prime(n as nat),
{
    primal::is_prime(n)
}

/// What a client asks: a method, which must be `isPrime`, and the number
/// that it is about.
#[derive(Debug, Clone, PartialEq, Eq)]
pub struct Request {
    pub method: String,
    pub number: u64,
}

/// What a client is told.
#[derive(Debug, Clone, PartialEq, Eq)]
pub struct Response {
    pub method: String,
    pub prime: bool,
}

/// What becomes of a request.
#[derive(Debug, Clone, PartialEq, Eq)]
pub enum Reply {
    /// The request is answered.
    Answer(Response),
    /// The method of the request is not known.
    Invalid,
}

/// Answers a request for the method `isPrime`: the answer names the method
/// of the request, and says whether its number is prime.
pub fn handle_correct_request(request: Request) -> (response: Response)
    ensures
        response.method@ == request.method@,
        response.prime == is_prime(request.number as nat),
{
    let request_num_is_prime = prime(request.number);
    Response { method: request.method, prime: request_num_is_prime }
}

/// Takes one request: it is answered if its method is `isPrime`, and
/// invalid if not.
pub fn prime_handler(request: Request) -> (reply: Reply)
    ensures
        match reply {
            Reply::Answer(response) => request.method@ == "isPrime"@ && response.method@
                == request.method@ && response.prime == is_prime(request.number as nat),
            Reply::Invalid => request.method@ != "isPrime"@,
        },
{
    let known = "isPrime".to_owned();
    if request.method == known {
        Reply::Answer(handle_correct_request(request))
    } else {
        Reply::Invalid
    }
}

} // verus!
