//! The number theory behind both cryptosystems, stated over `int` and `nat`
//! and proved from first principles.

pub mod binomial;
pub mod fermat;
pub mod gcd;
pub mod primes;
pub mod squares;
