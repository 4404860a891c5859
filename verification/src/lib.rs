//! Textbook RSA over arbitrary-precision integers: the number-theory kernel,
//! a Miller-Rabin primality tester, key generation and a small codec.

pub mod bigint;
pub mod error;
pub mod kernel;
pub mod primality;
pub mod keygen;
pub mod codec;
pub mod fermat;
