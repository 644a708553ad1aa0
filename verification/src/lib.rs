//! K-plane deniable container: a block of random-looking bytes that holds up to `K`
//! independent encrypted payloads, each on its own bit-plane and found only with its
//! password.

pub mod app;
pub mod bits;
pub mod cli;
pub mod derive;
pub mod format;
pub mod gui;
pub mod kpdc;
pub mod plane;
pub mod primes;
pub mod primitives;
pub mod text;
pub mod walk;

pub use derive::{Cipher, KdfParams};
pub use kpdc::{Error, Kpdc, DEFAULT_MAXPROBE};
pub use primes::{is_recommended_k, next_prime_coprime8};
pub use primitives::Secret;
