//! The verifier's side of a Fiat-Shamir transcript.

pub mod digest;
pub mod domain_separator;
pub mod duplex_sponge;
pub mod errors;
pub mod field;
pub mod hint;
pub mod keccak;
pub mod laws;
pub mod number_laws;
pub mod pow;
pub mod protocol_laws;
pub mod request_laws;
pub mod run;
pub mod sho;
pub mod sponge_laws;
pub mod transcript;
pub mod unit;
pub mod utils;
pub mod verifier_state;
