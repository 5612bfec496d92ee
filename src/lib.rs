//! Synthetic genomes: markers, genes and pools of genes, their hexadecimal
//! text form, and the genetic operators on them.
//!
//! A marker holds the bit pattern of a 32-bit float; where a fresh marker is needed
//! the caller hands in a sample drawn from the standard normal distribution.
pub mod codec;
pub mod dna;
pub mod gene;
pub mod marker;
pub mod mutation;
mod random;

pub use codec::{
    partition_str, partition_string, u16_from_str, u16_to_string, u32_from_str, u32_to_string,
    DecodeError,
};
pub use dna::{inherit, DNA};
pub use gene::{BuildError, Gene};
pub use marker::Marker;
pub use mutation::{get_mutation_type, mutation_type_of, MutationType};
