//! The five kinds of point mutation.
use vstd::prelude::*;
use crate::random::gen_range;

verus! {

/// The kinds of mutation a gene can undergo.
#[allow(non_camel_case_types)]
#[derive(Debug, Clone, Copy, PartialEq, Eq, Structural)]
pub enum MutationType {
    /// Set one marker to zero.
    DELETE,
    /// Swap one marker with a trait marker.
    REVERSAL,
    /// Copy one marker over a trait marker.
    DUPLICATION,
    /// Reorder all markers.
    SHIFT,
    /// Replace one marker with a fresh sample.
    NEW,
}

/// The kind that the number `n < 5` stands for.
pub open spec fn kind_of(n: nat) -> MutationType {
    if n == 0 {
        MutationType::DELETE
    } else if n == 1 {
        MutationType::REVERSAL
    } else if n == 2 {
        MutationType::DUPLICATION
    } else if n == 3 {
        MutationType::SHIFT
    } else {
        MutationType::NEW
    }
}

/// The kind that the number `n < 5` stands for.
pub fn mutation_type_of(n: usize) -> (r: MutationType)
    requires
        n < 5,
    ensures
        r == kind_of(n as nat),
{
    if n == 0 {
        MutationType::DELETE
    } else if n == 1 {
        MutationType::REVERSAL
    } else if n == 2 {
        MutationType::DUPLICATION
    } else if n == 3 {
        MutationType::SHIFT
    } else {
        MutationType::NEW
    }
}

/// One of the five kinds, each drawn with the same chance.
pub fn get_mutation_type() -> (r: MutationType)
    ensures
        exists|n: nat| n < 5 && r == kind_of(n),
{
    let n = gen_range(0, 5);
    mutation_type_of(n)
}

} // verus!
