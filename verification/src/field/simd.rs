//! Registers of 64-bit lanes.

use vstd::prelude::*;

verus! {

/// A register made of 64-bit lanes.
pub trait TowerSimdType: Sized + Copy {
    /// The lanes, lowest first.
    spec fn lanes_64(self) -> Seq<u64>;

    /// The number of lanes.
    spec fn lane_count() -> nat;

    /// Copies a 64-bit value to every lane.
    fn set_epi_64(val: i64) -> (r: Self)
        ensures
            r.lanes_64().len() == Self::lane_count(),
            forall|i: int| 0 <= i < Self::lane_count() ==> #[trigger] r.lanes_64()[i] == val as u64,
    ;
}

/// A 512-bit register.
#[derive(Clone, Copy, Debug, PartialEq, Eq)]
pub struct M512(pub [u64; 8]);

impl TowerSimdType for M512 {
    open spec fn lanes_64(self) -> Seq<u64> {
        self.0@
    }

    open spec fn lane_count() -> nat {
        8
    }

    fn set_epi_64(val: i64) -> (r: Self) {
        M512([val as u64; 8])
    }
}

} // verus!
