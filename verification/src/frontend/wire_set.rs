//! Sets of wires.

use cranelift_entity::EntitySet;
use vstd::prelude::*;

verus! {

/// A wire of a gate graph.
#[derive(Clone, Copy, Debug, PartialEq, Eq, Structural)]
pub struct Wire(pub u32);

impl cranelift_entity::EntityRef for Wire {
    fn new(index: usize) -> (r: Self) {
        Wire(index as u32)
    }

    fn index(self) -> (r: usize) {
        self.0 as usize
    }
}

/// A set of wires, an `EntitySet` of the `cranelift-entity` crate.
#[verifier::external_body]
pub struct WireSet {
    set: EntitySet<Wire>,
}

/// The numbers of the wires a set holds.
pub uninterp spec fn wires_in(set: WireSet) -> Set<u32>;

/// `EntitySet::new`: the set holds nothing.
#[verifier::external_body]
pub(crate) fn new_wire_set() -> (r: WireSet)
    ensures
        wires_in(r) == Set::<u32>::empty(),
{
    WireSet { set: EntitySet::new() }
}

/// `EntitySet::insert`: the set holds one wire more, and the result is whether it was new.
#[verifier::external_body]
pub(crate) fn insert_wire(set: &mut WireSet, wire: Wire) -> (r: bool)
    requires
        wire.0 < u32::MAX,
    ensures
        wires_in(*final(set)) == wires_in(*old(set)).insert(wire.0),
        r == !wires_in(*old(set)).contains(wire.0),
{
    set.set.insert(wire)
}

/// `EntitySet::contains`: whether the set holds a wire.
#[verifier::external_body]
pub(crate) fn holds_wire(set: &WireSet, wire: Wire) -> (r: bool)
    ensures
        r == wires_in(*set).contains(wire.0),
{
    set.set.contains(wire)
}

impl WireSet {
    /// The empty set.
    pub fn new() -> (r: Self)
        ensures
            wires_in(r) == Set::<u32>::empty(),
    {
        new_wire_set()
    }

    /// Adds a wire; whether it was new.
    pub fn insert(&mut self, wire: Wire) -> (r: bool)
        requires
            wire.0 < u32::MAX,
        ensures
            wires_in(*final(self)) == wires_in(*old(self)).insert(wire.0),
            r == !wires_in(*old(self)).contains(wire.0),
    {
        insert_wire(self, wire)
    }

    /// Whether the set holds a wire.
    pub fn contains(&self, wire: Wire) -> (r: bool)
        ensures
            r == wires_in(*self).contains(wire.0),
    {
        holds_wire(self, wire)
    }
}

} // verus!
