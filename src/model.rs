use vstd::prelude::*;

verus! {

/// One sample of one atom at one simulation step, as read from a trajectory.
///
/// The seven numeric fields keep the decimal text they were read from. Each
/// is a decimal number whose value rounds to a finite double
/// (`finite::is_finite_number`); the store reads that text as its double.
pub struct Atom {
    pub step: i64,
    pub atom_id: i64,
    pub element: String,
    pub charge: String,
    pub x: String,
    pub y: String,
    pub z: String,
    pub vx: String,
    pub vy: String,
    pub vz: String,
}

/// Model of an `Atom`: its numeric fields in the order
/// charge, x, y, z, vx, vy, vz.
pub struct AtomView {
    pub step: i64,
    pub atom_id: i64,
    pub element: Seq<char>,
    pub values: Seq<Seq<char>>,
}

impl View for Atom {
    type V = AtomView;

    open spec fn view(&self) -> AtomView {
        AtomView {
            step: self.step,
            atom_id: self.atom_id,
            element: self.element@,
            values: seq![self.charge@, self.x@, self.y@, self.z@, self.vx@, self.vy@, self.vz@],
        }
    }
}

/// Number of tables of a given name in the store's catalogue.
pub struct TableCount {
    pub count: i32,
}

/// A digest of the trajectory file, as a 32-bit checksum.
pub struct Metadata {
    pub xyzhash: u32,
}

} // verus!
