//! Register identities: architectural (virtual) registers and physical
//! register tags.

use vstd::prelude::*;

verus! {

/// One architectural register: a register class (float or integer) together
/// with an index inside that class. Identity is class plus index.
#[derive(Clone, Copy, PartialEq, Eq, Structural, Debug)]
pub enum VReg {
    /// A float-class register.
    F(u32),
    /// An integer-class register.
    R(u32),
}

/// A physical register tag: a numeric identity plus a readiness flag.
///
/// `num` is stable once assigned; `ready` records whether the value backing
/// the tag has been produced yet. Identity is `num` alone; `ready` is state.
#[derive(Clone, Copy, Debug)]
pub struct PReg {
    pub num: u32,
    pub ready: bool,
}

} // verus!
