//! The `[mesh]` block of a case configuration: the gas mesh, coarser than the
//! particles in the unresolved regime.

use vstd::prelude::*;

verus! {

/// Ghost-cell width that a `[mesh]` block takes when it names none.
pub open spec fn spec_default_ng() -> usize {
    2
}

/// Default ghost-cell width for a gas mesh.
pub fn default_ng() -> (ng: usize)
    ensures
        ng == spec_default_ng(),
{
    2
}

/// `[mesh]`: cell counts of the gas mesh along each axis and its ghost width.
/// The cell counts must divide the packing's conventional-cell counts so that
/// the domain tiles evenly.
#[derive(Clone, Copy, Debug, PartialEq, Eq)]
pub struct MeshCfg {
    pub nx: usize,
    pub ny: usize,
    pub nz: usize,
    pub ng: usize,
}

impl Default for MeshCfg {
    /// The all-zero block (a parsed block with no `ng` takes [`default_ng`]).
    fn default() -> (cfg: Self)
        ensures
            cfg.nx == 0,
            cfg.ny == 0,
            cfg.nz == 0,
            cfg.ng == 0,
    {
        MeshCfg { nx: 0, ny: 0, nz: 0, ng: 0 }
    }
}

} // verus!
