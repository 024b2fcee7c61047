//! The phases of the parent schedule of a dynamic two-way coupling: export the
//! bed kinematics, tick the gas, import the fluid force, tick the bed, check.

use vstd::prelude::*;

verus! {

/// The parent phases for a two-way coupled moving bed.
#[derive(Debug, Clone, Copy, PartialEq, Eq)]
pub enum CouplePhase {
    /// SOIL to FIELD: hand the bed kinematics across.
    Export,
    /// Advance the gas.
    TickCfd,
    /// FIELD to SOIL: copy the fluid force back to the bed.
    Import,
    /// Advance the bed.
    TickSoil,
    /// Termination check.
    Check,
}

/// Position of a phase in the parent schedule.
pub open spec fn phase_index(phase: CouplePhase) -> u32 {
    match phase {
        CouplePhase::Export => 0,
        CouplePhase::TickCfd => 1,
        CouplePhase::Import => 2,
        CouplePhase::TickSoil => 3,
        CouplePhase::Check => 4,
    }
}

/// Display name of a phase.
pub open spec fn phase_name(phase: CouplePhase) -> Seq<char> {
    match phase {
        CouplePhase::Export => "Export"@,
        CouplePhase::TickCfd => "TickCfd"@,
        CouplePhase::Import => "Import"@,
        CouplePhase::TickSoil => "TickSoil"@,
        CouplePhase::Check => "Check"@,
    }
}

impl CouplePhase {
    /// Position of this phase in the parent schedule.
    pub fn to_index(&self) -> (index: u32)
        ensures
            index == phase_index(*self),
    {
        match self {
            CouplePhase::Export => 0,
            CouplePhase::TickCfd => 1,
            CouplePhase::Import => 2,
            CouplePhase::TickSoil => 3,
            CouplePhase::Check => 4,
        }
    }

    /// Display name of this phase.
    pub fn name(&self) -> (name: &'static str)
        ensures
            name@ == phase_name(*self),
    {
        match self {
            CouplePhase::Export => "Export",
            CouplePhase::TickCfd => "TickCfd",
            CouplePhase::Import => "Import",
            CouplePhase::TickSoil => "TickSoil",
            CouplePhase::Check => "Check",
        }
    }
}

/// The parent schedule runs export, then the gas, then the import, then the
/// bed, then the check; each phase has its own slot.
pub proof fn lemma_phase_order(a: CouplePhase, b: CouplePhase)
    ensures
        phase_index(CouplePhase::Export) < phase_index(CouplePhase::TickCfd),
        phase_index(CouplePhase::TickCfd) < phase_index(CouplePhase::Import),
        phase_index(CouplePhase::Import) < phase_index(CouplePhase::TickSoil),
        phase_index(CouplePhase::TickSoil) < phase_index(CouplePhase::Check),
        phase_index(a) == phase_index(b) <==> a == b,
{
}

/// Distinct phases have distinct names.
pub proof fn lemma_phase_names_distinct(a: CouplePhase, b: CouplePhase)
    ensures
        phase_name(a) == phase_name(b) <==> a == b,
{
    reveal_strlit("Export");
    reveal_strlit("TickCfd");
    reveal_strlit("Import");
    reveal_strlit("TickSoil");
    reveal_strlit("Check");
    if a != b && phase_name(a) == phase_name(b) {
        assert(phase_name(a).len() == phase_name(b).len());
        assert(phase_name(a)[0] == phase_name(b)[0]);
        assert(phase_name(a)[1] == phase_name(b)[1]);
        assert(phase_name(a)[4] == phase_name(b)[4]);
    }
}

} // verus!
