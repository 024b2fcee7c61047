//! The seam mode: which void-fraction interphase drag closure the seam
//! assembles, and whether it injects one of the negative-control faults.

use vstd::prelude::*;

verus! {

/// The packed-bed interphase drag closures that a seam can assemble.
#[derive(Clone, Copy, Debug, PartialEq, Eq)]
pub enum DragClosure {
    /// MacDonald et al. (1979), the 180/1.8 re-fit: the independent measured
    /// closure that gates a validation.
    MacDonald,
    /// Ergun (1952), the 150/1.75 constants: the reported bracket and
    /// baseline, never the pass gate.
    Ergun,
}

/// Which drag closure the seam assembles, and whether to inject a fault.
/// Set by the parent per pass; a case leaves the flags it does not use at
/// their default.
#[derive(Clone, Copy, Debug, PartialEq, Eq)]
pub struct SeamMode {
    /// `true` selects the MacDonald (1979) measured closure, `false` the
    /// Ergun (1952) constants.
    pub macdonald: bool,
    /// Negative control A (fluidized beds only): drop the pressure-gradient
    /// buoyancy force.
    pub omit_pressure_grad: bool,
    /// Negative control B: the reduction bug that scales the assembled force
    /// by `1/eps`.
    pub corrupt_eps_power: bool,
}

impl Default for SeamMode {
    /// The measured closure with no fault injected.
    fn default() -> (mode: Self)
        ensures
            mode.macdonald,
            !mode.omit_pressure_grad,
            !mode.corrupt_eps_power,
    {
        SeamMode { macdonald: true, omit_pressure_grad: false, corrupt_eps_power: false }
    }
}

/// The closure that a mode names.
pub open spec fn selected_closure(mode: SeamMode) -> DragClosure {
    if mode.macdonald {
        DragClosure::MacDonald
    } else {
        DragClosure::Ergun
    }
}

/// A mode selects MacDonald exactly when its `macdonald` flag is set and
/// Ergun exactly when it is clear; two modes that agree on that flag select
/// the same closure, whatever faults either injects.
pub proof fn lemma_closure_follows_macdonald_flag(m: SeamMode, n: SeamMode)
    ensures
        (selected_closure(m) == DragClosure::MacDonald) == m.macdonald,
        (selected_closure(m) == DragClosure::Ergun) == !m.macdonald,
        m.macdonald == n.macdonald ==> selected_closure(m) == selected_closure(n),
{
}

impl SeamMode {
    /// The drag closure this mode selects: MacDonald exactly when
    /// `macdonald` is set, Ergun otherwise; the fault flags play no part.
    pub fn closure(&self) -> (closure: DragClosure)
        ensures
            closure == selected_closure(*self),
            (closure == DragClosure::MacDonald) == self.macdonald,
            (closure == DragClosure::Ergun) == !self.macdonald,
    {
        proof {
            lemma_closure_follows_macdonald_flag(*self, *self);
        }
        if self.macdonald {
            DragClosure::MacDonald
        } else {
            DragClosure::Ergun
        }
    }
}

} // verus!
