//! Verified core of the unresolved (void-fraction) DEM-CFD coupling package:
//! the mesh block of a case configuration, the seam mode and its drag-closure
//! selection, the FCC lattice enumeration behind a packed bed, the parent
//! coupling phases, and the fixed-size wire codec that routes particles to
//! their field owners and forces back to their DEM owners.

pub mod bed;
pub mod config;
pub mod drag;
pub mod routing;
pub mod seam;
