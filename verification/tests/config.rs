use dem_cfd::bed::{clamp_center_index, fcc_sites};
use dem_cfd::config::{default_ng, MeshCfg};
use dem_cfd::drag::{DragClosure, SeamMode};
use dem_cfd::seam::CouplePhase;

#[test]
fn default_ghost_width_is_two() {
    assert_eq!(default_ng(), 2);
}

#[test]
fn default_mesh_block_is_zero() {
    assert_eq!(MeshCfg::default(), MeshCfg { nx: 0, ny: 0, nz: 0, ng: 0 });
}

#[test]
fn default_seam_mode_is_measured_closure_without_faults() {
    let mode = SeamMode::default();
    assert!(mode.macdonald);
    assert!(!mode.omit_pressure_grad);
    assert!(!mode.corrupt_eps_power);
    assert_eq!(mode.closure(), DragClosure::MacDonald);
}

#[test]
fn seam_mode_selects_closure_by_flag_alone() {
    let ergun = SeamMode { macdonald: false, omit_pressure_grad: true, corrupt_eps_power: true };
    assert_eq!(ergun.closure(), DragClosure::Ergun);
    let faulty = SeamMode { macdonald: true, omit_pressure_grad: true, corrupt_eps_power: false };
    assert_eq!(faulty.closure(), DragClosure::MacDonald);
}

#[test]
fn couple_phases_run_in_schedule_order() {
    let phases = [
        CouplePhase::Export,
        CouplePhase::TickCfd,
        CouplePhase::Import,
        CouplePhase::TickSoil,
        CouplePhase::Check,
    ];
    let indices: Vec<u32> = phases.iter().map(|p| p.to_index()).collect();
    assert_eq!(indices, vec![0, 1, 2, 3, 4]);
    let names: Vec<&str> = phases.iter().map(|p| p.name()).collect();
    assert_eq!(names, vec!["Export", "TickCfd", "Import", "TickSoil", "Check"]);
}

#[test]
fn one_fcc_cell_has_four_basis_sites() {
    assert_eq!(fcc_sites([1, 1, 1]), vec![[1, 1, 1], [1, 3, 3], [3, 1, 3], [3, 3, 1]]);
}

#[test]
fn fcc_cells_run_x_slowest_z_fastest() {
    let sites = fcc_sites([2, 1, 2]);
    assert_eq!(sites.len(), 16);
    // cell (0,0,1)
    assert_eq!(sites[4], [1, 1, 5]);
    assert_eq!(sites[7], [3, 3, 5]);
    // cell (1,0,0)
    assert_eq!(sites[8], [5, 1, 1]);
    // cell (1,0,1), last basis site
    assert_eq!(sites[15], [7, 3, 5]);
}

#[test]
fn fcc_positions_scale_by_quarter_lattice() {
    let a = 0.004f64;
    let sites = fcc_sites([3, 2, 2]);
    assert_eq!(sites.len(), 48);
    let idx = ((2 * 2 + 1) * 2 + 1) * 4 + 2;
    let p: Vec<f64> = sites[idx].iter().map(|&q| (q as f64 * 0.25) * a).collect();
    assert_eq!(p, vec![(2.0 + 0.75) * a, (1.0 + 0.25) * a, (1.0 + 0.75) * a]);
}

#[test]
fn fcc_sites_are_at_least_nearest_neighbour_spacing_apart() {
    let sites = fcc_sites([2, 2, 2]);
    assert_eq!(sites.len(), 32);
    let mut min_sq = u64::MAX;
    for (n, s) in sites.iter().enumerate() {
        for t in sites.iter().skip(n + 1) {
            let d: u64 = (0..3)
                .map(|c| {
                    let diff = s[c] as i64 - t[c] as i64;
                    (diff * diff) as u64
                })
                .sum();
            assert!(d >= 8, "sites {:?} and {:?} are too close", s, t);
            min_sq = min_sq.min(d);
        }
    }
    // The spacing is attained, by the first two sites of one cell among others.
    assert_eq!(min_sq, 8);
    let first: u64 = (0..3)
        .map(|c| {
            let diff = sites[0][c] as i64 - sites[1][c] as i64;
            (diff * diff) as u64
        })
        .sum();
    assert_eq!(first, 8);
}

#[test]
fn empty_fcc_packing_has_no_sites() {
    assert!(fcc_sites([0, 4, 4]).is_empty());
    assert!(fcc_sites([4, 4, 0]).is_empty());
}

#[test]
fn center_index_is_clamped_to_the_axis() {
    assert_eq!(clamp_center_index(-3, 5), 0);
    assert_eq!(clamp_center_index(0, 5), 0);
    assert_eq!(clamp_center_index(2, 5), 2);
    assert_eq!(clamp_center_index(4, 5), 4);
    assert_eq!(clamp_center_index(9, 5), 4);
}
