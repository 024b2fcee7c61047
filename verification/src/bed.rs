//! The FCC lattice behind a packed bed: the sphere sites of `nc` conventional
//! cells, four per cell, enumerated cell by cell. Sites are given in quarters
//! of the lattice constant `a`, so the site with quarter coordinates `q` lies
//! at `q * (a / 4)`; the basis of a cell sits at `(1,1,1)`, `(1,3,3)`,
//! `(3,1,3)` and `(3,3,1)` quarters from its corner. Also the clamping that
//! places a rounded coordinate on an axis of cell centers.

use vstd::prelude::*;
use vstd::arithmetic::div_mod::{
    lemma_div_pos_is_pos, lemma_fundamental_div_mod, lemma_fundamental_div_mod_converse,
    lemma_mod_pos_bound,
};

verus! {

/// Offset, in quarters of the lattice constant, of basis site `b` (0 to 3)
/// along `axis` (0 to 2) within its conventional cell.
pub open spec fn basis_quarter(b: int, axis: int) -> int {
    if b == 0 || b == axis + 1 {
        1
    } else {
        3
    }
}

/// Quarter coordinates of basis site `b` of conventional cell `(i, j, k)`.
pub open spec fn cell_site(i: int, j: int, k: int, b: int) -> [usize; 3] {
    [
        (4 * i + basis_quarter(b, 0)) as usize,
        (4 * j + basis_quarter(b, 1)) as usize,
        (4 * k + basis_quarter(b, 2)) as usize,
    ]
}

/// Number of sites of `nc` conventional cells.
pub open spec fn site_count(nc: [usize; 3]) -> int {
    4 * nc[0] * nc[1] * nc[2]
}

/// The `n`-th site: cells run with `i` slowest and `k` fastest, and the four
/// basis sites of a cell are consecutive.
pub open spec fn fcc_site_at(nc: [usize; 3], n: int) -> [usize; 3] {
    let b = n % 4;
    let cell = n / 4;
    let k = cell % (nc[2] as int);
    let column = cell / (nc[2] as int);
    let j = column % (nc[1] as int);
    let i = column / (nc[1] as int);
    cell_site(i, j, k, b)
}

proof fn lemma_quotient_below(x: int, q: int, d: int)
    requires
        0 <= x < q * d,
        0 < d,
    ensures
        x / d < q,
{
    assert(x / d < q) by (nonlinear_arith)
        requires
            0 <= x < q * d,
            0 < d,
    ;
}

proof fn lemma_axis_below_total(a: int, b: int, c: int)
    requires
        a >= 0,
        b >= 1,
        c >= 1,
    ensures
        4 * a <= 4 * a * b * c,
        4 * a * b * c == 4 * (a * b * c),
{
    assert(4 * a <= 4 * a * b * c) by (nonlinear_arith)
        requires
            a >= 0,
            b >= 1,
            c >= 1,
    ;
    assert(4 * a * b * c == 4 * (a * b * c)) by (nonlinear_arith);
}

/// Sites of the FCC packing of `nc` conventional cells, in quarter-lattice
/// units: four per cell, cell by cell.
pub fn fcc_sites(nc: [usize; 3]) -> (sites: Vec<[usize; 3]>)
    requires
        site_count(nc) <= usize::MAX,
    ensures
        sites@.len() == site_count(nc),
        forall|n: int| 0 <= n < sites@.len() ==> #[trigger] sites@[n] == fcc_site_at(nc, n),
{
    let (nx, ny, nz) = (nc[0], nc[1], nc[2]);
    if nx == 0 || ny == 0 || nz == 0 {
        assert(site_count(nc) == 0) by (nonlinear_arith)
            requires
                nx == 0 || ny == 0 || nz == 0,
                site_count(nc) == 4 * nx * ny * nz,
        ;
        return Vec::new();
    }
    proof {
        lemma_axis_below_total(nx as int, ny as int, nz as int);
        lemma_axis_below_total(ny as int, nx as int, nz as int);
        lemma_axis_below_total(nz as int, nx as int, ny as int);
        assert(4 * ny * nx * nz == 4 * nx * ny * nz) by (nonlinear_arith);
        assert(4 * nz * nx * ny == 4 * nx * ny * nz) by (nonlinear_arith);
        assert(4 * nx * ny <= 4 * nx * ny * nz) by (nonlinear_arith)
            requires
                nx >= 1,
                ny >= 1,
                nz >= 1,
        ;
    }
    let total = 4 * nx * ny * nz;
    let mut sites: Vec<[usize; 3]> = Vec::with_capacity(total);
    let mut n: usize = 0;
    while n < total
        invariant
            nc[0] == nx && nc[1] == ny && nc[2] == nz,
            nx >= 1 && ny >= 1 && nz >= 1,
            total == site_count(nc),
            total == 4 * (nx * ny * nz),
            4 * nx <= total,
            4 * ny <= total,
            4 * nz <= total,
            n <= total,
            sites@.len() == n,
            forall|m: int| 0 <= m < n ==> #[trigger] sites@[m] == fcc_site_at(nc, m),
        decreases total - n,
    {
        let b = n % 4;
        let cell = n / 4;
        let k = cell % nz;
        let column = cell / nz;
        let j = column % ny;
        let i = column / ny;
        proof {
            assert((nx * ny * nz) == (nx * ny) * nz) by (nonlinear_arith);
            lemma_quotient_below(cell as int, (nx * ny) as int, nz as int);
            lemma_quotient_below(column as int, nx as int, ny as int);
        }
        let qx: usize = if b == 0 || b == 1 { 1 } else { 3 };
        let qy: usize = if b == 0 || b == 2 { 1 } else { 3 };
        let qz: usize = if b == 0 || b == 3 { 1 } else { 3 };
        let site = [4 * i + qx, 4 * j + qy, 4 * k + qz];
        assert(site == fcc_site_at(nc, n as int));
        sites.push(site);
        n = n + 1;
    }
    sites
}

/// Basis site `b` of conventional cell `(i, j, k)` is site number
/// `((i * ny + j) * nz + k) * 4 + b`: cells run with `i` slowest and `k`
/// fastest, four consecutive sites per cell.
pub proof fn lemma_fcc_cell_order(nc: [usize; 3], i: int, j: int, k: int, b: int)
    requires
        0 <= i < nc[0],
        0 <= j < nc[1],
        0 <= k < nc[2],
        0 <= b < 4,
    ensures
        0 <= ((i * nc[1] + j) * nc[2] + k) * 4 + b < site_count(nc),
        fcc_site_at(nc, ((i * nc[1] + j) * nc[2] + k) * 4 + b) == cell_site(i, j, k, b),
{
    let (nx, ny, nz) = (nc[0] as int, nc[1] as int, nc[2] as int);
    let column = i * ny + j;
    let cell = column * nz + k;
    let n = cell * 4 + b;
    assert(0 <= column) by (nonlinear_arith)
        requires
            0 <= i,
            0 <= j,
            0 <= ny,
            column == i * ny + j,
    ;
    assert(0 <= cell) by (nonlinear_arith)
        requires
            0 <= column,
            0 <= k,
            0 <= nz,
            cell == column * nz + k,
    ;
    assert(column < nx * ny) by (nonlinear_arith)
        requires
            0 <= i < nx,
            0 <= j < ny,
            column == i * ny + j,
    ;
    assert(cell < nx * ny * nz) by (nonlinear_arith)
        requires
            0 <= column < nx * ny,
            0 <= k < nz,
            cell == column * nz + k,
    ;
    assert(n < 4 * nx * ny * nz) by (nonlinear_arith)
        requires
            0 <= cell < nx * ny * nz,
            0 <= b < 4,
            n == cell * 4 + b,
    ;
    lemma_fundamental_div_mod_converse(n, 4, cell, b);
    lemma_fundamental_div_mod_converse(cell, nz, column, k);
    lemma_fundamental_div_mod_converse(column, ny, i, j);
}

/// Squared distance between two sites, in squared quarters of the lattice
/// constant.
pub open spec fn quarter_distance_sq(s: [usize; 3], t: [usize; 3]) -> int {
    (s[0] - t[0]) * (s[0] - t[0]) + (s[1] - t[1]) * (s[1] - t[1]) + (s[2] - t[2]) * (s[2] - t[2])
}

/// Site number `n` is basis site `b` of conventional cell `(i, j, k)`, returned
/// as `(i, j, k, b)`, and lies at `4 * (i, j, k)` plus its basis offset.
proof fn lemma_site_parts(nc: [usize; 3], n: int) -> (parts: (int, int, int, int))
    requires
        site_count(nc) <= usize::MAX,
        0 <= n < site_count(nc),
    ensures
        0 <= parts.0 < nc[0],
        0 <= parts.1 < nc[1],
        0 <= parts.2 < nc[2],
        0 <= parts.3 < 4,
        n == ((parts.0 * nc[1] + parts.1) * nc[2] + parts.2) * 4 + parts.3,
        fcc_site_at(nc, n)[0] as int == 4 * parts.0 + basis_quarter(parts.3, 0),
        fcc_site_at(nc, n)[1] as int == 4 * parts.1 + basis_quarter(parts.3, 1),
        fcc_site_at(nc, n)[2] as int == 4 * parts.2 + basis_quarter(parts.3, 2),
{
    let (nx, ny, nz) = (nc[0] as int, nc[1] as int, nc[2] as int);
    assert(nx >= 1 && ny >= 1 && nz >= 1) by (nonlinear_arith)
        requires
            0 <= n < 4 * nx * ny * nz,
            nx >= 0,
            ny >= 0,
            nz >= 0,
    ;
    lemma_axis_below_total(nx, ny, nz);
    lemma_axis_below_total(ny, nx, nz);
    lemma_axis_below_total(nz, nx, ny);
    assert(4 * ny * nx * nz == 4 * nx * ny * nz) by (nonlinear_arith);
    assert(4 * nz * nx * ny == 4 * nx * ny * nz) by (nonlinear_arith);
    let b = n % 4;
    let cell = n / 4;
    lemma_fundamental_div_mod(n, 4);
    assert(nx * ny * nz == (nx * ny) * nz) by (nonlinear_arith);
    assert(0 <= cell < (nx * ny) * nz);
    let k = cell % nz;
    let column = cell / nz;
    lemma_mod_pos_bound(cell, nz);
    lemma_div_pos_is_pos(cell, nz);
    lemma_fundamental_div_mod(cell, nz);
    lemma_quotient_below(cell, nx * ny, nz);
    let j = column % ny;
    let i = column / ny;
    lemma_mod_pos_bound(column, ny);
    lemma_div_pos_is_pos(column, ny);
    lemma_fundamental_div_mod(column, ny);
    lemma_quotient_below(column, nx, ny);
    assert(cell == column * nz + k) by (nonlinear_arith)
        requires
            cell == nz * column + k,
    ;
    assert(column == i * ny + j) by (nonlinear_arith)
        requires
            column == ny * i + j,
    ;
    (i, j, k, b)
}

/// Distinct sites of an FCC packing lie at least `sqrt(8)` quarters of the
/// lattice constant, that is `a / sqrt(2)`, apart: no two spheres share a
/// center, and none is nearer than the nearest-neighbour spacing.
pub proof fn lemma_fcc_spacing(nc: [usize; 3], n: int, m: int)
    requires
        site_count(nc) <= usize::MAX,
        0 <= n < site_count(nc),
        0 <= m < site_count(nc),
        n != m,
    ensures
        quarter_distance_sq(fcc_site_at(nc, n), fcc_site_at(nc, m)) >= 8,
{
    let (i, j, k, b) = lemma_site_parts(nc, n);
    let (i2, j2, k2, b2) = lemma_site_parts(nc, m);
    let s = fcc_site_at(nc, n);
    let t = fcc_site_at(nc, m);
    let dx = s[0] - t[0];
    let dy = s[1] - t[1];
    let dz = s[2] - t[2];
    if quarter_distance_sq(s, t) < 8 {
        assert(-3 < dx < 3 && -3 < dy < 3 && -3 < dz < 3) by (nonlinear_arith)
            requires
                dx * dx + dy * dy + dz * dz < 8,
        ;
        assert(b == 0 || b == 1 || b == 2 || b == 3);
        assert(b2 == 0 || b2 == 1 || b2 == 2 || b2 == 3);
        // Every coordinate is odd, so every difference is even: -2, 0 or 2.
        assert(dx == -2 || dx == 0 || dx == 2);
        assert(dy == -2 || dy == 0 || dy == 2);
        assert(dz == -2 || dz == 0 || dz == 2);
        // A difference of 2 flips the residue of that coordinate between 1
        // and 3, while every basis site has an even number of 3 residues; so
        // an odd number of nonzero differences is impossible, and with at
        // most one (the distance being below 8) all are zero.
        assert(dx * dx == (if dx == 0 { 0int } else { 4int })) by (nonlinear_arith)
            requires
                dx == -2 || dx == 0 || dx == 2,
        ;
        assert(dy * dy == (if dy == 0 { 0int } else { 4int })) by (nonlinear_arith)
            requires
                dy == -2 || dy == 0 || dy == 2,
        ;
        assert(dz * dz == (if dz == 0 { 0int } else { 4int })) by (nonlinear_arith)
            requires
                dz == -2 || dz == 0 || dz == 2,
        ;
        if dx != 0 {
            assert(basis_quarter(b, 1) == basis_quarter(b2, 1));
            assert(basis_quarter(b, 2) == basis_quarter(b2, 2));
            assert(basis_quarter(b, 0) != basis_quarter(b2, 0));
        }
        if dy != 0 {
            assert(basis_quarter(b, 0) == basis_quarter(b2, 0));
            assert(basis_quarter(b, 2) == basis_quarter(b2, 2));
            assert(basis_quarter(b, 1) != basis_quarter(b2, 1));
        }
        if dz != 0 {
            assert(basis_quarter(b, 0) == basis_quarter(b2, 0));
            assert(basis_quarter(b, 1) == basis_quarter(b2, 1));
            assert(basis_quarter(b, 2) != basis_quarter(b2, 2));
        }
        assert(dx == 0 && dy == 0 && dz == 0);
        assert(i == i2 && j == j2 && k == k2 && b == b2);
        assert(false);
    }
}

/// The spacing is attained: in any packing with a cell, the first two sites
/// lie exactly `sqrt(8)` quarters of the lattice constant apart.
pub proof fn lemma_fcc_spacing_attained(nc: [usize; 3])
    requires
        0 < site_count(nc),
    ensures
        quarter_distance_sq(fcc_site_at(nc, 0), fcc_site_at(nc, 1)) == 8,
{
    let (nx, ny, nz) = (nc[0] as int, nc[1] as int, nc[2] as int);
    assert(nx >= 1 && ny >= 1 && nz >= 1) by (nonlinear_arith)
        requires
            0 < 4 * nx * ny * nz,
            nx >= 0,
            ny >= 0,
            nz >= 0,
    ;
    lemma_fcc_cell_order(nc, 0, 0, 0, 0);
    lemma_fcc_cell_order(nc, 0, 0, 0, 1);
    assert(((0 * nc[1] + 0) * nc[2] + 0) * 4 + 1 == 1) by (nonlinear_arith);
    assert(((0 * nc[1] + 0) * nc[2] + 0) * 4 + 0 == 0) by (nonlinear_arith);
    let s = fcc_site_at(nc, 0);
    let t = fcc_site_at(nc, 1);
    assert(s == cell_site(0, 0, 0, 0));
    assert(t == cell_site(0, 0, 0, 1));
    assert(s[0] == 1 && s[1] == 1 && s[2] == 1);
    assert(t[0] == 1 && t[1] == 3 && t[2] == 3);
    assert(quarter_distance_sq(s, t) == 8) by (nonlinear_arith)
        requires
            s[0] == 1 && s[1] == 1 && s[2] == 1,
            t[0] == 1 && t[1] == 3 && t[2] == 3,
    ;
}

/// Index of the cell center nearest to a coordinate along an axis of `len`
/// uniformly spaced centers, given the coordinate's offset from the first
/// center rounded to whole spacings: the offset clamped to the axis.
pub fn clamp_center_index(steps: isize, len: usize) -> (index: usize)
    requires
        2 <= len <= isize::MAX,
    ensures
        index == (if steps < 0 {
            0
        } else if steps >= len - 1 {
            len - 1
        } else {
            steps as int
        }),
{
    let last = len as isize - 1;
    if steps < 0 {
        0
    } else if steps >= last {
        last as usize
    } else {
        steps as usize
    }
}

} // verus!
