use fluid2d::{Array2DF, BoundaryKind, Fluid2D, ONE, advect, diffuse, lin_solve, project, set_bnd};

/// With no sources injected, every field stays all-zero after several steps.
#[test]
fn all_zero_input_stays_zero() {
    let mut f = Fluid2D::new(16, ONE / 1000, 168, 17);
    for _ in 0..5 {
        f.step(4);
    }
    assert!(f.within(0));
}

/// With a zero timestep the relaxation solver copies the source's interior.
#[test]
fn diffusion_identity_at_zero_dt() {
    let n = 8;
    let mut x = Array2DF::new(n, n);
    let mut x0 = Array2DF::new(n, n);
    for i in 0..n {
        for j in 0..n {
            x0.set(i, j, ((i * 10 + j) as i64) * ONE);
            x.set(i, j, -7 * ONE);
        }
    }
    diffuse(BoundaryKind::Density, &mut x, &x0, 168, 0, 3, n);
    for i in 1..n - 1 {
        for j in 1..n - 1 {
            assert_eq!(x.get(i, j), x0.get(i, j));
        }
    }
}

fn total_divergence(vx: &Array2DF, vy: &Array2DF, n: usize) -> i64 {
    let mut total: i64 = 0;
    for i in 1..n - 1 {
        for j in 1..n - 1 {
            let d = (vx.get(i + 1, j) - vx.get(i - 1, j)) + (vy.get(i, j + 1) - vy.get(i, j - 1));
            total += d.abs();
        }
    }
    total
}

fn blob_velocities(n: usize) -> (Array2DF, Array2DF) {
    let mut vx = Array2DF::new(n, n);
    let mut vy = Array2DF::new(n, n);
    for i in 6..10 {
        for j in 6..10 {
            vx.set(i, j, 16 * ONE);
            vy.set(i, j, -8 * ONE);
        }
    }
    (vx, vy)
}

/// The divergence left after projection tightens as the relaxation
/// iteration count increases.
#[test]
fn projection_reduces_divergence() {
    let n = 16;
    let (mut vx1, mut vy1) = blob_velocities(n);
    let mut p1 = Array2DF::new(n, n);
    let mut d1 = Array2DF::new(n, n);
    project(&mut vx1, &mut vy1, &mut p1, &mut d1, 1, n);
    let after1 = total_divergence(&vx1, &vy1, n);

    let (mut vx2, mut vy2) = blob_velocities(n);
    let mut p2 = Array2DF::new(n, n);
    let mut d2 = Array2DF::new(n, n);
    project(&mut vx2, &mut vy2, &mut p2, &mut d2, 20, n);
    let after20 = total_divergence(&vx2, &vy2, n);

    let (mut vx3, mut vy3) = blob_velocities(n);
    let mut p3 = Array2DF::new(n, n);
    let mut d3 = Array2DF::new(n, n);
    project(&mut vx3, &mut vy3, &mut p3, &mut d3, 80, n);
    let after80 = total_divergence(&vx3, &vy3, n);

    let (vx0, vy0) = blob_velocities(n);
    let before = total_divergence(&vx0, &vy0, n);
    assert!(after1 < before);
    assert!(after20 < after1);
    assert!(after80 <= after20);
}

/// After the horizontal-velocity wall pass the left and right wall cells
/// negate their interior neighbours; the scalar kind copies them unchanged.
#[test]
fn boundary_mirroring() {
    let n = 8;
    let mut vx = Array2DF::new(n, n);
    let mut de = Array2DF::new(n, n);
    for i in 0..n {
        for j in 0..n {
            let v = ((i * 3 + j * 5) as i64) * ONE - 40 * ONE;
            vx.set(i, j, v);
            de.set(i, j, v);
        }
    }
    set_bnd(BoundaryKind::VelocityX, &mut vx);
    set_bnd(BoundaryKind::Density, &mut de);
    for j in 1..n - 1 {
        assert_eq!(vx.get(0, j), -vx.get(1, j));
        assert_eq!(vx.get(n - 1, j), -vx.get(n - 2, j));
        assert_eq!(de.get(0, j), de.get(1, j));
        assert_eq!(de.get(n - 1, j), de.get(n - 2, j));
    }
}

/// An advected interior value lies between the least and greatest of its four
/// sampled source cells, up to four ticks of downward rounding.
#[test]
fn interpolation_boundedness() {
    let n = 8;
    let mut d = Array2DF::new(n, n);
    let mut d0 = Array2DF::new(n, n);
    let mut vx = Array2DF::new(n, n);
    let mut vy = Array2DF::new(n, n);
    for i in 0..n {
        for j in 0..n {
            d0.set(i, j, ((i * 13 + j * 7) as i64) * ONE);
        }
    }
    // A uniform drift of a quarter cell per unit time; dt spans the grid
    // scale, so the trace lands between cells.
    for i in 0..n {
        for j in 0..n {
            vx.set(i, j, ONE / 4);
            vy.set(i, j, ONE / 8);
        }
    }
    advect(BoundaryKind::Density, &mut d, &d0, &vx, &vy, ONE);
    // Recompute each source window and check the bound.
    let dtx = n as i64 - 2; // dt is ONE, a whole unit, so the trace scale is n-2
    for i in 1..n - 1 {
        for j in 1..n - 1 {
            // source coordinate in ticks
            let mut x = (i as i64) * ONE - dtx * (ONE / 4);
            let mut y = (j as i64) * ONE - dtx * (ONE / 8);
            let lo = ONE / 2;
            let hi = (n as i64 - 2) * ONE + ONE / 2;
            if x < lo {
                x = lo;
            }
            if x > hi {
                x = hi;
            }
            if y < lo {
                y = lo;
            }
            if y > hi {
                y = hi;
            }
            let i0 = (x / ONE) as usize;
            let j0 = (y / ONE) as usize;
            let mut mn = i64::MAX;
            let mut mx = i64::MIN;
            for (a, b) in [(i0, j0), (i0, j0 + 1), (i0 + 1, j0), (i0 + 1, j0 + 1)] {
                let v = d0.get(a, b);
                mn = mn.min(v);
                mx = mx.max(v);
            }
            let got = d.get(i, j);
            assert!(got <= mx);
            assert!(got >= mn - 4);
        }
    }
}

/// End to end: one injection and one step diffuse the peak strictly below its
/// injected value while the far corner stays exactly zero.
#[test]
fn end_to_end_single_step() {
    // dt = 0.001, diffusion rate = 0.00001, viscosity = 0.000001, in ticks.
    let mut f = Fluid2D::new(128, 16777, 168, 17);
    f.add_density(64, 64, 2, 100 * ONE);
    assert_eq!(f.density.get(64, 64), 100 * ONE);
    f.step(1);
    let peak = f.density.get(64, 64);
    let corner = f.density.get(0, 0);
    assert!(peak < 100 * ONE);
    assert_eq!(corner, 0);
    assert!(peak > corner);
}

/// With zero iterations the relaxation solver leaves its target untouched;
/// the diffusion operator still fires the boundary enforcer once.
#[test]
fn zero_iteration_relaxation() {
    let n = 8;
    let mut x = Array2DF::new(n, n);
    let mut x0 = Array2DF::new(n, n);
    let mut expect_raw = Array2DF::new(n, n);
    for i in 0..n {
        for j in 0..n {
            let v = ((i * 2 + j) as i64) * ONE;
            x.set(i, j, v);
            expect_raw.set(i, j, v);
            x0.set(i, j, 55 * ONE);
        }
    }
    lin_solve(BoundaryKind::Density, &mut x, &x0, 0, ONE, 0, n);
    for i in 0..n {
        for j in 0..n {
            assert_eq!(x.get(i, j), expect_raw.get(i, j));
        }
    }
    // diffuse with zero iterations applies exactly one boundary pass
    let mut y = Array2DF::new(n, n);
    for i in 0..n {
        for j in 0..n {
            y.set(i, j, expect_raw.get(i, j));
        }
    }
    diffuse(BoundaryKind::Density, &mut y, &x0, 168, 16777, 0, n);
    set_bnd(BoundaryKind::Density, &mut expect_raw);
    for i in 0..n {
        for j in 0..n {
            assert_eq!(y.get(i, j), expect_raw.get(i, j));
        }
    }
}

/// The circular injector adds to exactly the cells within the radius, with
/// the box clamped at the grid edge.
#[test]
fn injection_region() {
    let mut f = Fluid2D::new(16, 0, 0, 0);
    f.add_density(8, 8, 2, 10 * ONE);
    // centre and four-neighbours inside the disk
    assert_eq!(f.density.get(8, 8), 10 * ONE);
    assert_eq!(f.density.get(6, 8), 10 * ONE);
    assert_eq!(f.density.get(8, 6), 10 * ONE);
    assert_eq!(f.density.get(9, 9), 10 * ONE);
    // the box is half-open: (10, 8) sits outside it though at distance 2
    assert_eq!(f.density.get(10, 8), 0);
    // corner of the bounding box is farther than the radius
    assert_eq!(f.density.get(6, 6), 0);
    // clamped at the wall: no wraparound when the radius exceeds the position
    f.add_density(1, 1, 2, 5 * ONE);
    assert_eq!(f.density.get(0, 0), 5 * ONE);
    assert_eq!(f.density.get(2, 2), 5 * ONE);
    assert_eq!(f.density.get(3, 1), 0);
}

/// The velocity injector feeds both velocity grids.
#[test]
fn velocity_injection() {
    let mut f = Fluid2D::new(16, 0, 0, 0);
    f.add_velocity(8, 8, 1, 3 * ONE, -2 * ONE);
    assert_eq!(f.vx.get(8, 8), 3 * ONE);
    assert_eq!(f.vy.get(8, 8), -2 * ONE);
    assert_eq!(f.vx.get(7, 8), 3 * ONE);
    assert_eq!(f.vx.get(6, 8), 0);
}

/// A fresh state is all-zero and reports itself within every bound.
#[test]
fn fresh_state_is_zero() {
    let f = Fluid2D::new(8, 100, 10, 1);
    assert!(f.within(0));
    assert_eq!(f.size, 8);
    assert_eq!(f.dt, 100);
    assert_eq!(f.diff, 10);
    assert_eq!(f.visc, 1);
}

/// Fixed-point helpers round toward negative infinity.
#[test]
fn fixed_point_rounding() {
    assert_eq!(fluid2d::fixed::floor_div_i128(7, 2), 3);
    assert_eq!(fluid2d::fixed::floor_div_i128(-7, 2), -4);
    assert_eq!(fluid2d::fixed::floor_div_i128(-8, 2), -4);
    assert_eq!(fluid2d::fixed::avg_floor(-3, 2), -1);
    assert_eq!(fluid2d::fixed::avg_floor(3, 5), 4);
    assert_eq!(fluid2d::fixed::fx_mul(ONE / 2, 10 * ONE), 5 * ONE);
    assert_eq!(fluid2d::fixed::fx_mul(-ONE / 2, 10 * ONE), -5 * ONE);
    assert_eq!(fluid2d::fixed::fx_div(10 * ONE, 4 * ONE), (10 * ONE) / 4);
}

/// Grid cells read back what was written, and a fresh grid is zero-filled.
#[test]
fn grid_read_write() {
    let mut g = Array2DF::new(5, 5);
    for i in 0..5 {
        for j in 0..5 {
            assert_eq!(g.get(i, j), 0);
        }
    }
    g.set(2, 3, 42);
    assert_eq!(g.get(2, 3), 42);
    assert_eq!(g.get(3, 2), 0);
    assert!(g.bounded(42));
    assert!(!g.bounded(41));
}
