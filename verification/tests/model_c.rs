//! Model C: physics sanity on a small dendrite, and bitwise scheduler independence
//! with the stochastic term enabled.

use legendre::discretization::finite_volume::FiniteVolume;
use legendre::engine::driver::{DriverSet, NoNoise, Wiener};
use legendre::engine::scheduler::{RayonScheduler, Scheduler, SerialScheduler};
use legendre::engine::simulation::Simulation;
use legendre::engine::storage::{Real, Scalar, SystemAllocator};
use legendre::geometry::cartesian::CartesianGrid;
use legendre::geometry::grid::{BlockId, Grid};
use legendre::geometry::view::for_each_interior;
use legendre::integrators::euler_maruyama::EulerMaruyama;
use legendre::integrators::rk4::RungeKutta4;
use legendre::physics::phasefield::{a1, a2, Grain, ModelC};

#[derive(Debug, Clone, Copy, PartialEq, PartialOrd)]
struct F(f64);

impl Scalar for F {
    fn zero() -> Self {
        F(0.0)
    }
}

impl Real for F {
    fn add(self, other: Self) -> Self {
        F(self.0 + other.0)
    }
    fn sub(self, other: Self) -> Self {
        F(self.0 - other.0)
    }
    fn mul(self, other: Self) -> Self {
        F(self.0 * other.0)
    }
    fn div(self, other: Self) -> Self {
        F(self.0 / other.0)
    }
    fn lt(self, other: Self) -> bool {
        self.0 < other.0
    }
    fn le(self, other: Self) -> bool {
        self.0 <= other.0
    }
    fn neg(self) -> Self {
        F(-self.0)
    }
    fn sqrt(self) -> Self {
        F(self.0.sqrt())
    }
    fn abs(self) -> Self {
        F(self.0.abs())
    }
    fn ln(self) -> Self {
        F(self.0.ln())
    }
    fn cos(self) -> Self {
        F(self.0.cos())
    }
    fn exp_m1(self) -> Self {
        F(self.0.exp_m1())
    }
    fn max(self, other: Self) -> Self {
        F(self.0.max(other.0))
    }
    fn min(self, other: Self) -> Self {
        F(self.0.min(other.0))
    }
    fn powi(self, n: i32) -> Self {
        F(self.0.powi(n))
    }
    fn equals(self, other: Self) -> bool {
        self.0 == other.0
    }
    fn one() -> Self {
        F(1.0)
    }
    fn tau() -> Self {
        F(std::f64::consts::TAU)
    }
    fn mul_add(self, a: Self, b: Self) -> Self {
        F(self.0.mul_add(a.0, b.0))
    }
    fn is_finite(self) -> bool {
        self.0.is_finite()
    }
    fn half() -> Self {
        F(0.5)
    }
    fn round(self) -> Self {
        F(self.0.round())
    }
    fn exp(self) -> Self {
        F(self.0.exp())
    }
    fn sin(self) -> Self {
        F(self.0.sin())
    }
    fn tanh(self) -> Self {
        F(self.0.tanh())
    }
    fn hypot(self, other: Self) -> Self {
        F(self.0.hypot(other.0))
    }
    fn total_lt(self, other: Self) -> bool {
        self.0.total_cmp(&other.0).is_lt()
    }
    fn to_bits(self) -> u64 {
        self.0.to_bits()
    }
    fn to_u64(self) -> u64 {
        self.0 as u64
    }
    fn to_i64(self) -> i64 {
        self.0 as i64
    }
    fn infinity() -> Self {
        F(f64::INFINITY)
    }
    fn largest() -> Self {
        F(f64::MAX)
    }
    fn from_i64(x: i64) -> Self {
        F(x as f64)
    }
    fn from_u64(x: u64) -> Self {
        F(x as f64)
    }
}

fn cells<const D: usize>(interior: [usize; D]) -> Vec<[isize; D]> {
    let mut out = Vec::new();
    for_each_interior(interior, &mut out);
    out
}

const N: usize = 64;
const H: f64 = 0.4;

fn square(n: usize) -> CartesianGrid<F, 2> {
    CartesianGrid::new([n, n], [n / 2, n / 2], [F(0.0), F(0.0)], [F(H), F(H)]).unwrap()
}

fn run_model_c<Sch: Scheduler>(
    scheduler: Sch,
    noise_amplitude: f64,
    steps: usize,
) -> (Vec<f64>, Vec<f64>) {
    let mut model = ModelC::<F, Wiener<1>>::classic();
    model.noise_amplitude = F(noise_amplitude);

    let mut sim = Simulation::new(
        square(N),
        FiniteVolume::default(),
        model,
        EulerMaruyama { seed: 7 },
        scheduler,
        SystemAllocator,
    );
    let dt = sim.stable_dt().unwrap();

    let (phi_h, u_h) = (sim.model().phi(), sim.model().u());
    {
        let model = sim.model().clone();
        let (grid, state) = sim.state_mut();
        model.initialize(grid, state, [F(H), F(H)], F(10.0 * H), F(0.7));
    }

    for _ in 0..steps {
        sim.step(dt);
    }

    let mut phi = Vec::new();
    let mut u = Vec::new();
    for b in 0..sim.grid().num_blocks() {
        let block = BlockId(b as u32);
        let vp = sim.state().view(sim.grid(), block, phi_h);
        let vu = sim.state().view(sim.grid(), block, u_h);
        for idx in cells(sim.grid().block_cells()) {
            phi.push(vp.get(idx).0);
            u.push(vu.get(idx).0);
        }
    }
    (phi, u)
}

#[test]
fn dendrite_grows_and_stays_physical() {
    let solid_fraction =
        |phi: &[f64]| phi.iter().filter(|&&p| p > 0.0).count() as f64 / phi.len() as f64;

    let (phi0, _) = run_model_c(SerialScheduler, 0.0, 0);
    let (phi, u) = run_model_c(SerialScheduler, 0.0, 1200);

    let (pmin, pmax) = phi
        .iter()
        .fold((f64::MAX, f64::MIN), |(lo, hi), &p| (lo.min(p), hi.max(p)));
    assert!(pmax > 0.95 && pmax < 1.1, "solid well: pmax = {pmax}");
    assert!(pmin < -0.95 && pmin > -1.1, "liquid well: pmin = {pmin}");

    let (f0, f1) = (solid_fraction(&phi0), solid_fraction(&phi));
    assert!(f1 > 1.5 * f0, "solid fraction {f0} -> {f1}: seed must grow");

    let (umin, umax) = u
        .iter()
        .fold((f64::MAX, f64::MIN), |(lo, hi), &x| (lo.min(x), hi.max(x)));
    assert!(umax > -0.4 && umax < 0.05, "latent heat release: umax = {umax}");
    assert!(umin >= -0.75, "melt no colder than initial: umin = {umin}");
}

#[test]
fn stochastic_run_is_bitwise_identical_across_schedulers() {
    let (phi_s, u_s) = run_model_c(SerialScheduler, 0.05, 300);
    let (phi_p, u_p) = run_model_c(RayonScheduler, 0.05, 300);
    assert_eq!(phi_s, phi_p, "phi must not depend on scheduling");
    assert_eq!(u_s, u_p, "u must not depend on scheduling");
}

#[test]
fn noise_changes_the_trajectory() {
    let (quiet, _) = run_model_c(SerialScheduler, 0.0, 100);
    let (noisy, _) = run_model_c(SerialScheduler, 0.05, 100);
    assert_ne!(quiet, noisy, "noise amplitude must have an effect");
}

/// Run a centered single grain and return, for each solid cell, its angle and radius
/// from the seed center.
fn run_oriented(theta0: f64, steps: usize) -> Vec<(f64, f64)> {
    const M: usize = 96;
    let model = ModelC::<F, NoNoise>::classic().with_orientations();
    let mut sim = Simulation::new(
        square(M),
        FiniteVolume::default(),
        model,
        EulerMaruyama { seed: 7 },
        RayonScheduler,
        SystemAllocator,
    );
    let dt = sim.stable_dt().unwrap();
    let center = [M as f64 * H / 2.0; 2];
    {
        let model = sim.model().clone();
        let (grid, state) = sim.state_mut();
        model.initialize_grains(
            grid,
            state,
            &[Grain {
                center: [F(center[0]), F(center[1])],
                radius: F(10.0 * H),
                orientation: F(theta0),
            }],
            F(0.7),
        );
    }
    for _ in 0..steps {
        sim.step(dt);
    }
    let phi_h = sim.model().phi();
    let mut solid = Vec::new();
    for b in 0..sim.grid().num_blocks() {
        let block = BlockId(b as u32);
        let v = sim.state().view(sim.grid(), block, phi_h);
        for idx in cells(sim.grid().block_cells()) {
            if v.get(idx).0 > 0.0 {
                let [x, y] = sim.grid().cell_center(block, idx);
                let (dx, dy) = (x.0 - center[0], y.0 - center[1]);
                solid.push((dy.atan2(dx), dx.hypot(dy)));
            }
        }
    }
    solid
}

/// Longest solid radius within a wedge of any of the given directions.
fn arm_length(solid: &[(f64, f64)], directions: &[f64], wedge: f64) -> f64 {
    solid
        .iter()
        .filter(|(ang, _)| {
            directions.iter().any(|d| {
                let mut diff = (ang - d).abs() % std::f64::consts::TAU;
                if diff > std::f64::consts::PI {
                    diff = std::f64::consts::TAU - diff;
                }
                diff < wedge
            })
        })
        .map(|&(_, r)| r)
        .fold(0.0, f64::max)
}

#[test]
fn rotated_grain_grows_along_rotated_axes() {
    let quarter = std::f64::consts::FRAC_PI_4;
    let wedge = 12f64.to_radians();
    let axes = [
        0.0,
        std::f64::consts::FRAC_PI_2,
        std::f64::consts::PI,
        -std::f64::consts::FRAC_PI_2,
    ];
    let diags = [quarter, 3.0 * quarter, -quarter, -3.0 * quarter];

    let aligned = run_oriented(0.0, 700);
    let a_axis = arm_length(&aligned, &axes, wedge);
    let a_diag = arm_length(&aligned, &diags, wedge);
    assert!(
        a_axis > 1.02 * a_diag,
        "axis-aligned grain: axis arm {a_axis:.2} vs diagonal {a_diag:.2}"
    );

    let rotated = run_oriented(quarter, 700);
    let r_axis = arm_length(&rotated, &axes, wedge);
    let r_diag = arm_length(&rotated, &diags, wedge);
    assert!(
        r_diag > 1.02 * r_axis,
        "rotated grain: diagonal arm {r_diag:.2} vs axis {r_axis:.2}"
    );
}

#[test]
fn rk4_stage_states_carry_the_orientation_field() {
    let model = ModelC::<F, NoNoise>::classic().with_orientations();
    let mut sim = Simulation::new(
        square(N),
        FiniteVolume::default(),
        model,
        RungeKutta4::default(),
        RayonScheduler,
        SystemAllocator,
    );
    let dt = sim.stable_dt().unwrap();
    {
        let model = sim.model().clone();
        let (grid, state) = sim.state_mut();
        model.initialize_grains(
            grid,
            state,
            &[Grain { center: [F(H), F(H)], radius: F(10.0 * H), orientation: F(0.5) }],
            F(0.7),
        );
    }
    for _ in 0..200 {
        sim.step(dt);
    }
    let phi_h = sim.model().phi();
    for b in 0..sim.grid().num_blocks() {
        let v = sim.state().view(sim.grid(), BlockId(b as u32), phi_h);
        for idx in cells(sim.grid().block_cells()) {
            let p = v.get(idx).0;
            assert!(p.is_finite() && p.abs() < 1.2, "phi = {p} out of bounds");
        }
    }
}

#[test]
fn zero_orientation_is_bitwise_identical_to_legacy_path() {
    let (phi_legacy, u_legacy) = run_model_c(SerialScheduler, 0.0, 300);

    let model = ModelC::<F, Wiener<1>>::classic().with_orientations();
    let mut sim = Simulation::new(
        square(N),
        FiniteVolume::default(),
        model,
        EulerMaruyama { seed: 7 },
        SerialScheduler,
        SystemAllocator,
    );
    let dt = sim.stable_dt().unwrap();
    {
        let model = sim.model().clone();
        let (grid, state) = sim.state_mut();
        model.initialize_grains(
            grid,
            state,
            &[Grain { center: [F(H), F(H)], radius: F(10.0 * H), orientation: F(0.0) }],
            F(0.7),
        );
    }
    for _ in 0..300 {
        sim.step(dt);
    }
    let (phi_h, u_h, th) =
        (sim.model().phi(), sim.model().u(), sim.model().theta0().unwrap());
    let (mut phi, mut u, mut theta_max) = (Vec::new(), Vec::new(), 0.0f64);
    for b in 0..sim.grid().num_blocks() {
        let block = BlockId(b as u32);
        let vp = sim.state().view(sim.grid(), block, phi_h);
        let vu = sim.state().view(sim.grid(), block, u_h);
        let vt = sim.state().view(sim.grid(), block, th);
        for idx in cells(sim.grid().block_cells()) {
            phi.push(vp.get(idx).0);
            u.push(vu.get(idx).0);
            theta_max = theta_max.max(vt.get(idx).0.abs());
        }
    }
    assert_eq!(phi, phi_legacy, "phi must match the axis-aligned path bitwise");
    assert_eq!(u, u_legacy, "u must match the axis-aligned path bitwise");
    assert_eq!(theta_max, 0.0, "static theta0 must remain exactly zero");
}

/// The cells of a seeded melt: order parameter, temperature and orientation.
fn seeded<Nz: DriverSet>(grains: &[Grain<F>], u0: f64) -> Vec<([F; 2], f64, f64, f64)> {
    let model = ModelC::<F, Nz>::classic().with_orientations();
    let mut sim = Simulation::new(
        square(8),
        FiniteVolume::default(),
        model,
        EulerMaruyama { seed: 7 },
        SerialScheduler,
        SystemAllocator,
    );
    let model = sim.model().clone();
    {
        let (grid, state) = sim.state_mut();
        model.initialize_grains(grid, state, grains, F(u0));
    }
    let mut out = Vec::new();
    for b in 0..sim.grid().num_blocks() {
        let block = BlockId(b as u32);
        let vp = sim.state().view(sim.grid(), block, model.phi());
        let vu = sim.state().view(sim.grid(), block, model.u());
        let vt = sim.state().view(sim.grid(), block, model.theta0().unwrap());
        for idx in cells(sim.grid().block_cells()) {
            let c = sim.grid().cell_center(block, idx);
            out.push((c, vp.get(idx).0, vu.get(idx).0, vt.get(idx).0));
        }
    }
    out
}

#[test]
fn grains_are_the_pointwise_maximum_of_their_profiles() {
    let grains = [
        Grain { center: [F(0.6), F(0.6)], radius: F(0.8), orientation: F(0.25) },
        Grain { center: [F(2.6), F(2.2)], radius: F(0.5), orientation: F(-0.5) },
    ];
    for ([x, y], phi, u, theta) in seeded::<NoNoise>(&grains, 0.7) {
        let dist = |g: &Grain<F>| (x.0 - g.center[0].0).hypot(y.0 - g.center[1].0);
        let profile = |g: &Grain<F>| ((g.radius.0 - dist(g)) / 2.0f64.sqrt()).tanh();
        let expected = profile(&grains[0]).max(profile(&grains[1]));
        assert!((phi - expected).abs() < 1e-12, "({x:?},{y:?}): {phi} vs {expected}");
        assert_eq!(u, -0.7);
        let nearest = if dist(&grains[0]) <= dist(&grains[1]) { 0.25 } else { -0.5 };
        assert_eq!(theta, nearest);
    }
}

#[test]
fn a_melt_without_grains_is_liquid_and_unoriented() {
    for (_, phi, u, theta) in seeded::<NoNoise>(&[], 0.3) {
        assert_eq!((phi, u, theta), (-1.0, -0.3, 0.0));
    }
}

#[test]
fn model_constants_follow_the_thin_interface_limit() {
    assert_eq!(a1::<F>(), F(0.8836));
    assert_eq!(a2::<F>(), F(0.6267));
    let model = ModelC::<F, NoNoise>::new(F(0.05), F(2.0), F(0.1));
    assert_eq!(model.d_thermal, F(0.6267 * 2.0));
    assert_eq!(model.a_bar, F(3.0f64.mul_add(-0.05, 1.0)));
    assert_eq!(model.eps_prime, F(3.0 * 0.05 / model.a_bar.0));
    assert_eq!(model.noise_amplitude, F(0.1));
}

/// The cells of the four blocks as rows of the whole square.
fn rows_of(blocks: &[f64]) -> Vec<Vec<f64>> {
    let half = N / 2;
    (0..N)
        .map(|y| {
            (0..N)
                .map(|x| {
                    let block = x / half + 2 * (y / half);
                    blocks[block * half * half + (y % half) * half + x % half]
                })
                .collect()
        })
        .collect()
}

/// The noiseless classic run of [`run_model_c`] written out again on plain arrays, with
/// the anisotropy and its angular derivative left to the caller.
fn plain_run(
    anisotropy: impl Fn(f64, f64) -> (f64, f64),
    steps: usize,
) -> (Vec<Vec<f64>>, Vec<Vec<f64>>) {
    let dt = {
        let sim = Simulation::new(
            square(N),
            FiniteVolume::default(),
            ModelC::<F, Wiener<1>>::classic(),
            EulerMaruyama { seed: 7 },
            SerialScheduler,
            SystemAllocator,
        );
        sim.stable_dt().unwrap().0
    };
    let (lambda, d) = (3.19, 0.6267 * 3.19);
    let (phi, u) = run_model_c(SerialScheduler, 0.0, 0);
    let (mut phi, mut u) = (rows_of(&phi), rows_of(&u));
    let at = |f: &Vec<Vec<f64>>, x: isize, y: isize| {
        let edge = |c: isize| c.clamp(0, N as isize - 1) as usize;
        f[edge(y)][edge(x)]
    };
    for _ in 0..steps {
        let (mut next_phi, mut next_u) = (phi.clone(), u.clone());
        for y in 0..N as isize {
            for x in 0..N as isize {
                let p = |i: isize, j: isize| at(&phi, x + i, y + j);
                let flux_x = |i: isize| {
                    let dx = p(i + 1, 0) - p(i, 0);
                    let dy =
                        0.25 * (p(i + 1, 1) - p(i + 1, -1) + p(i, 1) - p(i, -1));
                    let (a, da) = anisotropy(dx, dy);
                    a * (a * dx - da * dy)
                };
                let flux_y = |j: isize| {
                    let dy = p(0, j + 1) - p(0, j);
                    let dx =
                        0.25 * (p(1, j + 1) - p(-1, j + 1) + p(1, j) - p(-1, j));
                    let (a, da) = anisotropy(dx, dy);
                    a * (a * dy + da * dx)
                };
                let div = (flux_x(0) - flux_x(-1) + flux_y(0) - flux_y(-1)) / (H * H);
                let (a, _) = anisotropy(0.5 * (p(1, 0) - p(-1, 0)), 0.5 * (p(0, 1) - p(0, -1)));
                let (c, t) = (p(0, 0), at(&u, x, y));
                let well = 1.0 - c * c;
                let rate = (div + c - c * c * c - lambda * t * well * well) / (a * a);
                let lap = (at(&u, x + 1, y) + at(&u, x - 1, y) + at(&u, x, y + 1)
                    + at(&u, x, y - 1)
                    - 4.0 * t)
                    / (H * H);
                next_phi[y as usize][x as usize] = c + dt * rate;
                next_u[y as usize][x as usize] = t + dt * (d * lap + 0.5 * rate);
            }
        }
        (phi, u) = (next_phi, next_u);
    }
    (phi, u)
}

fn classic_anisotropy(dx: f64, dy: f64, deep: bool) -> (f64, f64) {
    let (a, e) = (1.0 - 3.0 * 0.06, 3.0 * 0.06 / (1.0 - 3.0 * 0.06));
    let mag2 = (dx * dx + dy * dy).powi(2);
    if mag2 <= 1e-8 {
        return (a, 0.0);
    }
    let sin4 = 4.0 * dx * dy * (dx * dx - dy * dy) / mag2;
    let cos4 = (dx.powi(4) - 6.0 * dx * dx * dy * dy + dy.powi(4)) / mag2;
    if deep {
        (a * (1.0 + e * cos4), -4.0 * a * e * sin4)
    } else {
        (a * (1.0 + e * (3.0 + cos4) / 4.0), -a * e * sin4)
    }
}

fn largest(f: &[Vec<f64>]) -> f64 {
    f.iter().flatten().copied().fold(f64::MIN, f64::max)
}

#[test]
fn dendrite_matches_the_equations_written_out() {
    let (phi, u) = run_model_c(SerialScheduler, 0.0, 1200);
    let (phi, u) = (rows_of(&phi), rows_of(&u));
    let (plain_phi, plain_u) = plain_run(|dx, dy| classic_anisotropy(dx, dy, false), 1200);
    for y in 0..N {
        for x in 0..N {
            assert!((phi[y][x] - plain_phi[y][x]).abs() < 1e-6, "phi at {x}, {y}");
            assert!((u[y][x] - plain_u[y][x]).abs() < 1e-6, "u at {x}, {y}");
        }
    }
    assert!(largest(&plain_u) < 0.05);
}

/// With the modulation four times as deep, the same run heats the melt above its melting
/// point: what `dendrite_grows_and_stays_physical` excludes.
#[test]
fn deeper_modulation_overheats_the_melt() {
    let (_, u) = plain_run(|dx, dy| classic_anisotropy(dx, dy, true), 1200);
    assert!(largest(&u) > 0.05, "umax = {}", largest(&u));
}
