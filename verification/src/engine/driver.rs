//! Drivers: the measures that multiply a model's vector fields.
//!
//! Dynamics are `dY = sum_d V_d(Y, t) dmu_d` over a set of drivers: the
//! deterministic clock (`dmu = dt`), independent Wiener processes, and jump
//! processes. Fields declare which drivers move them, buffers are allocated per
//! driver, models evaluate one vector field per driver, and integrators apply
//! each through [`Driver`]'s kernels, which own the measure-correct scaling.

use vstd::prelude::*;

use crate::engine::storage::Real;
use crate::geometry::grid::{ghosted, interior_key, lemma_slab_index, slab_fits, BlockId, Grid};
use crate::geometry::index::{lemma_lin_bounds, volume};
use crate::util::rng::{
    mix_key, mix_key_spec, splitmix64, splitmix64_is_injective, splitmix64_spec, standard_normal,
    standard_normal_spec, unit_open, unit_open_spec,
};

verus! {

/// What multiplies a vector field in the dynamics.
#[derive(Debug, Clone, Copy, PartialEq, Eq, Structural)]
pub enum Driver {
    /// The deterministic clock; this vector field is scaled by `dt`.
    Time,
    /// The `j`-th independent Wiener process; this vector field is scaled by
    /// `sqrt(dt)` times a standard normal deviate drawn per cell.
    Wiener(usize),
    /// The `j`-th jump process; this vector field is the per-cell increment
    /// applied on the cells where the process fires this step. Firing is drawn
    /// per cell as `Bernoulli(1 - exp(-lambda dt))` against the model-supplied
    /// per-cell intensity lambda.
    Jump(usize),
}

impl Driver {
    /// Stream tag: the driver kind in the high bits, its index in the low bits.
    pub open spec fn tag(self) -> u64 {
        match self {
            Driver::Time => 0,
            Driver::Wiener(j) => (1u64 << 32) | (j as u64),
            Driver::Jump(j) => (2u64 << 32) | (j as u64),
        }
    }

    /// Random-stream tag of this driver.
    pub fn stream(self) -> (r: u64)
        ensures
            r == self.tag(),
    {
        match self {
            Driver::Time => 0,
            Driver::Wiener(j) => (1u64 << 32) | (j as u64),
            Driver::Jump(j) => (2u64 << 32) | (j as u64),
        }
    }

    /// Key of this driver's draws on one block in one step.
    pub open spec fn block_key(self, seed: u64, salt: u64, b: int) -> u64 {
        mix_key_spec(seed, seq![salt, self.tag(), b as u64])
    }
}

/// The index of a driver fits the low half of its stream tag.
pub open spec fn indexed(d: Driver) -> bool {
    match d {
        Driver::Time => true,
        Driver::Wiener(j) => j < 0x1_0000_0000,
        Driver::Jump(j) => j < 0x1_0000_0000,
    }
}

/// Streams of different drivers never collide.
pub proof fn streams_are_distinct(a: Driver, b: Driver)
    requires
        indexed(a),
        indexed(b),
        a.tag() == b.tag(),
    ensures
        a == b,
{
    let x: u64 = match a {
        Driver::Time => 0,
        Driver::Wiener(j) => j as u64,
        Driver::Jump(j) => j as u64,
    };
    let y: u64 = match b {
        Driver::Time => 0,
        Driver::Wiener(j) => j as u64,
        Driver::Jump(j) => j as u64,
    };
    assert(x < 0x1_0000_0000 && y < 0x1_0000_0000 ==> {
        &&& ((1u64 << 32) | x) == ((1u64 << 32) | y) ==> x == y
        &&& ((2u64 << 32) | x) == ((2u64 << 32) | y) ==> x == y
        &&& ((1u64 << 32) | x) != ((2u64 << 32) | y)
        &&& ((1u64 << 32) | x) != 0
        &&& ((2u64 << 32) | x) != 0
        &&& ((2u64 << 32) | x) != ((1u64 << 32) | y)
        &&& ((1u64 << 32) | y) != 0
        &&& ((2u64 << 32) | y) != 0
    }) by (bit_vector);
}

/// One entry after a step of the clock: an axpy.
pub open spec fn time_kick<T: Real>(x: T, v: T, dt: T) -> T {
    x.add_spec(dt.mul_spec(v))
}

/// One entry after a Wiener step: untouched where the amplitude is zero or the
/// entry is a ghost, else moved by `scale * amplitude * deviate`, the deviate a
/// function of the block's key and the cell.
pub open spec fn wiener_kick<T: Real>(
    x: T,
    v: T,
    scale: T,
    block_key: u64,
    cell: Option<int>,
) -> T {
    match cell {
        Some(c) => if v.equals_spec(T::zero_spec()) {
            x
        } else {
            x.add_spec(
                scale.mul_spec(v).mul_spec(
                    standard_normal_spec(splitmix64_spec(block_key ^ (c as u64))),
                ),
            )
        },
        None => x,
    }
}

/// The jump process fires on a cell of intensity `lambda`.
pub open spec fn fires<T: Real>(lambda: T, dt: T, block_key: u64, c: int) -> bool {
    &&& !lambda.le_spec(T::zero_spec())
    &&& unit_open_spec::<T>(splitmix64_spec(block_key ^ (c as u64))).lt_spec(
        lambda.neg_spec().mul_spec(dt).exp_m1_spec().neg_spec(),
    )
}

/// One entry after a jump step: the increment is added on cells that fire.
pub open spec fn jump_kick<T: Real>(
    x: T,
    v: T,
    dt: T,
    rate: Seq<T>,
    block_key: u64,
    cell: Option<int>,
) -> T {
    match cell {
        Some(c) => if fires(rate[c], dt, block_key, c) {
            x.add_spec(v)
        } else {
            x
        },
        None => x,
    }
}

/// A field slab after one driver's measure over a step of size `dt`.
pub open spec fn driven<T: Real>(
    driver: Driver,
    ext: Seq<int>,
    g: int,
    b: int,
    dt: T,
    seed: u64,
    salt: u64,
    rate: Seq<T>,
    amp: Seq<T>,
    x: Seq<T>,
) -> Seq<T> {
    let key = driver.block_key(seed, salt, b);
    Seq::new(
        x.len(),
        |i: int|
            match driver {
                Driver::Time => time_kick(x[i], amp[i], dt),
                Driver::Wiener(_) => wiener_kick(
                    x[i],
                    amp[i],
                    dt.sqrt_spec(),
                    key,
                    interior_key(ext, g, i),
                ),
                Driver::Jump(_) => jump_kick(
                    x[i],
                    amp[i],
                    dt,
                    rate,
                    key,
                    interior_key(ext, g, i),
                ),
            },
    )
}

/// One entry of a Wiener step.
fn wiener_entry<T: Real, G: Grid<T, D>, const D: usize>(
    grid: &G,
    block: BlockId,
    ghost: u32,
    offset: usize,
    scale: T,
    block_key: u64,
    x: T,
    v: T,
) -> (r: T)
    requires
        grid.valid(),
        block.id() < grid.blocks(),
        slab_fits(grid.extent_of(block.id()), ghost as int),
        offset < volume(ghosted(grid.extent_of(block.id()), ghost as int)),
    ensures
        r == wiener_kick(
            x,
            v,
            scale,
            block_key,
            interior_key(grid.extent_of(block.id()), ghost as int, offset as int),
        ),
{
    if v.equals(T::zero()) {
        x
    } else {
        match grid.cell_key(block, ghost, offset) {
            None => x,
            Some(cell) => {
                let key: u64 = splitmix64(block_key ^ cell);
                x.add(scale.mul(v).mul(standard_normal(key)))
            },
        }
    }
}

/// A field slab after `scale * amplitude * deviate` was added on its interior
/// cells, the deviates drawn from the stream of `block_key`.
pub open spec fn scattered<T: Real>(
    ext: Seq<int>,
    g: int,
    scale: T,
    block_key: u64,
    amp: Seq<T>,
    x: Seq<T>,
) -> Seq<T> {
    Seq::new(
        x.len(),
        |i: int| wiener_kick(x[i], amp[i], scale, block_key, interior_key(ext, g, i)),
    )
}

/// Add `scale * amplitude * deviate` on the interior cells of one slab.
pub fn scatter_field<T: Real, G: Grid<T, D>, const D: usize>(
    grid: &G,
    block: BlockId,
    ghost: u32,
    scale: T,
    block_key: u64,
    amp: &[T],
    state: &mut [T],
)
    requires
        grid.valid(),
        block.id() < grid.blocks(),
        slab_fits(grid.extent_of(block.id()), ghost as int),
        old(state)@.len() == volume(ghosted(grid.extent_of(block.id()), ghost as int)),
        amp@.len() == old(state)@.len(),
    ensures
        final(state)@ == scattered(
            grid.extent_of(block.id()),
            ghost as int,
            scale,
            block_key,
            amp@,
            old(state)@,
        ),
{
    let ghost ext = grid.extent_of(block.id());
    let ghost x0 = state@;
    let ghost want = scattered(ext, ghost as int, scale, block_key, amp@, x0);
    let n = state.len();
    let mut i: usize = 0;
    while i < n
        invariant
            i <= n,
            n == x0.len(),
            state@.len() == n,
            amp@.len() == n,
            grid.valid(),
            block.id() < grid.blocks(),
            ext == grid.extent_of(block.id()),
            slab_fits(ext, ghost as int),
            n == volume(ghosted(ext, ghost as int)),
            want == scattered(ext, ghost as int, scale, block_key, amp@, x0),
            forall|j: int| 0 <= j < i ==> #[trigger] state@[j] == want[j],
            forall|j: int| i <= j < n ==> #[trigger] state@[j] == x0[j],
        decreases n - i,
    {
        assert(state@[i as int] == x0[i as int]);
        state[i] = wiener_entry(grid, block, ghost, i, scale, block_key, state[i], amp[i]);
        i += 1;
    }
    assert(state@ =~= want);
}

/// One field a driver moves, as handed to [`DriverKind::apply_slab`].
pub struct DriverField<'a, T> {
    /// Ghost-ring width of this field.
    pub halo: u32,
    /// The driver's vector field on this block.
    pub amp: &'a [T],
    /// The state slab this driver updates in place.
    pub state: &'a mut [T],
}

/// The behavior of a driver: its measure applied across the fields it moves.
pub trait DriverKind {
    /// The driver whose measure is applied.
    spec fn as_driver(&self) -> Driver;

    /// Apply this driver's measure over one field of one block. The per-cell
    /// draw is keyed by `(seed, salt, stream, block, cell)`: it is shared
    /// across every field the driver moves and independent of ghost width.
    fn apply_field<T: Real, G: Grid<T, D>, const D: usize>(
        &self,
        grid: &G,
        block: BlockId,
        dt: T,
        seed: u64,
        salt: u64,
        rate: Option<&[T]>,
        ghost: u32,
        amp: &[T],
        state: &mut [T],
    )
        requires
            grid.valid(),
            block.id() < grid.blocks(),
            slab_fits(grid.extent_of(block.id()), ghost as int),
            old(state)@.len() == volume(ghosted(grid.extent_of(block.id()), ghost as int)),
            amp@.len() == old(state)@.len(),
            self.as_driver() is Jump ==> rate is Some && rate->0@.len() == volume(
                grid.extent_of(block.id()),
            ),
        ensures
            final(state)@ == driven(
                self.as_driver(),
                grid.extent_of(block.id()),
                ghost as int,
                block.id(),
                dt,
                seed,
                salt,
                (if rate is Some {
                    rate->0@
                } else {
                    Seq::empty()
                }),
                amp@,
                old(state)@,
            ),
    ;

    /// Apply this driver's measure over one block: for each field in `fields`,
    /// `state += dmu * amp`.
    fn apply_slab<T: Real, G: Grid<T, D>, const D: usize>(
        &self,
        grid: &G,
        block: BlockId,
        dt: T,
        seed: u64,
        salt: u64,
        rate: Option<&[T]>,
        fields: &mut [DriverField<'_, T>],
    )
        requires
            grid.valid(),
            block.id() < grid.blocks(),
            self.as_driver() is Jump ==> rate is Some && rate->0@.len() == volume(
                grid.extent_of(block.id()),
            ),
            forall|k: int|
                0 <= k < old(fields)@.len() ==> {
                    let f = #[trigger] old(fields)@[k];
                    &&& slab_fits(grid.extent_of(block.id()), f.halo as int)
                    &&& f.state@.len() == volume(
                        ghosted(grid.extent_of(block.id()), f.halo as int),
                    )
                    &&& f.amp@.len() == f.state@.len()
                },
        ensures
            final(fields)@.len() == old(fields)@.len(),
            forall|k: int|
                #![trigger final(fields)@[k]]
                0 <= k < old(fields)@.len() ==> final(fields)@[k].halo == old(fields)@[k].halo
                    && final(fields)@[k].amp@ == old(fields)@[k].amp@ && final(fields)@[k].state@
                    == driven(
                    self.as_driver(),
                    grid.extent_of(block.id()),
                    old(fields)@[k].halo as int,
                    block.id(),
                    dt,
                    seed,
                    salt,
                    (if rate is Some {
                        rate->0@
                    } else {
                        Seq::empty()
                    }),
                    old(fields)@[k].amp@,
                    old(fields)@[k].state@,
                ) && final(final(fields)@[k].state)@ == final(old(fields)@[k].state)@,
    {
        let n = fields.len();
        let ghost before = fields@;
        let mut k: usize = 0;
        while k < n
            invariant
                k <= n,
                n == before.len(),
                fields@.len() == n,
                before == old(fields)@,
                grid.valid(),
                block.id() < grid.blocks(),
                self.as_driver() is Jump ==> rate is Some && rate->0@.len() == volume(
                    grid.extent_of(block.id()),
                ),
                forall|j: int|
                    0 <= j < n ==> {
                        let f = #[trigger] before[j];
                        &&& slab_fits(grid.extent_of(block.id()), f.halo as int)
                        &&& f.state@.len() == volume(
                            ghosted(grid.extent_of(block.id()), f.halo as int),
                        )
                        &&& f.amp@.len() == f.state@.len()
                    },
                forall|j: int| k <= j < n ==> #[trigger] fields@[j] == before[j],
                forall|j: int|
                    #![trigger fields@[j]]
                    0 <= j < k ==> fields@[j].halo == before[j].halo && fields@[j].amp@
                        == before[j].amp@ && fields@[j].state@ == driven(
                        self.as_driver(),
                        grid.extent_of(block.id()),
                        before[j].halo as int,
                        block.id(),
                        dt,
                        seed,
                        salt,
                        (if rate is Some {
                            rate->0@
                        } else {
                            Seq::empty()
                        }),
                        before[j].amp@,
                        before[j].state@,
                    ) && final(fields@[j].state)@ == final(before[j].state)@,
            decreases n - k,
        {
            let halo = fields[k].halo;
            let amp = fields[k].amp;
            assert(fields@[k as int] == before[k as int]);
            self.apply_field(grid, block, dt, seed, salt, rate, halo, amp, fields[k].state);
            k += 1;
        }
    }
}

impl DriverKind for Driver {
    open spec fn as_driver(&self) -> Driver {
        *self
    }

    fn apply_field<T: Real, G: Grid<T, D>, const D: usize>(
        &self,
        grid: &G,
        block: BlockId,
        dt: T,
        seed: u64,
        salt: u64,
        rate: Option<&[T]>,
        ghost: u32,
        amp: &[T],
        state: &mut [T],
    ) {
        let ghost ext = grid.extent_of(block.id());
        let ghost g = ghost as int;
        let ghost x0 = state@;
        let ghost rates = if rate is Some {
            rate->0@
        } else {
            Seq::<T>::empty()
        };
        let ghost want = driven(*self, ext, g, block.id(), dt, seed, salt, rates, amp@, x0);
        proof {
            grid.lemma_blocks();
        }
        let parts: [u64; 3] = [salt, self.stream(), block.index() as u64];
        let block_key: u64 = mix_key(seed, &parts);
        assert(parts@ =~= seq![salt, self.tag(), block.id() as u64]);
        let scale = dt.sqrt();
        let n = state.len();
        let mut i: usize = 0;
        while i < n
            invariant
                i <= n,
                n == x0.len(),
                state@.len() == n,
                amp@.len() == n,
                grid.valid(),
                block.id() < grid.blocks(),
                ext == grid.extent_of(block.id()),
                crate::geometry::index::positive(ext),
                g == ghost,
                slab_fits(ext, g),
                n == volume(ghosted(ext, g)),
                self is Jump ==> rate is Some && rate->0@ == rates && rates.len() == volume(ext),
                block_key == self.block_key(seed, salt, block.id()),
                scale == dt.sqrt_spec(),
                want == driven(*self, ext, g, block.id(), dt, seed, salt, rates, amp@, x0),
                forall|j: int| 0 <= j < i ==> #[trigger] state@[j] == want[j],
                forall|j: int| i <= j < n ==> #[trigger] state@[j] == x0[j],
            decreases n - i,
        {
            let x = state[i];
            let v = amp[i];
            assert(x == x0[i as int]);
            let next = match *self {
                Driver::Time => x.add(dt.mul(v)),
                Driver::Wiener(_) => wiener_entry(grid, block, ghost, i, scale, block_key, x, v),
                Driver::Jump(_) => {
                    match (grid.cell_key(block, ghost, i), rate) {
                        (Some(cell), Some(rate)) => {
                            proof {
                                lemma_slab_index(i as int, ext, g);
                                lemma_lin_bounds(
                                    crate::geometry::grid::slab_index(i as int, ext, g),
                                    ext,
                                );
                                crate::geometry::grid::lemma_extent_fits(ext, g);
                            }
                            let lambda = rate[cell as usize];
                            if lambda.le(T::zero()) {
                                x
                            } else {
                                let key: u64 = splitmix64(block_key ^ cell);
                                let p = lambda.neg().mul(dt).exp_m1().neg();
                                let draw: T = unit_open(key);
                                if draw.lt(p) {
                                    x.add(v)
                                } else {
                                    x
                                }
                            }
                        },
                        _ => x,
                    }
                },
            };
            assert(next == want[i as int]);
            state[i] = next;
            i += 1;
        }
        assert(state@ =~= want);
    }
}

/// The stochastic draw of a Wiener driver is shared: two fields with the same
/// amplitude and value at a cell, whatever their ghost widths, receive the
/// same update there.
pub proof fn wiener_draws_are_shared<T: Real>(
    j: usize,
    ext: Seq<int>,
    g: int,
    h: int,
    b: int,
    dt: T,
    seed: u64,
    salt: u64,
    amp_a: Seq<T>,
    x_a: Seq<T>,
    amp_b: Seq<T>,
    x_b: Seq<T>,
    idx: Seq<int>,
)
    requires
        crate::geometry::index::in_ext(idx, ext),
        g >= 0,
        h >= 0,
        x_a.len() == volume(ghosted(ext, g)),
        x_b.len() == volume(ghosted(ext, h)),
        x_a[crate::geometry::grid::slab_at(idx, ext, g)]
            == x_b[crate::geometry::grid::slab_at(idx, ext, h)],
        amp_a[crate::geometry::grid::slab_at(idx, ext, g)]
            == amp_b[crate::geometry::grid::slab_at(idx, ext, h)],
    ensures
        driven(
            Driver::Wiener(j),
            ext,
            g,
            b,
            dt,
            seed,
            salt,
            Seq::empty(),
            amp_a,
            x_a,
        )[crate::geometry::grid::slab_at(idx, ext, g)] == driven(
            Driver::Wiener(j),
            ext,
            h,
            b,
            dt,
            seed,
            salt,
            Seq::empty(),
            amp_b,
            x_b,
        )[crate::geometry::grid::slab_at(idx, ext, h)],
{
    crate::geometry::grid::cell_ids_ignore_ghost_width(idx, ext, g);
    crate::geometry::grid::cell_ids_ignore_ghost_width(idx, ext, h);
    crate::geometry::grid::lemma_interior_in_slab(idx, ext, g);
    crate::geometry::grid::lemma_interior_in_slab(idx, ext, h);
    crate::geometry::grid::lemma_slab_at(idx, ext, g);
    crate::geometry::grid::lemma_slab_at(idx, ext, h);
}

/// Ghost entries receive no noise and no jumps.
pub proof fn ghosts_receive_no_noise<T: Real>(
    driver: Driver,
    ext: Seq<int>,
    g: int,
    b: int,
    dt: T,
    seed: u64,
    salt: u64,
    rate: Seq<T>,
    amp: Seq<T>,
    x: Seq<T>,
    i: int,
)
    requires
        driver !is Time,
        0 <= i < x.len(),
        interior_key(ext, g, i) is None,
    ensures
        driven(driver, ext, g, b, dt, seed, salt, rate, amp, x)[i] == x[i],
{
}

/// Type-level description of a model's stochastic driver set (the time driver
/// is always implicit).
pub trait DriverSet: Copy + Send + Sync + 'static {
    /// Number of stochastic drivers in the set.
    open spec fn size() -> nat {
        arbitrary()
    }

    /// The `i`-th stochastic driver.
    open spec fn member(i: int) -> Driver {
        arbitrary()
    }

    /// Number of stochastic drivers in the set.
    fn len() -> (r: usize)
        ensures
            r == Self::size(),
    ;

    /// The `i`-th stochastic driver (`i < len`).
    fn driver(i: usize) -> (r: Driver)
        requires
            i < Self::size(),
        ensures
            r == Self::member(i as int),
    ;
}

/// Driver set of a deterministic model: time only.
#[derive(Debug, Clone, Copy, Default)]
pub struct NoNoise;

impl DriverSet for NoNoise {
    open spec fn size() -> nat {
        0
    }

    open spec fn member(i: int) -> Driver {
        Driver::Time
    }

    fn len() -> (r: usize) {
        0
    }

    fn driver(i: usize) -> (r: Driver) {
        Driver::Time
    }
}

/// Driver set with `M` independent Wiener processes.
#[derive(Debug, Clone, Copy, Default)]
pub struct Wiener<const M: usize>;

impl<const M: usize> DriverSet for Wiener<M> {
    open spec fn size() -> nat {
        M as nat
    }

    open spec fn member(i: int) -> Driver {
        Driver::Wiener(i as usize)
    }

    fn len() -> (r: usize) {
        M
    }

    fn driver(i: usize) -> (r: Driver) {
        Driver::Wiener(i)
    }
}

/// Driver set with `W` independent Wiener processes and `J` jump drivers: the
/// Wiener drivers occupy indices `0..W`, the jump drivers `W..W+J`.
#[derive(Debug, Clone, Copy, Default)]
pub struct WienerJump<const W: usize, const J: usize>;

impl<const W: usize, const J: usize> DriverSet for WienerJump<W, J> {
    open spec fn size() -> nat {
        if W + J <= usize::MAX {
            (W + J) as nat
        } else {
            usize::MAX as nat
        }
    }

    open spec fn member(i: int) -> Driver {
        if i < W {
            Driver::Wiener(i as usize)
        } else {
            Driver::Jump((i - W) as usize)
        }
    }

    fn len() -> (r: usize) {
        match W.checked_add(J) {
            Some(n) => n,
            None => usize::MAX,
        }
    }

    fn driver(i: usize) -> (r: Driver) {
        if i < W {
            Driver::Wiener(i)
        } else {
            Driver::Jump(i - W)
        }
    }
}

/// The key of a block's draws, written out.
proof fn lemma_block_key(driver: Driver, seed: u64, salt: u64, b: int)
    ensures
        driver.block_key(seed, salt, b) == splitmix64_spec(
            splitmix64_spec(splitmix64_spec(splitmix64_spec(seed) ^ salt) ^ driver.tag()) ^ (
            b as u64),
        ),
{
    reveal_with_fuel(mix_key_spec, 4);
    let parts = seq![salt, driver.tag(), b as u64];
    assert(parts.drop_last() =~= seq![salt, driver.tag()]);
    assert(seq![salt, driver.tag()].drop_last() =~= seq![salt]);
    assert(seq![salt].drop_last() =~= Seq::<u64>::empty());
}

/// Every component of a key counts: keys of one kind that differ in the seed alone, in
/// the time alone, in the driver alone or in the block alone are different, so that no
/// two steps, drivers or blocks share their draws by construction.
pub proof fn keys_differ_by_every_component(
    driver: Driver,
    other: Driver,
    seed: u64,
    reseeded: u64,
    salt: u64,
    later: u64,
    b: int,
    c: int,
)
    requires
        indexed(driver),
        indexed(other),
        0 <= b <= u64::MAX,
        0 <= c <= u64::MAX,
    ensures
        driver.block_key(seed, salt, b) == driver.block_key(reseeded, salt, b) ==> seed == reseeded,
        driver.block_key(seed, salt, b) == driver.block_key(seed, later, b) ==> salt == later,
        driver.block_key(seed, salt, b) == other.block_key(seed, salt, b) ==> driver == other,
        driver.block_key(seed, salt, b) == driver.block_key(seed, salt, c) ==> b == c,
{
    lemma_block_key(driver, seed, salt, b);
    lemma_block_key(driver, reseeded, salt, b);
    lemma_block_key(driver, seed, later, b);
    lemma_block_key(other, seed, salt, b);
    lemma_block_key(driver, seed, salt, c);
    let start = splitmix64_spec(seed);
    let timed = splitmix64_spec(start ^ salt);
    let tagged = splitmix64_spec(timed ^ driver.tag());
    if driver.block_key(seed, salt, b) == driver.block_key(reseeded, salt, b) {
        let start2 = splitmix64_spec(reseeded);
        let timed2 = splitmix64_spec(start2 ^ salt);
        lemma_mixed(splitmix64_spec(timed ^ driver.tag()), splitmix64_spec(timed2 ^ driver.tag()), b as u64);
        lemma_mixed(timed, timed2, driver.tag());
        lemma_mixed(start, start2, salt);
        splitmix64_is_injective(seed, reseeded);
    }
    if driver.block_key(seed, salt, b) == driver.block_key(seed, later, b) {
        let timed2 = splitmix64_spec(start ^ later);
        lemma_mixed(tagged, splitmix64_spec(timed2 ^ driver.tag()), b as u64);
        lemma_mixed(timed, timed2, driver.tag());
        lemma_mixed_in(start, salt, later);
    }
    if driver.block_key(seed, salt, b) == other.block_key(seed, salt, b) {
        lemma_mixed(tagged, splitmix64_spec(timed ^ other.tag()), b as u64);
        lemma_mixed_in(timed, driver.tag(), other.tag());
        streams_are_distinct(driver, other);
    }
    if driver.block_key(seed, salt, b) == driver.block_key(seed, salt, c) {
        lemma_mixed_in(tagged, b as u64, c as u64);
    }
}

proof fn lemma_mixed(x: u64, y: u64, part: u64)
    ensures
        splitmix64_spec(x ^ part) == splitmix64_spec(y ^ part) ==> x == y,
{
    if splitmix64_spec(x ^ part) == splitmix64_spec(y ^ part) {
        splitmix64_is_injective(x ^ part, y ^ part);
        assert(x ^ part == y ^ part ==> x == y) by (bit_vector);
    }
}

proof fn lemma_mixed_in(word: u64, x: u64, y: u64)
    ensures
        splitmix64_spec(word ^ x) == splitmix64_spec(word ^ y) ==> x == y,
{
    if splitmix64_spec(word ^ x) == splitmix64_spec(word ^ y) {
        splitmix64_is_injective(word ^ x, word ^ y);
        assert(word ^ x == word ^ y ==> x == y) by (bit_vector);
    }
}

} // verus!
