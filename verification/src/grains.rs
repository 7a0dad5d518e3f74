//! Grain growth on a square lattice: a Potts model whose cells flip to a neighbour's grain
//! when that does not raise the number of unlike neighbours, and otherwise now and then.
use vstd::prelude::*;

use rand::rngs::SmallRng;
use rand::Rng;
use rand::SeedableRng;

verus! {

/// Lattice width in cells.
pub const WIDTH: usize = 300;

/// Lattice height in cells.
pub const HEIGHT: usize = 300;

/// Number of grain orientations.
pub const GRAINS: u8 = 64;

/// Number of lattice cells.
pub open spec fn cell_count() -> int {
    WIDTH * HEIGHT
}

#[verifier::external_type_specification]
#[verifier::external_body]
pub struct ExSmallRng(SmallRng);

/// `SmallRng::from_entropy` (rand_core's `SeedableRng`): a generator seeded by the operating
/// system. Nothing is stated of its state. rand_core panics when the system gives no
/// entropy; that depends on the machine alone and is not stated either.
#[verifier::external_body]
fn small_rng_from_entropy() -> SmallRng {
    SmallRng::from_entropy()
}

/// `Rng::gen_range` on `lo..hi` for `usize`: a value of the half-open range, which rand
/// asserts is not empty.
#[verifier::external_body]
fn gen_index(rng: &mut SmallRng, lo: usize, hi: usize) -> (r: usize)
    requires
        lo < hi,
    ensures
        lo <= r < hi,
{
    rng.gen_range(lo..hi)
}

/// `Rng::gen_range` on `lo..hi` for `u8`: a value of the half-open range, which rand asserts
/// is not empty.
#[verifier::external_body]
fn gen_byte(rng: &mut SmallRng, lo: u8, hi: u8) -> (r: u8)
    requires
        lo < hi,
    ensures
        lo <= r < hi,
{
    rng.gen_range(lo..hi)
}

/// `Rng::gen_ratio`: `true` with probability `numerator / denominator`. rand panics unless
/// `0 < denominator` and `numerator <= denominator`; it returns `true` when they are equal and
/// `false` when the numerator is 0.
#[verifier::external_body]
fn gen_ratio(rng: &mut SmallRng, numerator: u32, denominator: u32) -> (r: bool)
    requires
        0 < denominator,
        numerator <= denominator,
    ensures
        numerator == denominator ==> r,
        numerator == 0 ==> !r,
{
    rng.gen_ratio(numerator, denominator)
}

/// `rand::thread_rng().gen_range(0..hi)` for `u8`: a value below `hi`, which must be positive.
#[verifier::external_body]
fn thread_gen_byte(hi: u8) -> (r: u8)
    requires
        0 < hi,
    ensures
        r < hi,
{
    rand::thread_rng().gen_range(0..hi)
}

/// Column of cell `i`.
pub open spec fn col(i: int) -> int {
    i % (WIDTH as int)
}

/// Row of cell `i`.
pub open spec fn row(i: int) -> int {
    i / (WIDTH as int)
}

/// 1 when cell `j` holds a grain other than `s`, else 0.
pub open spec fn unlike(grid: Seq<u8>, j: int, s: u8) -> int {
    if grid[j] != s {
        1
    } else {
        0
    }
}

/// Number of the (up to four) lattice neighbours of cell `i` whose grain differs from `s`;
/// the lattice does not wrap.
pub open spec fn energy(grid: Seq<u8>, i: int, s: u8) -> int {
    (if col(i) > 0 {
        unlike(grid, i - 1, s)
    } else {
        0
    }) + (if col(i) < WIDTH - 1 {
        unlike(grid, i + 1, s)
    } else {
        0
    }) + (if row(i) > 0 {
        unlike(grid, i - WIDTH, s)
    } else {
        0
    }) + (if row(i) < HEIGHT - 1 {
        unlike(grid, i + WIDTH, s)
    } else {
        0
    })
}

/// The neighbour of cell `i` in direction `d` (0 left, 1 right, 2 up, otherwise down), or `i`
/// itself at the lattice edge.
pub open spec fn neighbour(i: int, d: int) -> int {
    if d == 0 {
        if col(i) > 0 {
            i - 1
        } else {
            i
        }
    } else if d == 1 {
        if col(i) < WIDTH - 1 {
            i + 1
        } else {
            i
        }
    } else if d == 2 {
        if row(i) > 0 {
            i - WIDTH
        } else {
            i
        }
    } else if row(i) < HEIGHT - 1 {
        i + WIDTH
    } else {
        i
    }
}

/// What a proposed flip of a cell to its neighbour's grain comes to.
#[derive(Clone, Copy, PartialEq, Eq, Structural, Debug)]
pub enum Proposal {
    /// Nothing to flip: the neighbour is the cell itself or holds the same grain.
    Stay,
    /// The flip does not raise the cell's energy: it is taken.
    Accept(u8),
    /// The flip raises the cell's energy: it is taken with probability one in ten.
    Gamble(u8),
}

/// The proposal for cell `i` towards direction `d` on `grid`.
pub open spec fn spec_proposal(grid: Seq<u8>, i: int, d: int) -> Proposal {
    let n = neighbour(i, d);
    if n == i || grid[i] == grid[n] {
        Proposal::Stay
    } else if energy(grid, i, grid[n]) <= energy(grid, i, grid[i]) {
        Proposal::Accept(grid[n])
    } else {
        Proposal::Gamble(grid[n])
    }
}

/// Whether cell `j` is painted by a 5 by 5 brush at column `x`, row `y`: it lies at offset
/// `dy` rows and `dx` cells from the brush corner (running on into the next row past the
/// right edge), both below 5, and inside the lattice.
pub open spec fn in_brush(x: int, y: int, j: int) -> bool {
    let rel = j - (y * WIDTH + x);
    &&& 0 <= j < cell_count()
    &&& rel >= 0
    &&& rel / (WIDTH as int) < 5
    &&& rel % (WIDTH as int) < 5
}

/// `after` is `before` with grain `s` painted by the brush at column `x`, row `y`.
pub open spec fn painted(before: Seq<u8>, after: Seq<u8>, x: int, y: int, s: u8) -> bool {
    &&& after.len() == before.len()
    &&& forall|j: int|
        0 <= j < cell_count() ==> #[trigger] after[j] == if in_brush(x, y, j) {
            s
        } else {
            before[j]
        }
}

/// One proposal played out: cell `i` towards direction `d`, with `flip` the one-in-ten coin
/// that decides a flip raising the energy (read only then).
pub open spec fn step_result(grid: Seq<u8>, i: int, d: int, flip: bool) -> Seq<u8> {
    match spec_proposal(grid, i, d) {
        Proposal::Stay => grid,
        Proposal::Accept(s) => grid.update(i, s),
        Proposal::Gamble(s) => if flip {
            grid.update(i, s)
        } else {
            grid
        },
    }
}

/// The lattice after the proposals `draws` (cell, direction, coin), in order.
pub open spec fn swept(grid: Seq<u8>, draws: Seq<(int, int, bool)>) -> Seq<u8>
    decreases draws.len(),
{
    if draws.len() == 0 {
        grid
    } else {
        let last = draws.last();
        step_result(swept(grid, draws.drop_last()), last.0, last.1, last.2)
    }
}

/// The Metropolis rule of a step: a flip to a neighbour's different grain that does not
/// raise the cell's count of unlike neighbours is always taken, whatever the coin; one that
/// raises it is taken exactly when the coin comes up. No other cell changes.
pub proof fn lemma_step_rule(grid: Seq<u8>, i: int, d: int, flip: bool)
    requires
        grid.len() == cell_count(),
        0 <= i < cell_count(),
    ensures
        ({
            let n = neighbour(i, d);
            let after = step_result(grid, i, d, flip);
            &&& n != i && grid[n] != grid[i] && energy(grid, i, grid[n]) <= energy(grid, i, grid[i])
                ==> spec_proposal(grid, i, d) == Proposal::Accept(grid[n]) && after == grid.update(i, grid[n])
            &&& n != i && grid[n] != grid[i] && energy(grid, i, grid[n]) > energy(grid, i, grid[i])
                ==> after == if flip {
                grid.update(i, grid[n])
            } else {
                grid
            }
            &&& (n == i || grid[n] == grid[i]) ==> after == grid
            &&& after.len() == grid.len()
            &&& forall|j: int| 0 <= j < grid.len() && j != i ==> #[trigger] after[j] == grid[j]
        }),
{
}

/// Every proposal names a lattice cell and one of the four directions.
pub open spec fn draws_in_range(draws: Seq<(int, int, bool)>) -> bool {
    forall|k: int|
        0 <= k < draws.len() ==> 0 <= (#[trigger] draws[k]).0 < cell_count() && 0 <= draws[k].1 < 4
}

/// Some cell of `grid` holds grain `s`.
pub open spec fn held(grid: Seq<u8>, s: u8) -> bool {
    exists|k: int| 0 <= k < cell_count() && #[trigger] grid[k] == s
}

/// Setting cell `i` to a grain that `start` held keeps every grain of the lattice one that
/// `start` held.
proof fn lemma_flip_keeps_grains(start: Seq<u8>, before: Seq<u8>, after: Seq<u8>, i: int, s: u8)
    requires
        0 <= i < cell_count(),
        before.len() == cell_count(),
        after == before.update(i, s),
        held(start, s),
        forall|j: int| 0 <= j < cell_count() ==> held(start, #[trigger] before[j]),
    ensures
        forall|j: int| 0 <= j < cell_count() ==> held(start, #[trigger] after[j]),
{
    assert forall|j: int| 0 <= j < cell_count() implies held(start, #[trigger] after[j]) by {
        if j != i {
            assert(after[j] == before[j]);
        }
    }
}

/// A grain-growth lattice: the grain of every cell and the colour of every grain.
pub struct GrainSim {
    grid: Vec<u8>,
    colors: Vec<(u8, u8, u8)>,
}

impl GrainSim {
    /// The grain of every cell.
    pub closed spec fn cells(&self) -> Seq<u8> {
        self.grid@
    }

    /// The colour of every grain.
    pub closed spec fn palette(&self) -> Seq<(u8, u8, u8)> {
        self.colors@
    }

    /// Every cell holds a grain below `GRAINS`, and every grain has a colour.
    pub closed spec fn wf(self) -> bool {
        &&& self.grid@.len() == cell_count()
        &&& forall|j: int| 0 <= j < cell_count() ==> #[trigger] self.grid@[j] < GRAINS
        &&& self.colors@.len() == GRAINS
    }

    /// What a well-formed lattice holds: one grain below `GRAINS` per cell and one colour
    /// per grain.
    pub proof fn lemma_shape(&self)
        requires
            self.wf(),
        ensures
            self.cells().len() == cell_count(),
            forall|j: int| 0 <= j < cell_count() ==> #[trigger] self.cells()[j] < GRAINS,
            self.palette().len() == GRAINS,
    {
    }

    /// A lattice of random grains with random colours, every channel in 50..255.
    pub fn new() -> (sim: GrainSim)
        ensures
            sim.wf(),
            forall|g: int|
                0 <= g < GRAINS ==> 50 <= (#[trigger] sim.palette()[g]).0 < 255 && 50
                    <= sim.palette()[g].1 < 255 && 50 <= sim.palette()[g].2 < 255,
    {
        let mut rng = small_rng_from_entropy();
        let mut grid: Vec<u8> = Vec::new();
        let mut k: usize = 0;
        while k < WIDTH * HEIGHT
            invariant
                k <= cell_count(),
                grid@.len() == k,
                forall|j: int| 0 <= j < k ==> #[trigger] grid@[j] < GRAINS,
            decreases cell_count() - k,
        {
            let g = gen_byte(&mut rng, 0, GRAINS);
            grid.push(g);
            k += 1;
        }
        let mut colors: Vec<(u8, u8, u8)> = Vec::new();
        let mut c: u8 = 0;
        while c < GRAINS
            invariant
                c <= GRAINS,
                colors@.len() == c,
                forall|g: int|
                    0 <= g < c ==> 50 <= (#[trigger] colors@[g]).0 < 255 && 50 <= colors@[g].1 < 255
                        && 50 <= colors@[g].2 < 255,
            decreases GRAINS - c,
        {
            let red = gen_byte(&mut rng, 50, 255);
            let green = gen_byte(&mut rng, 50, 255);
            let blue = gen_byte(&mut rng, 50, 255);
            colors.push((red, green, blue));
            c += 1;
        }
        GrainSim { grid, colors }
    }

    /// Number of neighbours of cell `i` whose grain differs from `s`.
    pub fn en(&self, i: usize, s: u8) -> (e: u8)
        requires
            self.wf(),
            i < cell_count(),
        ensures
            e == energy(self.cells(), i as int, s),
    {
        let x = i % WIDTH;
        let y = i / WIDTH;
        let mut e: u8 = 0;
        if x > 0 && self.grid[i - 1] != s {
            e += 1;
        }
        if x < WIDTH - 1 && self.grid[i + 1] != s {
            e += 1;
        }
        if y > 0 && self.grid[i - WIDTH] != s {
            e += 1;
        }
        if y < HEIGHT - 1 && self.grid[i + WIDTH] != s {
            e += 1;
        }
        e
    }

    /// The proposal to flip cell `i` to the grain of its neighbour in direction `d`.
    pub fn proposal(&self, i: usize, d: usize) -> (p: Proposal)
        requires
            self.wf(),
            i < cell_count(),
        ensures
            p == spec_proposal(self.cells(), i as int, d as int),
    {
        let x = i % WIDTH;
        let y = i / WIDTH;
        let n = if d == 0 {
            if x > 0 {
                i - 1
            } else {
                i
            }
        } else if d == 1 {
            if x < WIDTH - 1 {
                i + 1
            } else {
                i
            }
        } else if d == 2 {
            if y > 0 {
                i - WIDTH
            } else {
                i
            }
        } else if y < HEIGHT - 1 {
            i + WIDTH
        } else {
            i
        };
        if i == n {
            return Proposal::Stay;
        }
        let s1 = self.grid[i];
        let s2 = self.grid[n];
        if s1 == s2 {
            return Proposal::Stay;
        }
        if self.en(i, s2) <= self.en(i, s1) {
            Proposal::Accept(s2)
        } else {
            Proposal::Gamble(s2)
        }
    }

    /// Gives cell `i` the grain `s`.
    fn set_cell(&mut self, i: usize, s: u8)
        requires
            old(self).wf(),
            i < cell_count(),
            s < GRAINS,
        ensures
            final(self).wf(),
            final(self).cells() == old(self).cells().update(i as int, s),
            final(self).palette() == old(self).palette(),
    {
        self.grid.set(i, s);
    }

    /// Plays out one proposal: cell `i` towards direction `d` (0 left, 1 right, 2 up, 3 down)
    /// takes its neighbour's grain when that does not raise its energy, and when it does, only
    /// if `flip`, the one-in-ten coin, came up.
    pub fn step(&mut self, i: usize, d: usize, flip: bool)
        requires
            old(self).wf(),
            i < cell_count(),
            d < 4,
        ensures
            final(self).wf(),
            final(self).palette() == old(self).palette(),
            final(self).cells() == step_result(old(self).cells(), i as int, d as int, flip),
    {
        match self.proposal(i, d) {
            Proposal::Stay => {},
            Proposal::Accept(s) => {
                proof {
                    assert(self.cells()[neighbour(i as int, d as int)] < GRAINS);
                }
                self.set_cell(i, s);
            },
            Proposal::Gamble(s) => {
                proof {
                    assert(self.cells()[neighbour(i as int, d as int)] < GRAINS);
                }
                if flip {
                    self.set_cell(i, s);
                }
            },
        }
    }

    /// One sweep: as many random proposals as there are cells, each a random cell and
    /// direction played out by `step`, with the one-in-ten coin drawn only for a flip that
    /// raises the energy. A flip copies a neighbour's grain, so no grain appears that the
    /// lattice did not hold before.
    pub fn update(&mut self)
        requires
            old(self).wf(),
        ensures
            final(self).wf(),
            final(self).palette() == old(self).palette(),
            forall|j: int|
                0 <= j < cell_count() ==> held(old(self).cells(), #[trigger] final(self).cells()[j]),
            exists|draws: Seq<(int, int, bool)>|
                draws.len() == cell_count() && draws_in_range(draws) && final(self).cells() == #[trigger] swept(
                    old(self).cells(),
                    draws,
                ),
    {
        let ghost start = self.cells();
        let ghost mut draws: Seq<(int, int, bool)> = Seq::empty();
        let mut rng = small_rng_from_entropy();
        let mut step: usize = 0;
        proof {
            assert forall|j: int| 0 <= j < cell_count() implies held(start, #[trigger] self.cells()[j]) by {
                assert(start[j] == self.cells()[j]);
            }
        }
        while step < WIDTH * HEIGHT
            invariant
                step <= cell_count(),
                self.wf(),
                self.palette() == old(self).palette(),
                start.len() == cell_count(),
                forall|j: int| 0 <= j < cell_count() ==> held(start, #[trigger] self.cells()[j]),
                draws.len() == step,
                draws_in_range(draws),
                self.cells() == swept(start, draws),
            decreases cell_count() - step,
        {
            let i = gen_index(&mut rng, 0, WIDTH * HEIGHT);
            let d = gen_index(&mut rng, 0, 4);
            let ghost before = self.cells();
            let flip = match self.proposal(i, d) {
                Proposal::Gamble(_) => gen_ratio(&mut rng, 1, 10),
                _ => false,
            };
            self.step(i, d, flip);
            proof {
                let n = neighbour(i as int, d as int);
                if self.cells() != before {
                    assert(before[n] < GRAINS);
                    assert(held(start, before[n]));
                    lemma_flip_keeps_grains(start, before, self.cells(), i as int, before[n]);
                }
            }
            proof {
                let next = draws.push((i as int, d as int, flip));
                assert(next.drop_last() =~= draws);
                assert(self.cells() == step_result(before, i as int, d as int, flip));
                assert forall|k: int| 0 <= k < next.len() implies 0 <= (#[trigger] next[k]).0 < cell_count()
                    && 0 <= next[k].1 < 4 by {
                    if k < draws.len() {
                        assert(next[k] == draws[k]);
                    }
                }
                draws = next;
            }
            step += 1;
        }
    }

    /// Paints grain `s` with a 5 by 5 brush whose corner is at column `x`, row `y`.
    pub fn paint(&mut self, x: usize, y: usize, s: u8)
        requires
            old(self).wf(),
            x < WIDTH,
            y < HEIGHT,
            s < GRAINS,
        ensures
            final(self).wf(),
            final(self).palette() == old(self).palette(),
            painted(old(self).cells(), final(self).cells(), x as int, y as int, s),
    {
        let ghost start = self.cells();
        let base: usize = y * WIDTH + x;
        let mut dy: usize = 0;
        while dy < 5
            invariant
                x < WIDTH,
                y < HEIGHT,
                s < GRAINS,
                base == y * WIDTH + x,
                dy <= 5,
                self.wf(),
                self.palette() == old(self).palette(),
                self.cells().len() == cell_count(),
                forall|j: int|
                    0 <= j < cell_count() ==> #[trigger] self.cells()[j] == if in_brush(
                        x as int,
                        y as int,
                        j,
                    ) && (j - base) / (WIDTH as int) < dy {
                        s
                    } else {
                        start[j]
                    },
            decreases 5 - dy,
        {
            let mut dx: usize = 0;
            while dx < 5
                invariant
                    x < WIDTH,
                    y < HEIGHT,
                    s < GRAINS,
                    base == y * WIDTH + x,
                    dy < 5,
                    dx <= 5,
                    self.wf(),
                    self.palette() == old(self).palette(),
                    self.cells().len() == cell_count(),
                    forall|j: int|
                        0 <= j < cell_count() ==> #[trigger] self.cells()[j] == if in_brush(
                            x as int,
                            y as int,
                            j,
                        ) && ((j - base) / (WIDTH as int) < dy || ((j - base) / (WIDTH as int)
                            == dy && (j - base) % (WIDTH as int) < dx)) {
                            s
                        } else {
                            start[j]
                        },
                decreases 5 - dx,
            {
                let i = (y + dy) * WIDTH + (x + dx);
                if i < WIDTH * HEIGHT {
                    let ghost before = self.cells();
                    self.set_cell(i, s);
                    proof {
                        assert(i - base == dy * WIDTH + dx);
                        assert((i - base) / (WIDTH as int) == dy && (i - base) % (WIDTH as int) == dx)
                            by (nonlinear_arith)
                            requires
                                i - base == dy * WIDTH + dx,
                                dx < 5,
                                WIDTH == 300,
                        {
                        }
                    }
                } else {
                    proof {
                        assert forall|j: int|
                            0 <= j < cell_count() && in_brush(x as int, y as int, j) implies !((j - base)
                                / (WIDTH as int) == dy && (j - base) % (WIDTH as int) == dx) by {
                            if (j - base) / (WIDTH as int) == dy && (j - base) % (WIDTH as int) == dx {
                                assert(j - base == dy * WIDTH + dx) by (nonlinear_arith)
                                    requires
                                        (j - base) / (WIDTH as int) == dy,
                                        (j - base) % (WIDTH as int) == dx,
                                        WIDTH == 300,
                                {
                                }
                            }
                        }
                    }
                }
                dx += 1;
            }
            dy += 1;
        }
    }

    /// Paints a random grain with the brush at column `x`, row `y`.
    pub fn paint_random_grain(&mut self, x: usize, y: usize)
        requires
            old(self).wf(),
            x < WIDTH,
            y < HEIGHT,
        ensures
            final(self).wf(),
            final(self).palette() == old(self).palette(),
            exists|s: u8|
                s < GRAINS && #[trigger] painted(
                    old(self).cells(),
                    final(self).cells(),
                    x as int,
                    y as int,
                    s,
                ),
    {
        let s = thread_gen_byte(GRAINS);
        self.paint(x, y, s);
    }

    /// Writes the lattice as RGBA pixels: every cell in its grain's colour, fully opaque.
    pub fn fill_pixels(&self, px: &mut Vec<u8>)
        requires
            self.wf(),
            old(px)@.len() == 4 * cell_count(),
        ensures
            final(px)@.len() == 4 * cell_count(),
            forall|i: int|
                0 <= i < cell_count() ==> {
                    let c = #[trigger] self.palette()[self.cells()[i] as int];
                    &&& final(px)@[4 * i] == c.0
                    &&& final(px)@[4 * i + 1] == c.1
                    &&& final(px)@[4 * i + 2] == c.2
                    &&& final(px)@[4 * i + 3] == 255
                },
    {
        let mut i: usize = 0;
        while i < WIDTH * HEIGHT
            invariant
                i <= cell_count(),
                px@.len() == 4 * cell_count(),
                self.grid@.len() == cell_count(),
                self.colors@.len() == GRAINS,
                forall|j: int| 0 <= j < cell_count() ==> #[trigger] self.grid@[j] < GRAINS,
                forall|q: int|
                    0 <= q < i ==> {
                        let c = #[trigger] self.colors@[self.grid@[q] as int];
                        &&& px@[4 * q] == c.0
                        &&& px@[4 * q + 1] == c.1
                        &&& px@[4 * q + 2] == c.2
                        &&& px@[4 * q + 3] == 255
                    },
            decreases cell_count() - i,
        {
            let (r, g, b) = self.colors[self.grid[i] as usize];
            let p = i * 4;
            px.set(p, r);
            px.set(p + 1, g);
            px.set(p + 2, b);
            px.set(p + 3, 255);
            proof {
                assert forall|q: int| 0 <= q < i + 1 implies {
                    let c = #[trigger] self.colors@[self.grid@[q] as int];
                    &&& px@[4 * q] == c.0
                    &&& px@[4 * q + 1] == c.1
                    &&& px@[4 * q + 2] == c.2
                    &&& px@[4 * q + 3] == 255
                } by {
                    if q < i {
                        assert(4 * q + 3 < 4 * i);
                    }
                }
            }
            i += 1;
        }
    }
}

} // verus!
