//! The rules of the foundry game: breeding turns, falling pieces, locking them into the
//! lattice and judging each phase.
use vstd::prelude::*;

use crate::flow::{
    analysis_of, analyze, in_flood, named, passable, count_true, highest_tier, marked_hits, outlet_sum_fits, probe_outcome,
    x_sum, Simulation,
};
use crate::levels::{
    board_len, campaign, index, initial_board, levels, on_board, piece_cells, spec_index,
    spec_initial_cell, spec_palette_index, spec_piece_cells, ActivePiece, Candidate, Cell,
    LevelSpec, ObjectiveKind, PieceKind, BOARD_H, BOARD_W,
};

verus! {

/// Where a phase of the game stands.
#[derive(Clone, Copy, PartialEq, Eq, Structural, Debug)]
pub enum Phase {
    AwaitBreed,
    AwaitPick,
    Falling,
    Won,
    Lost,
    CampaignWon,
}

/// Board point of cell `k` of a piece.
pub open spec fn piece_point(p: ActivePiece, k: int) -> (int, int) {
    let c = spec_piece_cells(p.kind, p.rotation)[k];
    (p.x + c.0, p.y + c.1)
}

/// Cell `k` of the piece leaves the well or lands on something that blocks it. Points above
/// the top row are free.
pub open spec fn cell_blocked(board: Seq<Cell>, p: ActivePiece, k: int) -> bool {
    let (x, y) = piece_point(p, k);
    x < 0 || x >= BOARD_W || y >= BOARD_H || (y >= 0 && !(board[y * BOARD_W + x] is Matrix))
}

/// The piece collides: some cell of it is blocked.
pub open spec fn spec_collides(board: Seq<Cell>, p: ActivePiece) -> bool {
    exists|k: int| 0 <= k < spec_piece_cells(p.kind, p.rotation).len() && #[trigger] cell_blocked(board, p, k)
}

/// A piece frame stays near the board, so no coordinate arithmetic on it overflows.
pub open spec fn frame_in_range(p: ActivePiece) -> bool {
    -8 <= p.x <= 16 && p.y <= 20
}

/// Every piece has a cell in its frame's left column.
proof fn lemma_piece_touches_left(kind: PieceKind, rotation: usize)
    ensures
        exists|k: int|
            0 <= k < spec_piece_cells(kind, rotation).len() && #[trigger] spec_piece_cells(
                kind,
                rotation,
            )[k].0 == 0,
        forall|k: int|
            0 <= k < spec_piece_cells(kind, rotation).len() ==> 0 <= #[trigger] spec_piece_cells(
                kind,
                rotation,
            )[k].0 <= 3 && 0 <= spec_piece_cells(kind, rotation)[k].1 <= 3,
        4 <= spec_piece_cells(kind, rotation).len() <= 5,
{
    let s = spec_piece_cells(kind, rotation);
    if s[0].0 == 0 {
        assert(s[0].0 == 0);
    } else if s[1].0 == 0 {
        assert(s[1].0 == 0);
    } else if s[2].0 == 0 {
        assert(s[2].0 == 0);
    } else {
        assert(s[3].0 == 0);
    }
}


/// The board cells that the piece covers.
pub open spec fn covers(p: ActivePiece, i: int) -> bool {
    exists|k: int|
        0 <= k < spec_piece_cells(p.kind, p.rotation).len() && #[trigger] spec_index(
            piece_point(p, k).0,
            piece_point(p, k).1,
        ) == Some(i as usize)
}

/// A phase that the game can play: its vents can be averaged and a probe objective names
/// one of the three probe tiers.
pub open spec fn level_ok(level: LevelSpec) -> bool {
    &&& outlet_sum_fits(level.outlets@)
    &&& level.objective_kind matches ObjectiveKind::ProbeToVent { tier } ==> 1 <= tier <= 3
}

fn one_row_down(p: ActivePiece) -> (r: ActivePiece)
    requires
        frame_in_range(p),
    ensures
        r == shifted(p, 0, 1),
{
    ActivePiece { y: p.y + 1, ..p }
}

/// A placed piece lies inside the well: its frame starts in columns 0..=9 and above row 16.
proof fn lemma_placed_in_range(board: Seq<Cell>, p: ActivePiece)
    requires
        !spec_collides(board, p),
    ensures
        0 <= p.x <= 9,
        p.y <= 15,
{
    lemma_piece_touches_left(p.kind, p.rotation);
    let s = spec_piece_cells(p.kind, p.rotation);
    let k = choose|k: int| 0 <= k < s.len() && #[trigger] s[k].0 == 0;
    assert(!cell_blocked(board, p, k));
    assert(!cell_blocked(board, p, 0));
}

/// The piece moved by (dx, dy).
pub open spec fn shifted(p: ActivePiece, dx: int, dy: int) -> ActivePiece {
    ActivePiece { kind: p.kind, rotation: p.rotation, x: (p.x + dx) as i32, y: (p.y + dy) as i32 }
}

/// Where the piece comes to rest when it falls straight down.
pub open spec fn landing(board: Seq<Cell>, p: ActivePiece) -> ActivePiece
    decreases 16 - p.y,
{
    if p.y >= 16 || spec_collides(board, shifted(p, 0, 1)) {
        p
    } else {
        landing(board, shifted(p, 0, 1))
    }
}

/// The board after the piece is painted into it as channel cells of its palette slot.
pub open spec fn painted(board: Seq<Cell>, p: ActivePiece) -> Seq<Cell> {
    Seq::new(
        board.len(),
        |i: int|
            if covers(p, i) {
                Cell::Channel(spec_palette_index(p.kind))
            } else {
                board[i]
            },
    )
}

/// The horizontal kicks tried, in order, when a rotation does not fit.
pub open spec fn kick(i: int) -> int {
    if i == 0 {
        0
    } else if i == 1 {
        -1
    } else if i == 2 {
        1
    } else if i == 3 {
        -2
    } else {
        2
    }
}

/// The first kicked placement of the rotated piece, from kick `i` on, that does not collide.
pub open spec fn first_free_kick(board: Seq<Cell>, rotated: ActivePiece, i: int) -> Option<ActivePiece>
    decreases 5 - i,
{
    if i >= 5 || i < 0 {
        None
    } else if !spec_collides(board, shifted(rotated, kick(i), 0)) {
        Some(shifted(rotated, kick(i), 0))
    } else {
        first_free_kick(board, rotated, i + 1)
    }
}

/// Widest column offset of the piece's cells.
pub open spec fn max_dx(cells: Seq<(i32, i32)>) -> int
    decreases cells.len(),
{
    if cells.len() == 0 {
        0
    } else if cells.last().0 > max_dx(cells.drop_last()) {
        cells.last().0 as int
    } else {
        max_dx(cells.drop_last())
    }
}

/// The column that centres a piece of the given habit and rotation in the well.
pub open spec fn spec_spawn_x(kind: PieceKind, rotation: usize) -> int {
    let w = (BOARD_W as int - (max_dx(spec_piece_cells(kind, rotation)) + 1)) / 2;
    if w < 0 {
        0
    } else {
        w
    }
}

pub fn centered_spawn_x(kind: PieceKind, rotation: usize) -> (r: i32)
    ensures
        r == spec_spawn_x(kind, rotation),
        3 <= r <= 4,
{
    let cells = piece_cells(kind, rotation);
    proof {
        lemma_piece_touches_left(kind, rotation);
    }
    let mut max_x: i32 = 0;
    let mut k: usize = 0;
    while k < cells.len()
        invariant
            k <= cells@.len(),
            cells@ == spec_piece_cells(kind, rotation),
            forall|q: int| 0 <= q < cells@.len() ==> 0 <= #[trigger] cells@[q].0 <= 3,
            max_x == max_dx(cells@.take(k as int)),
            0 <= max_x <= 3,
        decreases cells@.len() - k,
    {
        proof {
            assert(cells@.take(k + 1).drop_last() =~= cells@.take(k as int));
        }
        if cells[k].0 > max_x {
            max_x = cells[k].0;
        }
        k += 1;
    }
    proof {
        assert(cells@.take(cells@.len() as int) =~= cells@);
    }
    let w = (BOARD_W as i32 - (max_x + 1)) / 2;
    if w < 0 {
        0
    } else {
        w
    }
}

/// Coordinate `axis` of a cell: its column for 0, its row otherwise.
pub open spec fn coord(c: (i32, i32), axis: int) -> int {
    if axis == 0 {
        c.0 as int
    } else {
        c.1 as int
    }
}

/// Smallest coordinate `axis` among the cells, 0 for none.
pub open spec fn low(s: Seq<(i32, i32)>, axis: int) -> int
    decreases s.len(),
{
    if s.len() == 0 {
        0
    } else if s.len() == 1 {
        coord(s[0], axis)
    } else if coord(s.last(), axis) < low(s.drop_last(), axis) {
        coord(s.last(), axis)
    } else {
        low(s.drop_last(), axis)
    }
}

/// Largest coordinate `axis` among the cells, 0 for none.
pub open spec fn high(s: Seq<(i32, i32)>, axis: int) -> int
    decreases s.len(),
{
    if s.len() == 0 {
        0
    } else if s.len() == 1 {
        coord(s[0], axis)
    } else if coord(s.last(), axis) > high(s.drop_last(), axis) {
        coord(s.last(), axis)
    } else {
        high(s.drop_last(), axis)
    }
}

/// Cells `p` and `q` share a side.
pub open spec fn adjacent(p: (i32, i32), q: (i32, i32)) -> bool {
    let dx = p.0 - q.0;
    let dy = p.1 - q.1;
    (if dx < 0 {
        -dx
    } else {
        dx
    }) + (if dy < 0 {
        -dy
    } else {
        dy
    }) == 1
}

/// How many of the cells share a side with `p`.
pub open spec fn side_count(s: Seq<(i32, i32)>, p: (i32, i32)) -> nat
    decreases s.len(),
{
    if s.len() == 0 {
        0
    } else {
        side_count(s.drop_last(), p) + if adjacent(p, s.last()) {
            1nat
        } else {
            0nat
        }
    }
}

/// The integer make-up of a piece that its traits are computed from: the size of its
/// bounding box, its cell count, and for each cell how many of the others share a side with
/// it.
#[derive(Clone, Debug)]
pub struct PieceShape {
    pub width: i32,
    pub height: i32,
    pub cells: usize,
    pub degrees: Vec<usize>,
}

/// Cells near the frame: coordinates within a thousand of it.
pub open spec fn small_cells(s: Seq<(i32, i32)>) -> bool {
    forall|k: int| 0 <= k < s.len() ==> -1000 <= (#[trigger] s[k]).0 <= 1000 && -1000 <= s[k].1 <= 1000
}

proof fn lemma_extremes_bounded(s: Seq<(i32, i32)>, axis: int)
    requires
        small_cells(s),
    ensures
        -1000 <= low(s, axis) <= 1000,
        -1000 <= high(s, axis) <= 1000,
    decreases s.len(),
{
    if s.len() > 1 {
        assert(small_cells(s.drop_last()));
        lemma_extremes_bounded(s.drop_last(), axis);
    }
}

/// How many of `cells` share a side with `p`.
fn sides_of(cells: &[(i32, i32)], p: (i32, i32)) -> (r: usize)
    requires
        small_cells(cells@),
        -1000 <= p.0 <= 1000,
        -1000 <= p.1 <= 1000,
    ensures
        r == side_count(cells@, p),
{
    let mut r: usize = 0;
    let mut k: usize = 0;
    while k < cells.len()
        invariant
            k <= cells@.len(),
            small_cells(cells@),
            -1000 <= p.0 <= 1000,
            -1000 <= p.1 <= 1000,
            r == side_count(cells@.take(k as int), p),
            r <= k,
        decreases cells@.len() - k,
    {
        proof {
            assert(cells@.take(k + 1).drop_last() =~= cells@.take(k as int));
        }
        let q = cells[k];
        let dx = p.0 - q.0;
        let dy = p.1 - q.1;
        let ax = if dx < 0 {
            -dx
        } else {
            dx
        };
        let ay = if dy < 0 {
            -dy
        } else {
            dy
        };
        if ax + ay == 1 {
            r += 1;
        }
        k += 1;
    }
    proof {
        assert(cells@.take(cells@.len() as int) =~= cells@);
    }
    r
}

/// The shape statistics of a set of cells.
pub fn shape_stats(cells: &[(i32, i32)]) -> (r: PieceShape)
    requires
        small_cells(cells@),
    ensures
        r.width == high(cells@, 0) - low(cells@, 0) + 1,
        r.height == high(cells@, 1) - low(cells@, 1) + 1,
        r.cells == cells@.len(),
        r.degrees@.len() == cells@.len(),
        forall|k: int| 0 <= k < cells@.len() ==> #[trigger] r.degrees@[k] == side_count(cells@, cells@[k]),
{
    let mut min_x: i32 = 0;
    let mut max_x: i32 = 0;
    let mut min_y: i32 = 0;
    let mut max_y: i32 = 0;
    let mut degrees: Vec<usize> = Vec::new();
    let mut k: usize = 0;
    while k < cells.len()
        invariant
            k <= cells@.len(),
            small_cells(cells@),
            min_x == low(cells@.take(k as int), 0),
            max_x == high(cells@.take(k as int), 0),
            min_y == low(cells@.take(k as int), 1),
            max_y == high(cells@.take(k as int), 1),
            degrees@.len() == k,
            forall|j: int| 0 <= j < k ==> #[trigger] degrees@[j] == side_count(cells@, cells@[j]),
        decreases cells@.len() - k,
    {
        let ghost prefix = cells@.take(k + 1);
        proof {
            assert(prefix.drop_last() =~= cells@.take(k as int));
            assert(small_cells(prefix));
            lemma_extremes_bounded(prefix, 0);
            lemma_extremes_bounded(prefix, 1);
        }
        let c = cells[k];
        if k == 0 {
            proof {
                assert(prefix.len() == 1);
            }
            min_x = c.0;
            max_x = c.0;
            min_y = c.1;
            max_y = c.1;
        } else {
            if c.0 < min_x {
                min_x = c.0;
            }
            if c.0 > max_x {
                max_x = c.0;
            }
            if c.1 < min_y {
                min_y = c.1;
            }
            if c.1 > max_y {
                max_y = c.1;
            }
        }
        let degree = sides_of(cells, c);
        degrees.push(degree);
        k += 1;
    }
    proof {
        assert(cells@.take(cells@.len() as int) =~= cells@);
        lemma_extremes_bounded(cells@, 0);
        lemma_extremes_bounded(cells@, 1);
    }
    PieceShape { width: max_x - min_x + 1, height: max_y - min_y + 1, cells: cells.len(), degrees }
}

/// The shape statistics of a piece of the given habit and rotation.
pub fn piece_shape(kind: PieceKind, rotation: usize) -> (r: PieceShape)
    ensures
        r.width == high(spec_piece_cells(kind, rotation), 0) - low(spec_piece_cells(kind, rotation), 0) + 1,
        r.height == high(spec_piece_cells(kind, rotation), 1) - low(spec_piece_cells(kind, rotation), 1) + 1,
        r.cells == spec_piece_cells(kind, rotation).len(),
        r.degrees@.len() == spec_piece_cells(kind, rotation).len(),
        forall|k: int|
            0 <= k < spec_piece_cells(kind, rotation).len() ==> #[trigger] r.degrees@[k] == side_count(
                spec_piece_cells(kind, rotation),
                spec_piece_cells(kind, rotation)[k],
            ),
{
    let cells = piece_cells(kind, rotation);
    proof {
        lemma_piece_touches_left(kind, rotation);
    }
    shape_stats(cells)
}

/// How the generator's knobs compare, as the rotation choice reads them.
#[derive(Clone, Copy, PartialEq, Eq, Structural, Debug)]
pub struct KnobOrder {
    pub branch_over_cavern: bool,
    pub branch_over_throat: bool,
    pub throat_over_cavern: bool,
}

/// The rotation a habit leans to under the knobs: tetrahedra turn once when branching leads
/// cavern, dodecahedra three times when branching leads throat, icosahedra three times when
/// throat leads cavern; cubes and octahedra stay.
pub open spec fn base_turn(kind: PieceKind, order: KnobOrder) -> int {
    match kind {
        PieceKind::Cube | PieceKind::Octa => 0,
        PieceKind::Tetra => if order.branch_over_cavern {
            1
        } else {
            0
        },
        PieceKind::Dodeca => if order.branch_over_throat {
            3
        } else {
            0
        },
        PieceKind::Icosa => if order.throat_over_cavern {
            3
        } else {
            0
        },
    }
}

/// The rotation of the candidate in `slot`: the habit's leaning turn, plus the slot, plus a
/// coin of 0 or 1, modulo four.
pub fn choose_rotation(kind: PieceKind, order: KnobOrder, slot: usize, coin: usize) -> (r: usize)
    requires
        slot <= 3,
        coin <= 1,
    ensures
        r == (base_turn(kind, order) + slot + coin) % 4,
{
    let base: usize = match kind {
        PieceKind::Cube | PieceKind::Octa => 0,
        PieceKind::Tetra => if order.branch_over_cavern {
            1
        } else {
            0
        },
        PieceKind::Dodeca => if order.branch_over_throat {
            3
        } else {
            0
        },
        PieceKind::Icosa => if order.throat_over_cavern {
            3
        } else {
            0
        },
    };
    (base + slot + coin) % 4
}

/// The piece habit a phase favours: octahedra for open volume, cubes for wide throats,
/// dodecahedra for branching into pockets.
pub open spec fn spec_archetype(objective: ObjectiveKind) -> PieceKind {
    match objective {
        ObjectiveKind::AccessibleVolume { .. } => PieceKind::Octa,
        ObjectiveKind::ProbeToVent { .. } => PieceKind::Cube,
        ObjectiveKind::AdsorbPockets { .. } => PieceKind::Dodeca,
    }
}

pub fn phase_archetype(level: &LevelSpec) -> (r: PieceKind)
    ensures
        r == spec_archetype(level.objective_kind),
{
    match level.objective_kind {
        ObjectiveKind::AccessibleVolume { .. } => PieceKind::Octa,
        ObjectiveKind::ProbeToVent { .. } => PieceKind::Cube,
        ObjectiveKind::AdsorbPockets { .. } => PieceKind::Dodeca,
    }
}

/// Candidate `j` ranks ahead of candidate `i`: higher fitness, then higher mutation, then the
/// earlier slot.
pub open spec fn outranks(c: Seq<Candidate>, j: int, i: int) -> bool {
    c[j].fitness > c[i].fitness || (c[j].fitness == c[i].fitness && (c[j].mutation > c[i].mutation
        || (c[j].mutation == c[i].mutation && j < i)))
}

/// Place of candidate `i` among three: the number of candidates that rank ahead of it.
pub open spec fn rank_of(c: Seq<Candidate>, i: int) -> int {
    (if outranks(c, 0, i) { 1int } else { 0int }) + (if outranks(c, 1, i) { 1int } else { 0int })
        + (if outranks(c, 2, i) { 1int } else { 0int })
}

/// Orders three bred candidates best first: by fitness, then mutation, both descending, with
/// ties kept in slot order.
pub fn rank_candidates(bred: [Candidate; 3]) -> (ranked: [Candidate; 3])
    ensures
        forall|i: int| 0 <= i < 3 ==> 0 <= #[trigger] rank_of(bred@, i) < 3,
        forall|i: int, j: int|
            0 <= i < 3 && 0 <= j < 3 && i != j ==> #[trigger] rank_of(bred@, i) != #[trigger] rank_of(
                bred@,
                j,
            ),
        forall|i: int| 0 <= i < 3 ==> ranked@[#[trigger] rank_of(bred@, i)] == bred@[i],
{
    let mut place: [usize; 3] = [0, 0, 0];
    let mut i: usize = 0;
    while i < 3
        invariant
            i <= 3,
            forall|q: int| 0 <= q < i ==> #[trigger] place@[q] == rank_of(bred@, q),
        decreases 3 - i,
    {
        let mut n: usize = 0;
        let mut j: usize = 0;
        while j < 3
            invariant
                i < 3,
                j <= 3,
                n <= j,
                forall|q: int| 0 <= q < i ==> #[trigger] place@[q] == rank_of(bred@, q),
                n == (if j > 0 && outranks(bred@, 0, i as int) { 1int } else { 0int }) + (if j > 1
                    && outranks(bred@, 1, i as int) { 1int } else { 0int }) + (if j > 2 && outranks(
                    bred@,
                    2,
                    i as int,
                ) { 1int } else { 0int }),
            decreases 3 - j,
        {
            let a = bred[j];
            let b = bred[i];
            if a.fitness > b.fitness || (a.fitness == b.fitness && (a.mutation > b.mutation || (
            a.mutation == b.mutation && j < i))) {
                n += 1;
            }
            j += 1;
        }
        place.set(i, n);
        i += 1;
    }
    let mut ranked: [Candidate; 3] = bred;
    ranked.set(place[0], bred[0]);
    ranked.set(place[1], bred[1]);
    ranked.set(place[2], bred[2]);
    ranked
}

/// The foundry game without its clocks and generator knobs.
pub struct Game {
    pub levels: Vec<LevelSpec>,
    pub current_level: usize,
    pub board: Vec<Cell>,
    pub sim: Simulation,
    pub active: Option<ActivePiece>,
    pub candidates: [Option<Candidate>; 3],
    pub selected_candidate: Option<Candidate>,
    pub elite: Option<Candidate>,
    pub generation: usize,
    pub turns_used: usize,
    pub phase: Phase,
    pub ai_pick: Option<usize>,
}

/// Whether `objective` is met by `sim`.
pub open spec fn spec_objective_met(objective: ObjectiveKind, sim: Simulation) -> bool {
    match objective {
        ObjectiveKind::AccessibleVolume { target } => sim.accessible_count >= target,
        ObjectiveKind::ProbeToVent { tier } => sim.probe_pass[tier - 1],
        ObjectiveKind::AdsorbPockets { target } => sim.adsorbed_sites >= target,
    }
}

/// A turned piece that fits where it stands is not moved: the in-place placement is the
/// first one tried. Whatever placement is chosen fits, keeps the row and the turn, and lies
/// at most two columns away; when none is chosen, all five placements collide.
pub proof fn lemma_rotation_kicks(board: Seq<Cell>, rotated: ActivePiece)
    requires
        -8 <= rotated.x <= 16,
    ensures
        !spec_collides(board, rotated) ==> first_free_kick(board, rotated, 0) == Some(rotated),
        first_free_kick(board, rotated, 0) matches Some(q) ==> {
            &&& !spec_collides(board, q)
            &&& q.y == rotated.y
            &&& q.rotation == rotated.rotation
            &&& q.kind == rotated.kind
            &&& rotated.x - 2 <= q.x <= rotated.x + 2
        },
        first_free_kick(board, rotated, 0) is None ==> forall|dx: int|
            -2 <= dx <= 2 ==> #[trigger] spec_collides(board, shifted(rotated, dx, 0)),
{
    assert(shifted(rotated, 0, 0) == rotated);
    assert(kick(0) == 0 && kick(1) == -1 && kick(2) == 1 && kick(3) == -2 && kick(4) == 2);
    reveal_with_fuel(first_free_kick, 6);
    if first_free_kick(board, rotated, 0) is None {
        assert forall|dx: int| -2 <= dx <= 2 implies #[trigger] spec_collides(board, shifted(rotated, dx, 0)) by {
            if dx == 0 {
            } else if dx == -1 {
            } else if dx == 1 {
            } else if dx == -2 {
            } else {
            }
        }
    }
}

/// A probe-to-vent objective of tier `t` is met exactly when the probe of tier `t` reaches a
/// vent: some cell a vent names lies in the flood, from the sources, of the open cells whose
/// clearance admits tier `t`. A smaller probe getting through does not meet it.
pub proof fn lemma_probe_objective(board: Seq<Cell>, level: LevelSpec, sim: Simulation, tier: usize)
    requires
        analysis_of(board, level, sim),
        level.objective_kind == (ObjectiveKind::ProbeToVent { tier }),
        1 <= tier <= 3,
    ensures
        spec_objective_met(level.objective_kind, sim) <==> (level.outlets@.len() > 0 && exists|i: int|
            0 <= i < board_len() && #[trigger] named(level.outlets@, i) && in_flood(
                level.sources@,
                passable(board, sim.clearance@, tier as u8),
                i,
            )),
{
    reveal(analysis_of);
    let t = tier - 1;
    if level.outlets@.len() > 0 {
        assert(probe_outcome(
            board,
            sim.clearance@,
            level.sources@,
            level.outlets@,
            (t + 1) as u8,
            sim.probe_pass[t],
            sim.probe_paths[t]@,
        ));
    } else {
        assert(!sim.probe_pass[t]);
    }
}

impl Game {
    /// The game's state is coherent: the board has its fixed size, the current phase exists
    /// and is playable, the simulation is the analysis of the board in that phase, and a
    /// falling piece sits where it does not collide, at or below its spawn row.
    pub open spec fn wf(&self) -> bool {
        &&& self.board@.len() == board_len()
        &&& self.current_level < self.levels@.len()
        &&& forall|l: int| 0 <= l < self.levels@.len() ==> level_ok(#[trigger] self.levels@[l])
        &&& analysis_of(self.board@, self.levels@[self.current_level as int], self.sim)
        &&& self.active matches Some(p) ==> frame_in_range(p) && !spec_collides(
            self.board@,
            p,
        )
    }

    /// The current phase.
    pub open spec fn spec_level(&self) -> LevelSpec {
        self.levels@[self.current_level as int]
    }

    pub fn level(&self) -> (r: &LevelSpec)
        requires
            self.current_level < self.levels@.len(),
        ensures
            *r == self.spec_level(),
    {
        &self.levels[self.current_level]
    }

    pub fn collides(&self, piece: ActivePiece) -> (r: bool)
        requires
            self.board@.len() == board_len(),
        ensures
            r == spec_collides(self.board@, piece),
    {
        let cells = piece_cells(piece.kind, piece.rotation);
        proof {
            lemma_piece_touches_left(piece.kind, piece.rotation);
        }
        let mut k: usize = 0;
        while k < cells.len()
            invariant
                k <= cells@.len(),
                cells@ == spec_piece_cells(piece.kind, piece.rotation),
                self.board@.len() == board_len(),
                forall|q: int|
                    0 <= q < cells@.len() ==> 0 <= #[trigger] cells@[q].0 <= 3 && 0 <= cells@[q].1 <= 3,
                forall|q: int| 0 <= q < k ==> !#[trigger] cell_blocked(self.board@, piece, q),
            decreases cells@.len() - k,
        {
            let (dx, dy) = cells[k];
            let wide_x: i64 = piece.x as i64 + dx as i64;
            let wide_y: i64 = piece.y as i64 + dy as i64;
            if wide_x < 0 || wide_x >= BOARD_W as i64 || wide_y >= BOARD_H as i64 {
                proof {
                    assert(cell_blocked(self.board@, piece, k as int));
                }
                return true;
            }
            if wide_y >= 0 {
                let x = wide_x as i32;
                let y = wide_y as i32;
                let cell = index(x, y);
                if let Some(cell_index) = cell {
                    if self.board[cell_index].blocks_piece() {
                        proof {
                            assert(cell_blocked(self.board@, piece, k as int));
                        }
                        return true;
                    }
                }
            }
            k += 1;
        }
        false
    }
}


proof fn lemma_x_sum_bounds(s: Seq<(i32, i32)>, k: int)
    requires
        0 <= k <= s.len(),
        forall|q: int| 0 <= q < s.len() ==> 0 <= #[trigger] s[q].0 < 10,
    ensures
        0 <= x_sum(s.take(k)) <= 10 * k,
    decreases k,
{
    if k > 0 {
        lemma_x_sum_bounds(s, k - 1);
        assert(s.take(k).drop_last() =~= s.take(k - 1));
    }
}

/// Vents whose columns lie on the board, few enough that their columns add up in range.
proof fn lemma_board_outlets_fit(s: Seq<(i32, i32)>)
    requires
        s.len() <= 1000,
        forall|q: int| 0 <= q < s.len() ==> 0 <= #[trigger] s[q].0 < 10,
    ensures
        outlet_sum_fits(s),
{
    assert forall|k: int| 0 <= k <= s.len() implies i32::MIN <= #[trigger] x_sum(s.take(k))
        <= i32::MAX by {
        lemma_x_sum_bounds(s, k);
    }
}

/// Whether two games agree on everything but the falling piece.
pub open spec fn same_but_active(a: Game, b: Game) -> bool {
    &&& a.levels@ == b.levels@
    &&& a.current_level == b.current_level
    &&& a.board@ == b.board@
    &&& a.sim == b.sim
    &&& a.candidates == b.candidates
    &&& a.selected_candidate == b.selected_candidate
    &&& a.elite == b.elite
    &&& a.generation == b.generation
    &&& a.turns_used == b.turns_used
    &&& a.phase == b.phase
    &&& a.ai_pick == b.ai_pick
}

/// `after` is `before` once `piece` has been locked into the lattice: the piece is painted
/// into the board, a turn is spent, the picked candidate becomes the elite, the gas is run
/// again, and the phase is won (the campaign on the last phase), lost when the turns are
/// used up, or waits for the next breeding.
pub open spec fn locked(before: Game, after: Game, piece: ActivePiece) -> bool {
    &&& after.levels@ == before.levels@
    &&& after.current_level == before.current_level
    &&& after.board@ == painted(before.board@, piece)
    &&& analysis_of(after.board@, after.spec_level(), after.sim)
    &&& after.active is None
    &&& after.candidates == before.candidates
    &&& after.selected_candidate is None
    &&& after.elite == before.selected_candidate
    &&& after.generation == before.generation
    &&& after.turns_used == before.turns_used + 1
    &&& after.ai_pick == before.ai_pick
    &&& after.phase == if spec_objective_met(after.spec_level().objective_kind, after.sim) {
        if after.current_level + 1 == after.levels@.len() {
            Phase::CampaignWon
        } else {
            Phase::Won
        }
    } else if after.turns_used >= after.spec_level().turn_limit {
        Phase::Lost
    } else {
        Phase::AwaitBreed
    }
}

impl Game {
    /// A fresh campaign at its first phase, waiting for the first breeding.
    pub fn new() -> (g: Game)
        ensures
            g.wf(),
            g.current_level == 0,
            g.levels@.len() == 3,
            campaign(g.levels@),
            forall|i: int| 0 <= i < board_len() ==> #[trigger] g.board@[i] == spec_initial_cell(&g.levels@[0], i),
            g.active is None,
            g.candidates == [None::<Candidate>, None, None],
            g.selected_candidate is None,
            g.elite is None,
            g.generation == 0,
            g.turns_used == 0,
            g.phase == Phase::AwaitBreed,
            g.ai_pick is None,
    {
        let levels = levels();
        proof {
            assert forall|l: int| 0 <= l < levels@.len() implies level_ok(#[trigger] levels@[l]) by {
                lemma_board_outlets_fit(levels@[l].outlets@);
            }
        }
        let board = initial_board(&levels[0]);
        let sim = analyze(board.as_slice(), &levels[0]);
        Game {
            levels,
            current_level: 0,
            board,
            sim,
            active: None,
            candidates: [None, None, None],
            selected_candidate: None,
            elite: None,
            generation: 0,
            turns_used: 0,
            phase: Phase::AwaitBreed,
            ai_pick: None,
        }
    }

    /// Restarts phase `index` from its initial board, waiting for a breeding.
    pub fn load_level(&mut self, index: usize)
        requires
            old(self).wf(),
            index < old(self).levels@.len(),
        ensures
            final(self).wf(),
            final(self).levels@ == old(self).levels@,
            final(self).current_level == index,
            forall|i: int|
                0 <= i < board_len() ==> #[trigger] final(self).board@[i] == spec_initial_cell(
                    &final(self).levels@[index as int],
                    i,
                ),
            final(self).active is None,
            final(self).candidates == [None::<Candidate>, None, None],
            final(self).selected_candidate is None,
            final(self).elite is None,
            final(self).generation == 0,
            final(self).turns_used == 0,
            final(self).phase == Phase::AwaitBreed,
            final(self).ai_pick is None,
    {
        self.current_level = index;
        self.board = initial_board(&self.levels[index]);
        proof {
            assert(level_ok(self.levels@[index as int]));
        }
        self.sim = analyze(self.board.as_slice(), &self.levels[index]);
        self.active = None;
        self.candidates = [None, None, None];
        self.selected_candidate = None;
        self.elite = None;
        self.generation = 0;
        self.turns_used = 0;
        self.phase = Phase::AwaitBreed;
        self.ai_pick = None;
    }

    /// Which trait the current phase rewards: 0 volume, 1 throat, 2 branching.
    pub fn objective_axis(&self) -> (r: usize)
        requires
            self.current_level < self.levels@.len(),
        ensures
            r == match self.spec_level().objective_kind {
                ObjectiveKind::AccessibleVolume { .. } => 0usize,
                ObjectiveKind::ProbeToVent { .. } => 1usize,
                ObjectiveKind::AdsorbPockets { .. } => 2usize,
            },
    {
        match self.level().objective_kind {
            ObjectiveKind::AccessibleVolume { .. } => 0,
            ObjectiveKind::ProbeToVent { .. } => 1,
            ObjectiveKind::AdsorbPockets { .. } => 2,
        }
    }

    /// Opens a breeding round: refused once the phase is decided or while a piece falls;
    /// otherwise the generation counter advances.
    pub fn begin_breeding(&mut self) -> (started: bool)
        requires
            old(self).generation < usize::MAX,
        ensures
            started == !(old(self).phase == Phase::Won || old(self).phase == Phase::Lost
                || old(self).phase == Phase::CampaignWon || old(self).active is Some),
            final(self).generation == if started {
                old(self).generation + 1
            } else {
                old(self).generation as int
            },
            final(self).levels@ == old(self).levels@,
            final(self).current_level == old(self).current_level,
            final(self).board@ == old(self).board@,
            final(self).sim == old(self).sim,
            final(self).active == old(self).active,
            final(self).candidates == old(self).candidates,
            final(self).selected_candidate == old(self).selected_candidate,
            final(self).elite == old(self).elite,
            final(self).turns_used == old(self).turns_used,
            final(self).phase == old(self).phase,
            final(self).ai_pick == old(self).ai_pick,
    {
        if self.phase == Phase::Won || self.phase == Phase::Lost || self.phase == Phase::CampaignWon
            || self.active.is_some() {
            return false;
        }
        self.generation += 1;
        true
    }

    /// Offers the bred candidates best first, suggests the first one, and waits for a pick.
    pub fn install_candidates(&mut self, bred: [Candidate; 3])
        ensures
            forall|i: int|
                0 <= i < 3 ==> final(self).candidates@[#[trigger] rank_of(bred@, i)] == Some(bred@[i]),
            final(self).ai_pick == Some(0usize),
            final(self).phase == Phase::AwaitPick,
            final(self).levels@ == old(self).levels@,
            final(self).current_level == old(self).current_level,
            final(self).board@ == old(self).board@,
            final(self).sim == old(self).sim,
            final(self).active == old(self).active,
            final(self).selected_candidate == old(self).selected_candidate,
            final(self).elite == old(self).elite,
            final(self).generation == old(self).generation,
            final(self).turns_used == old(self).turns_used,
    {
        let ranked = rank_candidates(bred);
        self.candidates = [Some(ranked[0]), Some(ranked[1]), Some(ranked[2])];
        proof {
            assert forall|i: int| 0 <= i < 3 implies self.candidates@[#[trigger] rank_of(bred@, i)]
                == Some(bred@[i]) by {
                let r = rank_of(bred@, i);
                assert(ranked@[r] == bred@[i]);
            }
        }
        self.ai_pick = Some(0);
        self.phase = Phase::AwaitPick;
    }
}


impl Game {
    /// Moves the falling piece by (dx, dy) when the moved piece does not collide.
    pub fn try_move(&mut self, dx: i32, dy: i32) -> (moved: bool)
        requires
            old(self).wf(),
            old(self).active matches Some(p) ==> i32::MIN <= p.x + dx <= i32::MAX && i32::MIN <= p.y
                + dy <= i32::MAX,
        ensures
            final(self).wf(),
            same_but_active(*final(self), *old(self)),
            match old(self).active {
                None => !moved && final(self).active is None,
                Some(p) => {
                    &&& moved == !spec_collides(old(self).board@, shifted(p, dx as int, dy as int))
                    &&& final(self).active == if moved {
                        Some(shifted(p, dx as int, dy as int))
                    } else {
                        Some(p)
                    }
                },
            },
    {
        let active = match self.active {
            Some(a) => a,
            None => {
                return false;
            },
        };
        proof {
            lemma_placed_in_range(self.board@, active);
        }
        let moved_piece = ActivePiece { x: active.x + dx, y: active.y + dy, ..active };
        proof {
            assert(moved_piece == shifted(active, dx as int, dy as int));
        }
        if self.collides(moved_piece) {
            return false;
        }
        proof {
            lemma_placed_in_range(self.board@, moved_piece);
        }
        self.active = Some(moved_piece);
        true
    }

    /// Turns the falling piece a quarter, trying the kicks 0, -1, 1, -2, 2 in order; when none
    /// fits the piece stays as it was.
    pub fn rotate(&mut self)
        requires
            old(self).wf(),
            old(self).active matches Some(p) ==> p.rotation < usize::MAX,
        ensures
            final(self).wf(),
            same_but_active(*final(self), *old(self)),
            match old(self).active {
                None => final(self).active is None,
                Some(p) => final(self).active == match first_free_kick(
                    old(self).board@,
                    ActivePiece { rotation: (p.rotation + 1) as usize, ..p },
                    0,
                ) {
                    Some(q) => Some(q),
                    None => Some(p),
                },
            },
    {
        let active = match self.active {
            Some(a) => a,
            None => {
                return ;
            },
        };
        proof {
            lemma_placed_in_range(self.board@, active);
        }
        let rotated = ActivePiece { rotation: active.rotation + 1, ..active };
        let fitted = self.find_kick(rotated);
        if let Some(q) = fitted {
            proof {
                lemma_placed_in_range(self.board@, q);
            }
            self.active = Some(q);
        }
    }

    /// The first kick of the rotated piece that fits.
    fn find_kick(&self, rotated: ActivePiece) -> (r: Option<ActivePiece>)
        requires
            self.board@.len() == board_len(),
            0 <= rotated.x <= 9,
            rotated.y <= 15,
        ensures
            r == first_free_kick(self.board@, rotated, 0),
            r matches Some(q) ==> !spec_collides(self.board@, q) && q.y == rotated.y,
    {
        let kicks: [i32; 5] = [0, -1, 1, -2, 2];
        let mut i: usize = 0;
        while i < 5
            invariant
                i <= 5,
                self.board@.len() == board_len(),
                0 <= rotated.x <= 9,
                rotated.y <= 15,
                forall|q: int| 0 <= q < 5 ==> #[trigger] kicks@[q] == kick(q),
                first_free_kick(self.board@, rotated, 0) == first_free_kick(self.board@, rotated, i as int),
            decreases 5 - i,
        {
            let tested = ActivePiece { x: rotated.x + kicks[i], ..rotated };
            proof {
                assert(tested == shifted(rotated, kick(i as int), 0));
            }
            if !self.collides(tested) {
                return Some(tested);
            }
            i += 1;
        }
        None
    }

    /// Where the falling piece would come to rest.
    pub fn ghost_piece(&self) -> (r: Option<ActivePiece>)
        requires
            self.wf(),
        ensures
            r == match self.active {
                Some(p) => Some(landing(self.board@, p)),
                None => None,
            },
    {
        let mut ghost_piece = match self.active {
            Some(a) => a,
            None => {
                return None;
            },
        };
        proof {
            lemma_placed_in_range(self.board@, ghost_piece);
        }
        loop
            invariant
                self.wf(),
                self.active matches Some(p) && landing(self.board@, p) == landing(self.board@, ghost_piece),
                frame_in_range(ghost_piece),
                ghost_piece.y <= 15,
                !spec_collides(self.board@, ghost_piece),
            ensures
                self.active matches Some(p) && landing(self.board@, p) == ghost_piece,
            decreases 16 - ghost_piece.y,
        {
            let below = one_row_down(ghost_piece);
            if self.collides(below) {
                break;
            }
            proof {
                lemma_placed_in_range(self.board@, below);
            }
            ghost_piece = below;
        }
        Some(ghost_piece)
    }
}


/// Some of the first `n` cells of the piece lands on cell `i`.
pub open spec fn covers_upto(p: ActivePiece, i: int, n: int) -> bool {
    exists|k: int|
        0 <= k < n && #[trigger] spec_index(piece_point(p, k).0, piece_point(p, k).1) == Some(
            i as usize,
        )
}

impl Game {
    /// Whether the current phase's objective is met.
    pub fn objective_met(&self) -> (r: bool)
        requires
            self.wf(),
        ensures
            r == spec_objective_met(self.spec_level().objective_kind, self.sim),
    {
        proof {
            assert(level_ok(self.levels@[self.current_level as int]));
        }
        match self.level().objective_kind {
            ObjectiveKind::AccessibleVolume { target } => self.sim.accessible_count >= target,
            ObjectiveKind::ProbeToVent { tier } => self.sim.probe_pass[tier - 1],
            ObjectiveKind::AdsorbPockets { target } => self.sim.adsorbed_sites >= target,
        }
    }

    fn paint_piece(&mut self, active: ActivePiece)
        requires
            old(self).board@.len() == board_len(),
            !spec_collides(old(self).board@, active),
        ensures
            final(self).board@ == painted(old(self).board@, active),
            final(self).levels@ == old(self).levels@,
            final(self).current_level == old(self).current_level,
            final(self).sim == old(self).sim,
            final(self).active == old(self).active,
            final(self).candidates == old(self).candidates,
            final(self).selected_candidate == old(self).selected_candidate,
            final(self).elite == old(self).elite,
            final(self).generation == old(self).generation,
            final(self).turns_used == old(self).turns_used,
            final(self).phase == old(self).phase,
            final(self).ai_pick == old(self).ai_pick,
    {
        proof {
            lemma_placed_in_range(self.board@, active);
            lemma_piece_touches_left(active.kind, active.rotation);
        }
        let cells = piece_cells(active.kind, active.rotation);
        let value = Cell::Channel(active.kind.palette_index());
        let mut k: usize = 0;
        while k < cells.len()
            invariant
                k <= cells@.len(),
                cells@ == spec_piece_cells(active.kind, active.rotation),
                forall|q: int|
                    0 <= q < cells@.len() ==> 0 <= #[trigger] cells@[q].0 <= 3 && 0 <= cells@[q].1 <= 3,
                0 <= active.x <= 9,
                active.y <= 15,
                value == Cell::Channel(spec_palette_index(active.kind)),
                self.board@.len() == board_len(),
                forall|i: int|
                    0 <= i < board_len() ==> #[trigger] self.board@[i] == if covers_upto(active, i, k as int) {
                        value
                    } else {
                        old(self).board@[i]
                    },
                self.levels@ == old(self).levels@,
                self.current_level == old(self).current_level,
                self.sim == old(self).sim,
                self.active == old(self).active,
                self.candidates == old(self).candidates,
                self.selected_candidate == old(self).selected_candidate,
                self.elite == old(self).elite,
                self.generation == old(self).generation,
                self.turns_used == old(self).turns_used,
                self.phase == old(self).phase,
                self.ai_pick == old(self).ai_pick,
            decreases cells@.len() - k,
        {
            let (dx, dy) = cells[k];
            let spot = index(active.x + dx, active.y + dy);
            proof {
                assert(spot == spec_index(piece_point(active, k as int).0, piece_point(active, k as int).1));
            }
            if let Some(cell_index) = spot {
                self.board.set(cell_index, value);
            }
            proof {
                assert forall|i: int| 0 <= i < board_len() implies #[trigger] self.board@[i] == if covers_upto(
                    active,
                    i,
                    k + 1,
                ) {
                    value
                } else {
                    old(self).board@[i]
                } by {
                    if covers_upto(active, i, k + 1) && !covers_upto(active, i, k as int) {
                        let w = choose|w: int|
                            0 <= w < k + 1 && #[trigger] spec_index(piece_point(active, w).0, piece_point(active, w).1)
                                == Some(i as usize);
                        assert(w == k);
                    }
                }
            }
            k += 1;
        }
        proof {
            assert(self.board@ =~= painted(old(self).board@, active)) by {
                assert forall|i: int| 0 <= i < board_len() implies #[trigger] self.board@[i] == painted(old(self).board@, active)[i] by {
                    assert(covers_upto(active, i, cells@.len() as int) == covers(active, i));
                }
            }
        }
    }

    /// Locks the falling piece into the lattice and judges the phase (see `locked`); without a
    /// falling piece nothing happens.
    #[verifier::rlimit(60)]
    pub fn lock_piece(&mut self)
        requires
            old(self).wf(),
            old(self).turns_used < usize::MAX,
        ensures
            final(self).wf(),
            old(self).active matches Some(p) ==> locked(*old(self), *final(self), p),
            old(self).active is None ==> same_but_active(*final(self), *old(self)) && final(self).active is None,
    {
        let active = match self.active {
            Some(a) => a,
            None => {
                return ;
            },
        };
        self.active = None;
        self.paint_piece(active);
        self.turns_used += 1;
        let picked = self.selected_candidate;
        self.selected_candidate = None;
        self.elite = picked;
        proof {
            assert(level_ok(self.levels@[self.current_level as int]));
        }
        self.sim = analyze(self.board.as_slice(), &self.levels[self.current_level]);
        let met = self.objective_met();
        let level_count = self.levels.len();
        if met {
            self.phase = if self.current_level + 1 == level_count {
                Phase::CampaignWon
            } else {
                Phase::Won
            };
        } else if self.turns_used >= self.level().turn_limit {
            self.phase = Phase::Lost;
        } else {
            self.phase = Phase::AwaitBreed;
        }
    }

    /// While a piece falls, drops it to its landing row and locks it there.
    pub fn hard_drop(&mut self)
        requires
            old(self).wf(),
            old(self).turns_used < usize::MAX,
        ensures
            final(self).wf(),
            old(self).phase == Phase::Falling && old(self).active is Some ==> locked(
                *old(self),
                *final(self),
                landing(old(self).board@, old(self).active->0),
            ),
            !(old(self).phase == Phase::Falling && old(self).active is Some) ==> same_but_active(
                *final(self),
                *old(self),
            ) && final(self).active == old(self).active,
    {
        if self.phase != Phase::Falling {
            return ;
        }
        let ghost start = self.active;
        loop
            invariant
                self.wf(),
                same_but_active(*self, *old(self)),
                old(self).turns_used < usize::MAX,
                old(self).active == start,
                start is None ==> self.active is None,
                start matches Some(p) ==> self.active matches Some(q) && landing(self.board@, q)
                    == landing(self.board@, p),
            ensures
                start matches Some(p) ==> self.active == Some(landing(self.board@, p)),
            decreases 16 - match self.active {
                Some(q) => q.y as int,
                None => 16,
            },
        {
            let ghost before = self.active;
            proof {
                if let Some(q) = before {
                    lemma_placed_in_range(self.board@, q);
                }
            }
            if !self.try_move(0, 1) {
                break;
            }
        }
        self.lock_piece();
    }

    /// One gravity step of the falling piece: down a row, or locked when it cannot fall.
    pub fn step_down(&mut self)
        requires
            old(self).wf(),
            old(self).turns_used < usize::MAX,
        ensures
            final(self).wf(),
            old(self).active matches Some(p) ==> if spec_collides(old(self).board@, shifted(p, 0, 1)) {
                locked(*old(self), *final(self), p)
            } else {
                same_but_active(*final(self), *old(self)) && final(self).active == Some(shifted(p, 0, 1))
            },
            old(self).active is None ==> same_but_active(*final(self), *old(self)) && final(self).active is None,
    {
        if !self.try_move(0, 1) {
            self.lock_piece();
        }
    }

    /// Releases candidate `index` as the falling piece, centred above the well; the lineage dies
    /// out when it cannot even enter. Only while waiting for a pick.
    pub fn spawn_candidate(&mut self, index: usize)
        requires
            old(self).wf(),
            index < 3,
        ensures
            final(self).wf(),
            final(self).levels@ == old(self).levels@,
            final(self).current_level == old(self).current_level,
            final(self).board@ == old(self).board@,
            final(self).sim == old(self).sim,
            final(self).elite == old(self).elite,
            final(self).generation == old(self).generation,
            final(self).turns_used == old(self).turns_used,
            ({
                let c = old(self).candidates@[index as int];
                let piece = ActivePiece {
                    kind: c->0.kind,
                    rotation: c->0.rotation,
                    x: spec_spawn_x(c->0.kind, c->0.rotation) as i32,
                    y: -2i32,
                };
                if old(self).phase != Phase::AwaitPick || c is None {
                    &&& final(self).active == old(self).active
                    &&& final(self).candidates == old(self).candidates
                    &&& final(self).selected_candidate == old(self).selected_candidate
                    &&& final(self).phase == old(self).phase
                    &&& final(self).ai_pick == old(self).ai_pick
                } else if spec_collides(old(self).board@, piece) {
                    &&& final(self).active == old(self).active
                    &&& final(self).candidates == old(self).candidates
                    &&& final(self).selected_candidate == old(self).selected_candidate
                    &&& final(self).phase == Phase::Lost
                    &&& final(self).ai_pick == old(self).ai_pick
                } else {
                    &&& final(self).active == Some(piece)
                    &&& final(self).candidates == [None::<Candidate>, None, None]
                    &&& final(self).selected_candidate == c
                    &&& final(self).phase == Phase::Falling
                    &&& final(self).ai_pick is None
                }
            }),
    {
        if self.phase != Phase::AwaitPick {
            return ;
        }
        let candidate = match self.candidates[index] {
            Some(c) => c,
            None => {
                return ;
            },
        };
        let piece = ActivePiece {
            kind: candidate.kind,
            rotation: candidate.rotation,
            x: centered_spawn_x(candidate.kind, candidate.rotation),
            y: -2,
        };
        if self.collides(piece) {
            self.phase = Phase::Lost;
            return ;
        }
        self.selected_candidate = Some(candidate);
        self.active = Some(piece);
        self.candidates = [None, None, None];
        self.ai_pick = None;
        self.phase = Phase::Falling;
    }
}


/// Stars for a decided phase: three with two or more turns to spare, two with one, one
/// otherwise; none before the phase is won.
pub open spec fn spec_star_count(phase: Phase, turn_limit: usize, turns_used: usize) -> usize {
    if !(phase == Phase::Won || phase == Phase::CampaignWon) {
        0
    } else if turn_limit >= turns_used + 2 {
        3
    } else if turn_limit == turns_used + 1 {
        2
    } else {
        1
    }
}

impl Game {
    pub fn phase_badge(&self) -> (r: &'static str)
        requires
            self.current_level < self.levels@.len(),
        ensures
            r == self.spec_level().phase_badge,
    {
        self.level().phase_badge
    }

    /// Name of the widest probe tier that gets through: None, Small, Amber, Large.
    pub fn probe_label(&self) -> (r: &'static str)
        ensures
            self.sim.best_probe_tier == 0 ==> r@ == "None"@,
            self.sim.best_probe_tier == 1 ==> r@ == "Small"@,
            self.sim.best_probe_tier == 2 ==> r@ == "Amber"@,
            self.sim.best_probe_tier >= 3 ==> r@ == "Large"@,
    {
        match self.sim.best_probe_tier {
            0 => "None",
            1 => "Small",
            2 => "Amber",
            _ => "Large",
        }
    }

    pub fn status_badge(&self) -> (r: &'static str)
        ensures
            self.phase == Phase::AwaitBreed ==> r@ == "Breed"@,
            self.phase == Phase::AwaitPick ==> r@ == "Select"@,
            self.phase == Phase::Falling ==> r@ == "Place"@,
            self.phase == Phase::Won || self.phase == Phase::CampaignWon ==> r@ == "Evolved"@,
            self.phase == Phase::Lost ==> r@ == "Extinct"@,
    {
        match self.phase {
            Phase::AwaitBreed => "Breed",
            Phase::AwaitPick => "Select",
            Phase::Falling => "Place",
            Phase::Won | Phase::CampaignWon => "Evolved",
            Phase::Lost => "Extinct",
        }
    }

    pub fn status_state(&self) -> (r: &'static str)
        ensures
            self.phase == Phase::Falling || self.phase == Phase::Won || self.phase
                == Phase::CampaignWon ==> r@ == "open"@,
            self.phase == Phase::Lost ==> r@ == "blocked"@,
            self.phase == Phase::AwaitBreed || self.phase == Phase::AwaitPick ==> r@
                == "bottlenecked"@,
    {
        match self.phase {
            Phase::Falling | Phase::Won | Phase::CampaignWon => "open",
            Phase::Lost => "blocked",
            _ => "bottlenecked",
        }
    }

    pub fn status_detail(&self) -> (r: &'static str)
        ensures
            self.phase == Phase::AwaitBreed ==> r@ == "Turn the three biases and grow a fresh generation."@,
            self.phase == Phase::AwaitPick ==> r@ == "Pick a survivor. The AI highlight is only a suggestion."@,
            self.phase == Phase::Falling ==> r@ == "Steer the seed through space and snap it into the lattice."@,
            self.phase == Phase::Won ==> r@ == "This phase is solved. Carry the lesson forward."@,
            self.phase == Phase::CampaignWon ==> r@
                == "Variation, selection, and inheritance are all visible on one board."@,
            self.phase == Phase::Lost ==> r@ == "That lineage stalled. Try a new pressure profile."@,
    {
        match self.phase {
            Phase::AwaitBreed => "Turn the three biases and grow a fresh generation.",
            Phase::AwaitPick => "Pick a survivor. The AI highlight is only a suggestion.",
            Phase::Falling => "Steer the seed through space and snap it into the lattice.",
            Phase::Won => "This phase is solved. Carry the lesson forward.",
            Phase::CampaignWon => "Variation, selection, and inheritance are all visible on one board.",
            Phase::Lost => "That lineage stalled. Try a new pressure profile.",
        }
    }

    /// The scientific reading of the board for the phase's objective: a title, a sentence and
    /// whether the state is flagged as interesting (close to the goal).
    pub fn scientific_flag(&self) -> (r: (&'static str, &'static str, bool))
        requires
            self.current_level < self.levels@.len(),
        ensures
            r.2 == match self.spec_level().objective_kind {
                ObjectiveKind::AccessibleVolume { target } => target <= self.sim.accessible_count + 4,
                ObjectiveKind::ProbeToVent { tier } => self.sim.best_probe_tier + 1 >= tier,
                ObjectiveKind::AdsorbPockets { target } => target <= self.sim.adsorbed_sites + 1,
            },
            self.spec_level().objective_kind is AccessibleVolume ==> (r.2 ==> r.0@ == "Diverse pool"@
                && r.1@ == "You are one strong mutation away from a big volume jump."@) && (!r.2
                ==> r.0@ == "Low diversity"@ && r.1@
                == "Current shapes are not opening enough shared void."@),
            self.spec_level().objective_kind is ProbeToVent ==> (r.2 ==> r.0@ == "Selection edge"@
                && r.1@ == "The route is nearly fit enough for the amber guest."@) && (!r.2 ==> r.0@
                == "Weak throat"@ && r.1@ == "The lineage still collapses at narrow passages."@),
            self.spec_level().objective_kind is AdsorbPockets ==> (r.2 ==> r.0@ == "Inherited win"@
                && r.1@ == "Branching traits are almost reaching a second pocket."@) && (!r.2 ==> r.0@
                == "Poor inheritance"@ && r.1@
                == "Useful pathways are not spreading into the side traps."@),
    {
        match self.level().objective_kind {
            ObjectiveKind::AccessibleVolume { target } => {
                if target.saturating_sub(self.sim.accessible_count) <= 4 {
                    ("Diverse pool", "You are one strong mutation away from a big volume jump.", true)
                } else {
                    ("Low diversity", "Current shapes are not opening enough shared void.", false)
                }
            },
            ObjectiveKind::ProbeToVent { tier } => {
                if self.sim.best_probe_tier >= tier || self.sim.best_probe_tier + 1 >= tier {
                    ("Selection edge", "The route is nearly fit enough for the amber guest.", true)
                } else {
                    ("Weak throat", "The lineage still collapses at narrow passages.", false)
                }
            },
            ObjectiveKind::AdsorbPockets { target } => {
                if target.saturating_sub(self.sim.adsorbed_sites) <= 1 {
                    ("Inherited win", "Branching traits are almost reaching a second pocket.", true)
                } else {
                    ("Poor inheritance", "Useful pathways are not spreading into the side traps.", false)
                }
            },
        }
    }

    pub fn star_count(&self) -> (r: usize)
        requires
            self.current_level < self.levels@.len(),
        ensures
            r == spec_star_count(self.phase, self.spec_level().turn_limit, self.turns_used),
            r <= 3,
    {
        if !(self.phase == Phase::Won || self.phase == Phase::CampaignWon) {
            return 0;
        }
        let remaining = self.level().turn_limit.saturating_sub(self.turns_used);
        if remaining >= 2 {
            3
        } else if remaining == 1 {
            2
        } else {
            1
        }
    }
}

} // verus!
