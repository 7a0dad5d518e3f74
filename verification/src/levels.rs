//! The foundry board: cells, crystal pieces and the three campaign phases.
use vstd::prelude::*;

verus! {

/// Board width in cells.
pub const BOARD_W: usize = 10;

/// Board height in cells.
pub const BOARD_H: usize = 16;

/// Number of cells on the board.
pub open spec fn board_len() -> int {
    BOARD_W * BOARD_H
}

/// One cell of the porous board.
#[derive(Clone, Copy, PartialEq, Eq, Structural, Debug)]
pub enum Cell {
    Matrix,
    Wall,
    Channel(u8),
    Source,
    Outlet,
    Pocket,
}

/// Gas can stand in channels, sources, outlets and pockets.
pub open spec fn cell_open(c: Cell) -> bool {
    c is Channel || c is Source || c is Outlet || c is Pocket
}

impl Cell {
    pub fn is_open(self) -> (r: bool)
        ensures
            r == cell_open(self),
    {
        match self {
            Cell::Channel(_) | Cell::Source | Cell::Outlet | Cell::Pocket => true,
            _ => false,
        }
    }

    pub fn blocks_piece(self) -> (r: bool)
        ensures
            r == !(self is Matrix),
    {
        match self {
            Cell::Matrix => false,
            _ => true,
        }
    }
}

/// The five crystal habits a piece can have.
#[derive(Clone, Copy, PartialEq, Eq, Structural, Debug)]
pub enum PieceKind {
    Tetra,
    Cube,
    Octa,
    Dodeca,
    Icosa,
}

/// Palette slot of each habit: Tetra 0, Cube 1, Octa 2, Dodeca 3, Icosa 4.
pub open spec fn spec_palette_index(kind: PieceKind) -> u8 {
    match kind {
        PieceKind::Tetra => 0,
        PieceKind::Cube => 1,
        PieceKind::Octa => 2,
        PieceKind::Dodeca => 3,
        PieceKind::Icosa => 4,
    }
}

impl PieceKind {
    pub fn label(self) -> (r: &'static str)
        ensures
            self is Tetra ==> r@ == "Tetra"@,
            self is Cube ==> r@ == "Cube"@,
            self is Octa ==> r@ == "Octa"@,
            self is Dodeca ==> r@ == "Dodeca"@,
            self is Icosa ==> r@ == "Icosa"@,
    {
        match self {
            PieceKind::Tetra => "Tetra",
            PieceKind::Cube => "Cube",
            PieceKind::Octa => "Octa",
            PieceKind::Dodeca => "Dodeca",
            PieceKind::Icosa => "Icosa",
        }
    }

    pub fn palette_index(self) -> (r: u8)
        ensures
            r == spec_palette_index(self),
    {
        match self {
            PieceKind::Tetra => 0,
            PieceKind::Cube => 1,
            PieceKind::Octa => 2,
            PieceKind::Dodeca => 3,
            PieceKind::Icosa => 4,
        }
    }
}

/// The habit stored in a channel cell with palette slot `index`; slots past the last name
/// the last habit.
pub open spec fn spec_kind_from_index(index: u8) -> PieceKind {
    match index {
        0 => PieceKind::Tetra,
        1 => PieceKind::Cube,
        2 => PieceKind::Octa,
        3 => PieceKind::Dodeca,
        _ => PieceKind::Icosa,
    }
}

pub fn kind_from_index(index: u8) -> (r: PieceKind)
    ensures
        r == spec_kind_from_index(index),
{
    match index {
        0 => PieceKind::Tetra,
        1 => PieceKind::Cube,
        2 => PieceKind::Octa,
        3 => PieceKind::Dodeca,
        _ => PieceKind::Icosa,
    }
}

/// The drawing colour of each habit.
pub fn palette(kind: PieceKind) -> (r: &'static str)
    ensures
        kind is Tetra ==> r@ == "#6ee7b7"@,
        kind is Cube ==> r@ == "#f59e0b"@,
        kind is Octa ==> r@ == "#60a5fa"@,
        kind is Dodeca ==> r@ == "#f472b6"@,
        kind is Icosa ==> r@ == "#a78bfa"@,
{
    match kind {
        PieceKind::Tetra => "#6ee7b7",
        PieceKind::Cube => "#f59e0b",
        PieceKind::Octa => "#60a5fa",
        PieceKind::Dodeca => "#f472b6",
        PieceKind::Icosa => "#a78bfa",
    }
}

/// A channel cell painted with a habit's palette slot is drawn as that habit again.
pub proof fn lemma_palette_slot_roundtrip(kind: PieceKind)
    ensures
        spec_kind_from_index(spec_palette_index(kind)) == kind,
{
}

/// The piece that is falling: its habit, rotation and the board position of its frame.
#[derive(Clone, Copy, PartialEq, Eq, Structural, Debug)]
pub struct ActivePiece {
    pub kind: PieceKind,
    pub rotation: usize,
    pub x: i32,
    pub y: i32,
}

/// A bred genome offered to the player.
#[derive(Clone, Copy, Debug)]
pub struct Candidate {
    pub kind: PieceKind,
    pub rotation: usize,
    pub badge: &'static str,
    pub origin: &'static str,
    pub fitness: u8,
    pub mutation: u8,
}

/// What a phase asks the player to reach.
#[derive(Clone, Copy, PartialEq, Eq, Structural, Debug)]
pub enum ObjectiveKind {
    AccessibleVolume { target: usize },
    ProbeToVent { tier: usize },
    AdsorbPockets { target: usize },
}

/// One phase of the campaign.
pub struct LevelSpec {
    pub name: &'static str,
    pub subtitle: &'static str,
    pub objective: &'static str,
    pub phase_badge: &'static str,
    pub cue_title: &'static str,
    pub cue_text: &'static str,
    pub concept_title: &'static str,
    pub concept_text: &'static str,
    pub objective_kind: ObjectiveKind,
    pub turn_limit: usize,
    pub sources: &'static [(i32, i32)],
    pub outlets: &'static [(i32, i32)],
    pub pockets: &'static [(i32, i32)],
    pub walls: &'static [(i32, i32)],
    pub seeds: &'static [(i32, i32)],
}

/// The cells a piece of the given habit covers in its frame, for the rotation modulo four.
pub open spec fn spec_piece_cells(kind: PieceKind, rotation: usize) -> Seq<(i32, i32)> {
    let r = rotation % 4;
    match kind {
        PieceKind::Tetra => if r == 0 {
            seq![(1i32, 0i32), (0, 1), (1, 1), (2, 1)]
        } else if r == 1 {
            seq![(0i32, 0i32), (0, 1), (1, 1), (0, 2)]
        } else if r == 2 {
            seq![(0i32, 0i32), (1, 0), (2, 0), (1, 1)]
        } else {
            seq![(1i32, 0i32), (0, 1), (1, 1), (1, 2)]
        },
        PieceKind::Cube => seq![(0i32, 0i32), (1, 0), (0, 1), (1, 1)],
        PieceKind::Octa => seq![(1i32, 0i32), (0, 1), (1, 1), (2, 1), (1, 2)],
        PieceKind::Dodeca => if r == 0 {
            seq![(1i32, 0i32), (0, 1), (1, 1), (2, 1), (2, 2)]
        } else if r == 1 {
            seq![(1i32, 0i32), (1, 1), (2, 1), (0, 2), (1, 2)]
        } else if r == 2 {
            seq![(0i32, 0i32), (0, 1), (1, 1), (2, 1), (1, 2)]
        } else {
            seq![(1i32, 0i32), (0, 1), (1, 1), (1, 2), (2, 2)]
        },
        PieceKind::Icosa => if r == 0 {
            seq![(0i32, 1i32), (1, 0), (1, 1), (2, 1), (3, 1)]
        } else if r == 1 {
            seq![(1i32, 0i32), (1, 1), (1, 2), (0, 2), (2, 2)]
        } else if r == 2 {
            seq![(0i32, 0i32), (1, 0), (2, 0), (2, 1), (3, 0)]
        } else {
            seq![(1i32, 0i32), (0, 1), (1, 1), (1, 2), (1, 3)]
        },
    }
}

/// Cells `a` and `b` share a side.
pub open spec fn side_by_side(a: (i32, i32), b: (i32, i32)) -> bool {
    (a.0 == b.0 && (a.1 == b.1 + 1 || b.1 == a.1 + 1)) || (a.1 == b.1 && (a.0 == b.0 + 1 || b.0
        == a.0 + 1))
}

/// The cells hang together by their sides: a set that holds the first cell and, with every
/// cell it holds, each cell of the piece beside it, holds them all.
pub open spec fn piece_linked(cells: Seq<(i32, i32)>) -> bool {
    forall|s: Set<(i32, i32)>|
        #![trigger s.contains(cells[0])]
        s.contains(cells[0]) && (forall|i: int, j: int|
            #![trigger s.contains(cells[i]), cells[j]]
            0 <= i < cells.len() && 0 <= j < cells.len() && s.contains(cells[i]) && side_by_side(
                cells[i],
                cells[j],
            ) ==> s.contains(cells[j])) ==> forall|k: int| 0 <= k < cells.len() ==> s.contains(#[trigger] cells[k])
}

/// Every piece is a set of distinct cells that hang together by their sides, drawn in its
/// frame so that its lowest column and its lowest row are both 0.
pub proof fn lemma_piece_shape(kind: PieceKind, rotation: usize)
    ensures
        ({
            let c = spec_piece_cells(kind, rotation);
            &&& forall|i: int, j: int| 0 <= i < j < c.len() ==> c[i] != c[j]
            &&& forall|k: int| 0 <= k < c.len() ==> 0 <= (#[trigger] c[k]).0 && 0 <= c[k].1
            &&& exists|k: int| 0 <= k < c.len() && (#[trigger] c[k]).0 == 0
            &&& exists|k: int| 0 <= k < c.len() && (#[trigger] c[k]).1 == 0
            &&& piece_linked(c)
        }),
{
    let c = spec_piece_cells(kind, rotation);
    assert(c[0] == c[0]);
    assert(c[1] == c[1]);
    assert(c[2] == c[2]);
    assert(c[3] == c[3]);
    if c.len() > 4 {
        assert(c[4] == c[4]);
    }
    assert forall|s: Set<(i32, i32)>|
        #![trigger s.contains(c[0])]
        s.contains(c[0]) && (forall|i: int, j: int|
            #![trigger s.contains(c[i]), c[j]]
            0 <= i < c.len() && 0 <= j < c.len() && s.contains(c[i]) && side_by_side(c[i], c[j])
                ==> s.contains(c[j])) implies forall|k: int| 0 <= k < c.len() ==> s.contains(#[trigger] c[k]) by {
        assert(s.contains(c[1]) || true);
        assert(s.contains(c[2]) || true);
        assert(s.contains(c[3]) || true);
        assert(s.contains(c[1]) && s.contains(c[2]) && s.contains(c[3]));
        if c.len() > 4 {
            assert(s.contains(c[4]));
        }
    }
}

pub fn piece_cells(kind: PieceKind, rotation: usize) -> (r: &'static [(i32, i32)])
    ensures
        r@ == spec_piece_cells(kind, rotation),
{
    let turn = rotation % 4;
    match kind {
        PieceKind::Tetra => if turn == 0 {
            &[(1, 0), (0, 1), (1, 1), (2, 1)]
        } else if turn == 1 {
            &[(0, 0), (0, 1), (1, 1), (0, 2)]
        } else if turn == 2 {
            &[(0, 0), (1, 0), (2, 0), (1, 1)]
        } else {
            &[(1, 0), (0, 1), (1, 1), (1, 2)]
        },
        PieceKind::Cube => &[(0, 0), (1, 0), (0, 1), (1, 1)],
        PieceKind::Octa => &[(1, 0), (0, 1), (1, 1), (2, 1), (1, 2)],
        PieceKind::Dodeca => if turn == 0 {
            &[(1, 0), (0, 1), (1, 1), (2, 1), (2, 2)]
        } else if turn == 1 {
            &[(1, 0), (1, 1), (2, 1), (0, 2), (1, 2)]
        } else if turn == 2 {
            &[(0, 0), (0, 1), (1, 1), (2, 1), (1, 2)]
        } else {
            &[(1, 0), (0, 1), (1, 1), (1, 2), (2, 2)]
        },
        PieceKind::Icosa => if turn == 0 {
            &[(0, 1), (1, 0), (1, 1), (2, 1), (3, 1)]
        } else if turn == 1 {
            &[(1, 0), (1, 1), (1, 2), (0, 2), (2, 2)]
        } else if turn == 2 {
            &[(0, 0), (1, 0), (2, 0), (2, 1), (3, 0)]
        } else {
            &[(1, 0), (0, 1), (1, 1), (1, 2), (1, 3)]
        },
    }
}

/// Whether (x, y) lies on the board.
pub open spec fn on_board(x: int, y: int) -> bool {
    0 <= x < BOARD_W && 0 <= y < BOARD_H
}

/// Row-major index of (x, y), when it lies on the board.
pub open spec fn spec_index(x: int, y: int) -> Option<usize> {
    if on_board(x, y) {
        Some((y * BOARD_W + x) as usize)
    } else {
        None
    }
}

/// Column of a cell index.
pub open spec fn col_of(i: int) -> int {
    i % (BOARD_W as int)
}

/// Row of a cell index.
pub open spec fn row_of(i: int) -> int {
    i / (BOARD_W as int)
}

pub fn index(x: i32, y: i32) -> (r: Option<usize>)
    ensures
        r == spec_index(x as int, y as int),
        r matches Some(i) ==> i < board_len() && col_of(i as int) == x && row_of(i as int) == y,
{
    if x < 0 || y < 0 || x >= BOARD_W as i32 || y >= BOARD_H as i32 {
        return None;
    }
    Some(y as usize * BOARD_W + x as usize)
}

/// Every cell index is the index of exactly its own column and row, so the index of a
/// point on the board and the point of an index undo each other.
pub proof fn lemma_index_roundtrip(i: int)
    requires
        0 <= i < board_len(),
    ensures
        on_board(col_of(i), row_of(i)),
        spec_index(col_of(i), row_of(i)) == Some(i as usize),
{
}

/// Two points of the board never share an index.
pub proof fn lemma_index_injective(x1: int, y1: int, x2: int, y2: int)
    requires
        on_board(x1, y1),
        on_board(x2, y2),
        spec_index(x1, y1) == spec_index(x2, y2),
    ensures
        x1 == x2 && y1 == y2,
{
}

/// Whether some coordinate of `coords` names cell `i`.
pub open spec fn names_cell(coords: Seq<(i32, i32)>, i: int) -> bool {
    exists|k: int| 0 <= k < coords.len() && spec_index(coords[k].0 as int, coords[k].1 as int)
        == Some(i as usize)
}

/// The cell a phase starts with at index `i`: later layers win over earlier ones, in the order
/// walls, seeds, sources, outlets, pockets; everything else is matrix.
pub open spec fn spec_initial_cell(level: &LevelSpec, i: int) -> Cell {
    if names_cell(level.pockets@, i) {
        Cell::Pocket
    } else if names_cell(level.outlets@, i) {
        Cell::Outlet
    } else if names_cell(level.sources@, i) {
        Cell::Source
    } else if names_cell(level.seeds@, i) {
        Cell::Channel(0)
    } else if names_cell(level.walls@, i) {
        Cell::Wall
    } else {
        Cell::Matrix
    }
}

/// Paints `value` on every board cell that `coords` names.
fn paint(board: &mut Vec<Cell>, coords: &'static [(i32, i32)], value: Cell)
    requires
        old(board)@.len() == board_len(),
    ensures
        final(board)@.len() == board_len(),
        forall|i: int|
            0 <= i < board_len() ==> #[trigger] final(board)@[i] == if names_cell(coords@, i) {
                value
            } else {
                old(board)@[i]
            },
{
    let mut k: usize = 0;
    while k < coords.len()
        invariant
            k <= coords@.len(),
            board@.len() == board_len(),
            forall|i: int|
                0 <= i < board_len() ==> #[trigger] board@[i] == if names_cell(
                    coords@.subrange(0, k as int),
                    i,
                ) {
                    value
                } else {
                    old(board)@[i]
                },
        decreases coords@.len() - k,
    {
        let (x, y) = coords[k];
        let spot = index(x, y);
        if let Some(i) = spot {
            board.set(i, value);
        }
        proof {
            assert forall|j: int| 0 <= j < board_len() implies #[trigger] board@[j] == if names_cell(
                coords@.subrange(0, k + 1),
                j,
            ) {
                value
            } else {
                old(board)@[j]
            } by {
                let pre = coords@.subrange(0, k as int);
                let post = coords@.subrange(0, k + 1);
                if names_cell(pre, j) {
                    let w = choose|w: int|
                        0 <= w < pre.len() && spec_index(pre[w].0 as int, pre[w].1 as int) == Some(
                            j as usize,
                        );
                    assert(post[w] == pre[w]);
                }
                if names_cell(post, j) {
                    let w = choose|w: int|
                        0 <= w < post.len() && spec_index(post[w].0 as int, post[w].1 as int)
                            == Some(j as usize);
                    if w < k {
                        assert(pre[w] == post[w]);
                    }
                }
                if spot == Some(j as usize) {
                    assert(post[k as int] == coords@[k as int]);
                }
            }
        }
        k += 1;
    }
    assert(coords@.subrange(0, coords@.len() as int) =~= coords@);
}

pub fn initial_board(level: &LevelSpec) -> (board: Vec<Cell>)
    ensures
        board@.len() == board_len(),
        forall|i: int| 0 <= i < board_len() ==> #[trigger] board@[i] == spec_initial_cell(level, i),
{
    let mut board: Vec<Cell> = vec![Cell::Matrix; BOARD_W * BOARD_H];
    paint(&mut board, level.walls, Cell::Wall);
    paint(&mut board, level.seeds, Cell::Channel(0));
    paint(&mut board, level.sources, Cell::Source);
    paint(&mut board, level.outlets, Cell::Outlet);
    paint(&mut board, level.pockets, Cell::Pocket);
    board
}

/// Whether `level` carries exactly the given coordinate layers.
pub open spec fn has_layers(
    level: LevelSpec,
    sources: Seq<(i32, i32)>,
    outlets: Seq<(i32, i32)>,
    pockets: Seq<(i32, i32)>,
    walls: Seq<(i32, i32)>,
    seeds: Seq<(i32, i32)>,
) -> bool {
    &&& level.sources@ == sources
    &&& level.outlets@ == outlets
    &&& level.pockets@ == pockets
    &&& level.walls@ == walls
    &&& level.seeds@ == seeds
}

/// Whether `level` carries exactly the given texts.
pub open spec fn has_texts(level: LevelSpec, texts: Seq<Seq<char>>) -> bool {
    &&& texts.len() == 8
    &&& level.name@ == texts[0]
    &&& level.subtitle@ == texts[1]
    &&& level.objective@ == texts[2]
    &&& level.phase_badge@ == texts[3]
    &&& level.cue_title@ == texts[4]
    &&& level.cue_text@ == texts[5]
    &&& level.concept_title@ == texts[6]
    &&& level.concept_text@ == texts[7]
}

/// The campaign: three phases in order. Variation reaches 22 connected cells in 5 turns,
/// selection sends the tier-2 probe to the vent in 5 turns, and inheritance reaches 2
/// pockets in 6 turns; each with its exact layers and texts.
pub open spec fn campaign(r: Seq<LevelSpec>) -> bool {
    &&& r.len() == 3
    &&& r[0].objective_kind == (ObjectiveKind::AccessibleVolume { target: 22 })
    &&& r[0].turn_limit == 5
    &&& has_layers(
        r[0],
        seq![(4i32, 15i32), (5, 15)],
        seq![],
        seq![],
        seq![],
        seq![(4i32, 14i32), (5, 14)]
    )
    &&& has_texts(
        r[0],
        seq![
            "Phase 1 · Variation"@,
            "Breed open space from diverse crystal seeds."@,
            "Reach 22 connected cells."@,
            "Variation"@,
            "See it"@,
            "Only pore space touching the cyan inlet lights up and starts to shimmer."@,
            "Idea"@,
            "Evolution starts with variation. Different shapes create different pore volumes."@,
        ]
    )
    &&& r[1].objective_kind == (ObjectiveKind::ProbeToVent { tier: 2 })
    &&& r[1].turn_limit == 5
    &&& has_layers(
        r[1],
        seq![(4i32, 15i32), (5, 15)],
        seq![(4i32, 4i32), (5, 4)],
        seq![],
        seq![],
        seq![
            (4i32, 14i32),
            (5, 14),
            (4, 13),
            (5, 13),
            (4, 12),
            (5, 12),
            (4, 11),
            (5, 11),
            (4, 10),
            (5, 10),
        ]
    )
    &&& has_texts(
        r[1],
        seq![
            "Phase 2 · Selection"@,
            "Let narrow passages fail and wide throats survive."@,
            "Send the amber probe to the vent."@,
            "Selection"@,
            "See it"@,
            "Teal gas finds any route. Amber only survives a repeated wide throat."@,
            "Idea"@,
            "Selection pressure keeps only structures that pass the target guest."@,
        ]
    )
    &&& r[2].objective_kind == (ObjectiveKind::AdsorbPockets { target: 2 })
    &&& r[2].turn_limit == 6
    &&& has_layers(
        r[2],
        seq![(4i32, 15i32), (5, 15)],
        seq![],
        seq![(2i32, 9i32), (7, 9), (5, 5)],
        seq![],
        seq![(4i32, 14i32), (5, 14), (4, 13), (5, 13), (4, 12), (5, 12), (4, 11), (5, 11)]
    )
    &&& has_texts(
        r[2],
        seq![
            "Phase 3 · Inheritance"@,
            "Carry strong traits forward and branch into traps."@,
            "Light any 2 gold pockets."@,
            "Inheritance"@,
            "See it"@,
            "A pocket only flashes gold if the evolved network can truly reach it."@,
            "Idea"@,
            "Useful traits persist when inherited shapes can reach more adsorption sites."@,
        ]
    )
}

/// The three phases: variation (reach 22 connected cells in 5 turns), selection (send the
/// tier-2 probe to the vent in 5 turns) and inheritance (reach 2 pockets in 6 turns).
pub fn levels() -> (r: Vec<LevelSpec>)
    ensures
        campaign(r@),
{
    let first = LevelSpec {
        name: "Phase 1 · Variation",
        subtitle: "Breed open space from diverse crystal seeds.",
        objective: "Reach 22 connected cells.",
        phase_badge: "Variation",
        cue_title: "See it",
        cue_text: "Only pore space touching the cyan inlet lights up and starts to shimmer.",
        concept_title: "Idea",
        concept_text: "Evolution starts with variation. Different shapes create different pore volumes.",
        objective_kind: ObjectiveKind::AccessibleVolume { target: 22 },
        turn_limit: 5,
        sources: &[(4, 15), (5, 15)],
        outlets: &[],
        pockets: &[],
        walls: &[],
        seeds: &[(4, 14), (5, 14)],
    };
    let second = LevelSpec {
        name: "Phase 2 · Selection",
        subtitle: "Let narrow passages fail and wide throats survive.",
        objective: "Send the amber probe to the vent.",
        phase_badge: "Selection",
        cue_title: "See it",
        cue_text: "Teal gas finds any route. Amber only survives a repeated wide throat.",
        concept_title: "Idea",
        concept_text: "Selection pressure keeps only structures that pass the target guest.",
        objective_kind: ObjectiveKind::ProbeToVent { tier: 2 },
        turn_limit: 5,
        sources: &[(4, 15), (5, 15)],
        outlets: &[(4, 4), (5, 4)],
        pockets: &[],
        walls: &[],
        seeds: &[(4, 14), (5, 14), (4, 13), (5, 13), (4, 12), (5, 12), (4, 11), (5, 11), (4, 10), (5, 10)],
    };
    let third = LevelSpec {
        name: "Phase 3 · Inheritance",
        subtitle: "Carry strong traits forward and branch into traps.",
        objective: "Light any 2 gold pockets.",
        phase_badge: "Inheritance",
        cue_title: "See it",
        cue_text: "A pocket only flashes gold if the evolved network can truly reach it.",
        concept_title: "Idea",
        concept_text: "Useful traits persist when inherited shapes can reach more adsorption sites.",
        objective_kind: ObjectiveKind::AdsorbPockets { target: 2 },
        turn_limit: 6,
        sources: &[(4, 15), (5, 15)],
        outlets: &[],
        pockets: &[(2, 9), (7, 9), (5, 5)],
        walls: &[],
        seeds: &[(4, 14), (5, 14), (4, 13), (5, 13), (4, 12), (5, 12), (4, 11), (5, 11)],
    };
    assert(first.outlets@ =~= seq![]);
    assert(first.pockets@ =~= seq![]);
    assert(first.walls@ =~= seq![]);
    assert(second.pockets@ =~= seq![]);
    assert(second.walls@ =~= seq![]);
    assert(third.outlets@ =~= seq![]);
    assert(third.walls@ =~= seq![]);
    let mut all: Vec<LevelSpec> = Vec::new();
    all.push(first);
    all.push(second);
    all.push(third);
    all
}

} // verus!
