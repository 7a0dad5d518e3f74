//! Gas flow on the foundry board: which cells an inlet reaches, how wide the pore space is
//! around each cell, and whether a probe of a given size finds a route to a vent.
use vstd::prelude::*;

use crate::levels::{
    board_len, cell_open, col_of, index, on_board, row_of, spec_index, Cell, LevelSpec, BOARD_H,
    BOARD_W,
};

verus! {

/// Cells `i` and `j` of the board share an edge.
pub open spec fn adjacent(i: int, j: int) -> bool {
    &&& 0 <= i < board_len()
    &&& 0 <= j < board_len()
    &&& {
        ||| row_of(i) == row_of(j) && (col_of(i) == col_of(j) + 1 || col_of(j) == col_of(i) + 1)
        ||| col_of(i) == col_of(j) && (row_of(i) == row_of(j) + 1 || row_of(j) == row_of(i) + 1)
    }
}

/// The `d`-th neighbour of (x, y): left, right, up, down.
pub open spec fn spec_neighbor(x: int, y: int, d: int) -> (int, int) {
    if d == 0 {
        (x - 1, y)
    } else if d == 1 {
        (x + 1, y)
    } else if d == 2 {
        (x, y - 1)
    } else {
        (x, y + 1)
    }
}

/// Index of the `d`-th neighbour of (x, y), when it lies on the board.
pub open spec fn neighbor_index(x: int, y: int, d: int) -> Option<usize> {
    spec_index(spec_neighbor(x, y, d).0, spec_neighbor(x, y, d).1)
}

pub fn neighbors4(x: i32, y: i32) -> (r: [(i32, i32); 4])
    requires
        i32::MIN < x < i32::MAX,
        i32::MIN < y < i32::MAX,
    ensures
        forall|d: int|
            0 <= d < 4 ==> (#[trigger] r@[d]).0 as int == spec_neighbor(x as int, y as int, d).0
                && r@[d].1 as int == spec_neighbor(x as int, y as int, d).1,
{
    [(x - 1, y), (x + 1, y), (x, y - 1), (x, y + 1)]
}

/// The neighbours of an on-board cell that lie on the board are exactly the cells adjacent to it.
pub proof fn lemma_neighbors_are_adjacent(x: int, y: int)
    requires
        on_board(x, y),
    ensures
        forall|d: int|
            0 <= d < 4 && (#[trigger] neighbor_index(x, y, d)) is Some ==> adjacent(
                x + y * BOARD_W,
                neighbor_index(x, y, d)->0 as int,
            ),
        forall|j: int|
            #[trigger] adjacent(x + y * BOARD_W, j) ==> exists|d: int|
                0 <= d < 4 && #[trigger] neighbor_index(x, y, d) == Some(j as usize),
{
    let i = x + y * BOARD_W;
    assert(col_of(i) == x && row_of(i) == y);
    assert forall|d: int|
        0 <= d < 4 && (#[trigger] neighbor_index(x, y, d)) is Some implies adjacent(
        i,
        neighbor_index(x, y, d)->0 as int,
    ) by {
        let j = neighbor_index(x, y, d)->0 as int;
        let (nx, ny) = spec_neighbor(x, y, d);
        assert(j == ny * BOARD_W + nx);
        assert(col_of(j) == nx && row_of(j) == ny);
    }
    assert forall|j: int| #[trigger] adjacent(i, j) implies exists|d: int|
        0 <= d < 4 && #[trigger] neighbor_index(x, y, d) == Some(j as usize) by {
        let jx = col_of(j);
        let jy = row_of(j);
        assert(j == jy * BOARD_W + jx);
        if jy == y && jx + 1 == x {
            assert(neighbor_index(x, y, 0) == Some(j as usize));
        } else if jy == y && jx == x + 1 {
            assert(neighbor_index(x, y, 1) == Some(j as usize));
        } else if jx == x && jy + 1 == y {
            assert(neighbor_index(x, y, 2) == Some(j as usize));
        } else {
            assert(neighbor_index(x, y, 3) == Some(j as usize));
        }
    }
}

/// Adjacency does not depend on the order of the two cells.
pub proof fn lemma_adjacent_symmetric(i: int, j: int)
    ensures
        adjacent(i, j) == adjacent(j, i),
{
}

/// Cell index of a point, when it lies on the board.
pub open spec fn point_cell(p: (i32, i32)) -> Option<usize> {
    spec_index(p.0 as int, p.1 as int)
}

/// Whether a set of cells holds every allowed cell named by `sources` and, with each of its
/// cells, every allowed cell adjacent to it.
pub open spec fn flood_closed(
    sources: Seq<(i32, i32)>,
    allowed: spec_fn(int) -> bool,
    s: Set<int>,
) -> bool {
    &&& forall|k: int|
        0 <= k < sources.len() && (#[trigger] point_cell(sources[k])) is Some && allowed(
            point_cell(sources[k])->0 as int,
        ) ==> s.contains(point_cell(sources[k])->0 as int)
    &&& forall|i: int, j: int|
        #[trigger] s.contains(i) && #[trigger] adjacent(i, j) && allowed(j) ==> s.contains(j)
}

/// Cell `i` is reached by a flood from `sources` through allowed cells: it lies in every
/// set that such a flood cannot leave.
pub open spec fn in_flood(sources: Seq<(i32, i32)>, allowed: spec_fn(int) -> bool, i: int) -> bool {
    forall|s: Set<int>| #[trigger] flood_closed(sources, allowed, s) ==> s.contains(i)
}

/// The cells of the board that gas can stand in.
pub open spec fn open_cells(board: Seq<Cell>) -> spec_fn(int) -> bool {
    |i: int| 0 <= i < board.len() && i < board_len() && cell_open(board[i])
}

/// Number of `true` entries of a sequence.
pub open spec fn count_true(s: Seq<bool>) -> nat
    decreases s.len(),
{
    if s.len() == 0 {
        0
    } else {
        count_true(s.drop_last()) + if s.last() {
            1nat
        } else {
            0nat
        }
    }
}

pub(crate) proof fn lemma_count_bound(s: Seq<bool>)
    ensures
        count_true(s) <= s.len(),
    decreases s.len(),
{
    if s.len() > 0 {
        lemma_count_bound(s.drop_last());
    }
}

pub(crate) proof fn lemma_count_set(s: Seq<bool>, i: int)
    requires
        0 <= i < s.len(),
        !s[i],
    ensures
        count_true(s.update(i, true)) == count_true(s) + 1,
    decreases s.len(),
{
    let t = s.update(i, true);
    if i == s.len() - 1 {
        assert(t.drop_last() =~= s.drop_last());
    } else {
        lemma_count_set(s.drop_last(), i);
        assert(t.drop_last() =~= s.drop_last().update(i, true));
    }
}

/// The set of indices whose entry is `true`.
pub open spec fn true_set(s: Seq<bool>) -> Set<int> {
    Set::new(|i: int| 0 <= i < s.len() && s[i])
}

/// Flood state shared by the breadth-first searches: the queue of visited points, the
/// visit flags, and for every visited cell its place in the queue.
pub open spec fn queue_consistent(
    queue: Seq<(i32, i32)>,
    visited: Seq<bool>,
    pos: Seq<int>,
    allowed: spec_fn(int) -> bool,
) -> bool {
    &&& visited.len() == board_len()
    &&& pos.len() == board_len()
    &&& forall|k: int|
        0 <= k < queue.len() ==> on_board(#[trigger] queue[k].0 as int, queue[k].1 as int)
            && pos[queue[k].1 * BOARD_W + queue[k].0] == k
    &&& forall|i: int|
        0 <= i < board_len() && #[trigger] visited[i] ==> 0 <= pos[i] < queue.len() && queue[pos[i]].1
            * BOARD_W + queue[pos[i]].0 == i && allowed(i)
    &&& forall|k: int| 0 <= k < queue.len() ==> visited[#[trigger] queue[k].1 * BOARD_W + queue[k].0]
}

pub(crate) proof fn lemma_count_zero(s: Seq<bool>)
    requires
        forall|i: int| 0 <= i < s.len() ==> !s[i],
    ensures
        count_true(s) == 0,
    decreases s.len(),
{
    if s.len() > 0 {
        lemma_count_zero(s.drop_last());
    }
}

/// Cells that are open and whose clearance is at least `tier`.
pub open spec fn passable(board: Seq<Cell>, clearance: Seq<u8>, tier: u8) -> spec_fn(int) -> bool {
    |i: int| 0 <= i < board.len() && i < clearance.len() && cell_open(board[i]) && clearance[i] >= tier
}


/// Index of an on-board point.
pub open spec fn idx_of(p: (i32, i32)) -> int {
    p.1 * BOARD_W + p.0
}

/// Absolute value.
pub open spec fn abs(v: int) -> int {
    if v < 0 {
        -v
    } else {
        v
    }
}

/// Ranking key of a cell for a partial route: its row first (lower rows are nearer the
/// vents), then its distance from the vent column.
pub open spec fn route_key(i: int, center: int) -> (int, int) {
    (row_of(i), abs(col_of(i) - center))
}

/// Strict lexicographic order on keys.
pub open spec fn key_lt(a: (int, int), b: (int, int)) -> bool {
    a.0 < b.0 || (a.0 == b.0 && a.1 < b.1)
}

/// Whether some coordinate of `coords` names cell `i`.
pub open spec fn named(coords: Seq<(i32, i32)>, i: int) -> bool {
    exists|k: int| 0 <= k < coords.len() && #[trigger] point_cell(coords[k]) == Some(i as usize)
}

/// The predecessor links of a search: a visited cell without a link is a source, and a
/// link leads to an adjacent visited cell that was queued earlier.
pub open spec fn links_ok(
    visited: Seq<bool>,
    previous: Seq<Option<usize>>,
    pos: Seq<int>,
    sources: Seq<(i32, i32)>,
) -> bool {
    forall|i: int|
        0 <= i < board_len() && #[trigger] visited[i] ==> match previous[i] {
            None => named(sources, i),
            Some(p) => p < board_len() && visited[p as int] && adjacent(p as int, i) && pos[p as int]
                < pos[i],
        }
}

struct Exploration {
    visited: Vec<bool>,
    previous: Vec<Option<usize>>,
    found: Option<usize>,
    best: Option<usize>,
}

fn names_index(coords: &[(i32, i32)], cell: usize) -> (r: bool)
    ensures
        r == named(coords@, cell as int),
{
    let mut k: usize = 0;
    while k < coords.len()
        invariant
            k <= coords@.len(),
            forall|q: int|
                0 <= q < k ==> #[trigger] point_cell(coords@[q]) != Some(cell),
        decreases coords@.len() - k,
    {
        let (x, y) = coords[k];
        if index(x, y) == Some(cell) {
            proof {
                assert(point_cell(coords@[k as int]) == Some(cell));
            }
            return true;
        }
        k += 1;
    }
    false
}

/// Queues every allowed, unvisited neighbour of the dequeued cell (x, y), linking it back
/// to that cell.
#[verifier::rlimit(40)]
fn expand_neighbors(
    board: &[Cell],
    clearance: &[u8],
    tier: u8,
    sources: &[(i32, i32)],
    x: i32,
    y: i32,
    cell_index: usize,
    head: usize,
    visited: &mut Vec<bool>,
    previous: &mut Vec<Option<usize>>,
    queue: &mut Vec<(i32, i32)>,
    Ghost(pos0): Ghost<Seq<int>>,
) -> (new_pos: Ghost<Seq<int>>)
    requires
        board@.len() >= board_len(),
        clearance@.len() >= board_len(),
        on_board(x as int, y as int),
        cell_index as int == x + y * BOARD_W,
        head < old(queue)@.len(),
        old(queue)@[head as int] == (x, y),
        old(visited)@[cell_index as int],
        old(previous)@.len() == board_len(),
        queue_consistent(old(queue)@, old(visited)@, pos0, passable(board@, clearance@, tier)),
        old(queue)@.len() == count_true(old(visited)@),
        links_ok(old(visited)@, old(previous)@, pos0, sources@),
        forall|i: int| 0 <= i < board_len() && !#[trigger] old(visited)@[i] ==> old(previous)@[i] is None,
        forall|i: int|
            0 <= i < board_len() && #[trigger] old(visited)@[i] ==> in_flood(
                sources@,
                passable(board@, clearance@, tier),
                i,
            ),
    ensures
        final(previous)@.len() == board_len(),
        queue_consistent(final(queue)@, final(visited)@, new_pos@, passable(board@, clearance@, tier)),
        final(queue)@.len() == count_true(final(visited)@),
        links_ok(final(visited)@, final(previous)@, new_pos@, sources@),
        forall|i: int| 0 <= i < board_len() && !#[trigger] final(visited)@[i] ==> final(previous)@[i] is None,
        forall|i: int|
            0 <= i < board_len() && #[trigger] final(visited)@[i] ==> in_flood(
                sources@,
                passable(board@, clearance@, tier),
                i,
            ),
        forall|i: int| 0 <= i < board_len() && #[trigger] old(visited)@[i] ==> final(visited)@[i],
        forall|i: int|
            0 <= i < board_len() && #[trigger] old(visited)@[i] ==> new_pos@[i] == pos0[i],
        old(queue)@.len() <= final(queue)@.len(),
        forall|q: int| 0 <= q < old(queue)@.len() ==> #[trigger] final(queue)@[q] == old(queue)@[q],
        forall|j: int|
            #[trigger] adjacent(cell_index as int, j) && passable(board@, clearance@, tier)(j)
                ==> final(visited)@[j],
        forall|i: int|
            0 <= i < board_len() && #[trigger] old(visited)@[i] ==> final(previous)@[i] == old(
                previous,
            )@[i],
        forall|i: int|
            0 <= i < board_len() && #[trigger] final(visited)@[i] && !old(visited)@[i]
                ==> final(previous)@[i] == Some(cell_index),
{
    let ghost allowed = passable(board@, clearance@, tier);
    let ghost old_previous = previous@;
    let ghost old_visited = visited@;
    let ghost old_pos = pos0;
    let ghost mut pos = pos0;
    let ghost old_queue = queue@;
        let nb = neighbors4(x, y);
        proof {
            lemma_neighbors_are_adjacent(x as int, y as int);
        }
        let mut d: usize = 0;
        while d < 4
            invariant
                d <= 4,
                head < queue@.len(),
                forall|i: int| 0 <= i < board_len() && #[trigger] old_visited[i] ==> visited@[i],
                forall|i: int| 0 <= i < board_len() && #[trigger] old_visited[i] ==> pos[i] == old_pos[i],
                forall|i: int|
                    0 <= i < board_len() && #[trigger] old_visited[i] ==> previous@[i] == old_previous[i],
                forall|i: int|
                    0 <= i < board_len() && #[trigger] visited@[i] && !old_visited[i] ==> previous@[i]
                        == Some(cell_index),
                old_queue.len() <= queue@.len(),
                forall|q: int| 0 <= q < old_queue.len() ==> #[trigger] queue@[q] == old_queue[q],
                on_board(x as int, y as int),
                cell_index as int == x + y * BOARD_W,
                queue@[head as int] == (x, y),
                pos[cell_index as int] == head,
                visited@[cell_index as int],
                forall|e: int|
                    0 <= e < 4 ==> (#[trigger] nb@[e]).0 as int == spec_neighbor(x as int, y as int, e).0
                        && nb@[e].1 as int == spec_neighbor(x as int, y as int, e).1,
                board@.len() >= board_len(),
                clearance@.len() >= board_len(),
                allowed == passable(board@, clearance@, tier),
                previous@.len() == board_len(),
                queue_consistent(queue@, visited@, pos, allowed),
                queue@.len() == count_true(visited@),
                links_ok(visited@, previous@, pos, sources@),
                forall|i: int| 0 <= i < board_len() && !#[trigger] visited@[i] ==> previous@[i] is None,
            forall|i: int| 0 <= i < board_len() && !#[trigger] visited@[i] ==> previous@[i] is None,
                forall|i: int|
                    0 <= i < board_len() && #[trigger] visited@[i] ==> in_flood(sources@, allowed, i),
                forall|e: int|
                    0 <= e < d && (#[trigger] neighbor_index(x as int, y as int, e)) is Some && allowed(
                        neighbor_index(x as int, y as int, e)->0 as int,
                    ) ==> visited@[neighbor_index(x as int, y as int, e)->0 as int],
            decreases 4 - d,
        {
            let (nx, ny) = nb[d];
            if let Some(next_index) = index(nx, ny) {
                if !visited[next_index] && board[next_index].is_open() && clearance[next_index]
                    >= tier {
                    proof {
                        lemma_count_set(visited@, next_index as int);
                        lemma_count_bound(visited@);
                        assert(neighbor_index(x as int, y as int, d as int) == Some(next_index));
                        assert(adjacent(cell_index as int, next_index as int));
                        assert forall|s: Set<int>| #[trigger]
                            flood_closed(sources@, allowed, s) implies s.contains(
                            next_index as int,
                        ) by {
                            assert(s.contains(cell_index as int));
                        }
                        pos = pos.update(next_index as int, queue@.len() as int);
                    }
                    visited.set(next_index, true);
                    previous.set(next_index, Some(cell_index));
                    queue.push((nx, ny));
                }
            }
            d += 1;
        }
    proof {
        assert forall|j: int|
            #[trigger] adjacent(cell_index as int, j) && allowed(j) implies visited@[j] by {
            let e = choose|e: int|
                0 <= e < 4 && #[trigger] neighbor_index(x as int, y as int, e) == Some(j as usize);
        }
    }
    Ghost(pos)
}

/// Cell `j` is reached in at most `n` steps: it is an allowed cell named by `sources`, or an
/// allowed cell adjacent to one reached in one step fewer.
pub open spec fn within(sources: Seq<(i32, i32)>, allowed: spec_fn(int) -> bool, j: int, n: int) -> bool
    decreases n,
{
    if n < 0 {
        false
    } else if n == 0 {
        0 <= j < board_len() && named(sources, j) && allowed(j)
    } else {
        within(sources, allowed, j, n - 1) || exists|p: int|
            #[trigger] adjacent(p, j) && allowed(j) && within(sources, allowed, p, n - 1)
    }
}

proof fn lemma_within_range(sources: Seq<(i32, i32)>, allowed: spec_fn(int) -> bool, j: int, n: int)
    requires
        within(sources, allowed, j, n),
    ensures
        0 <= j < board_len(),
        n >= 0,
    decreases n,
{
    if n > 0 && within(sources, allowed, j, n - 1) {
        lemma_within_range(sources, allowed, j, n - 1);
    }
}

proof fn lemma_within_mono(sources: Seq<(i32, i32)>, allowed: spec_fn(int) -> bool, j: int, m: int, n: int)
    requires
        within(sources, allowed, j, m),
        m <= n,
    ensures
        within(sources, allowed, j, n),
    decreases n - m,
{
    if m < n {
        lemma_within_mono(sources, allowed, j, m, n - 1);
    }
}

/// A route of `path.len()` cells reaches its last cell within one step fewer.
proof fn lemma_route_within(path: Seq<(i32, i32)>, sources: Seq<(i32, i32)>, allowed: spec_fn(int) -> bool)
    requires
        is_route(path, sources, allowed),
    ensures
        within(sources, allowed, idx_of(path.last()), path.len() - 1),
    decreases path.len(),
{
    if path.len() == 1 {
        let k = choose|k: int| 0 <= k < sources.len() && #[trigger] point_cell(sources[k]) == Some(
            idx_of(path[0]) as usize,
        );
        assert(on_board(path[0].0 as int, path[0].1 as int));
    } else {
        let prefix = path.drop_last();
        assert(is_route(prefix, sources, allowed)) by {
            assert forall|k: int| 0 <= k < prefix.len() implies on_board(
                #[trigger] prefix[k].0 as int,
                prefix[k].1 as int,
            ) && allowed(idx_of(prefix[k])) by {
                assert(prefix[k] == path[k]);
            }
            assert forall|k: int| 0 <= k < prefix.len() - 1 implies adjacent(
                #[trigger] idx_of(prefix[k]),
                idx_of(prefix[k + 1]),
            ) by {
                assert(prefix[k] == path[k] && prefix[k + 1] == path[k + 1]);
                assert(adjacent(idx_of(path[k]), idx_of(path[k + 1])));
            }
        }
        lemma_route_within(prefix, sources, allowed);
        let p = idx_of(prefix.last());
        let j = idx_of(path.last());
        assert(adjacent(idx_of(path[path.len() - 2]), idx_of(path[path.len() - 1])));
        assert(adjacent(p, j) && allowed(j) && within(sources, allowed, p, path.len() - 2));
    }
}

/// Every visited cell sits one step deeper than the cell it was reached from; a cell reached
/// from no other (a source) sits at depth 0.
pub open spec fn depth_links(visited: Seq<bool>, previous: Seq<Option<usize>>, dep: Seq<int>) -> bool {
    &&& dep.len() == board_len()
    &&& forall|i: int| 0 <= i < board_len() && #[trigger] visited[i] ==> dep[i] >= 0
    &&& forall|i: int|
        0 <= i < board_len() && #[trigger] visited[i] ==> match previous[i] {
            None => dep[i] == 0,
            Some(p) => p < board_len() && visited[p as int] && dep[i] == dep[p as int] + 1,
        }
}

/// A cell reached within any number of steps lies in every set that the flood cannot leave.
proof fn lemma_within_closed(
    sources: Seq<(i32, i32)>,
    allowed: spec_fn(int) -> bool,
    s: Set<int>,
    j: int,
    n: int,
)
    requires
        flood_closed(sources, allowed, s),
        within(sources, allowed, j, n),
    ensures
        s.contains(j),
    decreases n,
{
    if n == 0 {
        let k = choose|k: int| 0 <= k < sources.len() && #[trigger] point_cell(sources[k]) == Some(
            j as usize,
        );
    } else if within(sources, allowed, j, n - 1) {
        lemma_within_closed(sources, allowed, s, j, n - 1);
    } else {
        let p = choose|p: int| #[trigger] adjacent(p, j) && allowed(j) && within(sources, allowed, p, n - 1);
        lemma_within_closed(sources, allowed, s, p, n - 1);
    }
}

/// Depths never fall along the queue.
pub open spec fn layered(queue: Seq<(i32, i32)>, dep: Seq<int>) -> bool {
    forall|q1: int, q2: int|
        #![trigger queue[q1], queue[q2]]
        0 <= q1 <= q2 < queue.len() ==> dep[idx_of(queue[q1])] <= dep[idx_of(queue[q2])]
}

/// From the head on, the queue spans at most two depths.
pub open spec fn narrow_from(queue: Seq<(i32, i32)>, dep: Seq<int>, head: int) -> bool {
    head < queue.len() ==> forall|q: int|
        head <= q < queue.len() ==> dep[idx_of(#[trigger] queue[q])] <= dep[idx_of(queue[head])] + 1
}

/// Every cell reached within the depth of the head is visited.
pub open spec fn covered(
    sources: Seq<(i32, i32)>,
    allowed: spec_fn(int) -> bool,
    visited: Seq<bool>,
    queue: Seq<(i32, i32)>,
    dep: Seq<int>,
    head: int,
) -> bool {
    head < queue.len() ==> forall|j: int|
        #[trigger] within(sources, allowed, j, dep[idx_of(queue[head])]) ==> 0 <= j < board_len()
            && visited[j]
}

/// The depth of a visited cell is the fewest steps that reach it.
pub open spec fn depth_minimal(
    sources: Seq<(i32, i32)>,
    allowed: spec_fn(int) -> bool,
    visited: Seq<bool>,
    dep: Seq<int>,
) -> bool {
    forall|j: int, n: int|
        0 <= j < board_len() && visited[j] && #[trigger] within(sources, allowed, j, n) ==> dep[j] <= n
}

/// Depths after expanding a cell of depth `dh`: the newly visited cells sit at `dh + 1`.
pub open spec fn deepened(vis0: Seq<bool>, vis1: Seq<bool>, dep0: Seq<int>, dh: int) -> Seq<int> {
    Seq::new(
        board_len() as nat,
        |i: int|
            if vis1[i] && !vis0[i] {
                dh + 1
            } else {
                dep0[i]
            },
    )
}

/// The entries an expansion adds to the queue are the cells it newly visited.
proof fn lemma_new_entries(
    allowed: spec_fn(int) -> bool,
    vis0: Seq<bool>,
    vis1: Seq<bool>,
    queue0: Seq<(i32, i32)>,
    queue1: Seq<(i32, i32)>,
    pos0: Seq<int>,
    pos1: Seq<int>,
)
    requires
        queue_consistent(queue0, vis0, pos0, allowed),
        queue_consistent(queue1, vis1, pos1, allowed),
        queue0.len() <= queue1.len(),
        forall|q: int| 0 <= q < queue0.len() ==> #[trigger] queue1[q] == queue0[q],
        forall|i: int| 0 <= i < board_len() && #[trigger] vis0[i] ==> pos1[i] == pos0[i],
    ensures
        forall|q: int|
            queue0.len() <= q < queue1.len() ==> #[trigger] vis1[idx_of(queue1[q])] && !vis0[idx_of(
                queue1[q],
            )] && 0 <= idx_of(queue1[q]) < board_len(),
        forall|q: int|
            0 <= q < queue0.len() ==> #[trigger] vis0[idx_of(queue1[q])] && 0 <= idx_of(queue1[q])
                < board_len(),
{
    assert forall|q: int| queue0.len() <= q < queue1.len() implies #[trigger] vis1[idx_of(queue1[q])]
        && !vis0[idx_of(queue1[q])] && 0 <= idx_of(queue1[q]) < board_len() by {
        let i = idx_of(queue1[q]);
        assert(vis1[queue1[q].1 * BOARD_W + queue1[q].0]);
        assert(pos1[i] == q);
        if vis0[i] {
            assert(pos1[i] == pos0[i]);
        }
    }
    assert forall|q: int| 0 <= q < queue0.len() implies #[trigger] vis0[idx_of(queue1[q])] && 0 <= idx_of(
        queue1[q],
    ) < board_len() by {
        assert(queue1[q] == queue0[q]);
        assert(vis0[queue0[q].1 * BOARD_W + queue0[q].0]);
    }
}

/// After the expansion the queue still never falls in depth, and from the next head on it
/// spans at most two depths.
proof fn lemma_queue_depths(
    vis0: Seq<bool>,
    vis1: Seq<bool>,
    queue0: Seq<(i32, i32)>,
    queue1: Seq<(i32, i32)>,
    dep0: Seq<int>,
    head: int,
)
    requires
        0 <= head < queue0.len() <= queue1.len(),
        forall|q: int| 0 <= q < queue0.len() ==> #[trigger] queue1[q] == queue0[q],
        forall|q: int|
            queue0.len() <= q < queue1.len() ==> #[trigger] vis1[idx_of(queue1[q])] && !vis0[idx_of(
                queue1[q],
            )] && 0 <= idx_of(queue1[q]) < board_len(),
        forall|q: int|
            0 <= q < queue0.len() ==> #[trigger] vis0[idx_of(queue1[q])] && 0 <= idx_of(queue1[q])
                < board_len(),
        layered(queue0, dep0),
        narrow_from(queue0, dep0, head),
    ensures
        ({
            let dh = dep0[idx_of(queue0[head])];
            let dep1 = deepened(vis0, vis1, dep0, dh);
            &&& forall|q: int|
                0 <= q < queue1.len() ==> #[trigger] dep1[idx_of(queue1[q])] <= dh + 1 && (q >= head
                    ==> dep1[idx_of(queue1[q])] >= dh) && (q < queue0.len() ==> dep1[idx_of(queue1[q])]
                    == dep0[idx_of(queue0[q])]) && (q >= queue0.len() ==> dep1[idx_of(queue1[q])] == dh + 1)
            &&& layered(queue1, dep1)
            &&& narrow_from(queue1, dep1, head + 1)
        }),
{
    let dh = dep0[idx_of(queue0[head])];
    let dep1 = deepened(vis0, vis1, dep0, dh);
    assert forall|q: int| 0 <= q < queue1.len() implies #[trigger] dep1[idx_of(queue1[q])] <= dh + 1 && (q
        >= head ==> dep1[idx_of(queue1[q])] >= dh) && (q < queue0.len() ==> dep1[idx_of(queue1[q])]
        == dep0[idx_of(queue0[q])]) && (q >= queue0.len() ==> dep1[idx_of(queue1[q])] == dh + 1) by {
        if q < queue0.len() {
            assert(queue1[q] == queue0[q]);
            assert(vis0[idx_of(queue1[q])]);
            if q >= head {
                assert(dep0[idx_of(queue0[q])] <= dep0[idx_of(queue0[head])] + 1);
                assert(dep0[idx_of(queue0[head])] <= dep0[idx_of(queue0[q])]);
            } else {
                assert(dep0[idx_of(queue0[q])] <= dep0[idx_of(queue0[head])]);
            }
        } else {
            assert(vis1[idx_of(queue1[q])] && !vis0[idx_of(queue1[q])]);
        }
    }
    assert forall|q1: int, q2: int|
        #![trigger queue1[q1], queue1[q2]]
        0 <= q1 <= q2 < queue1.len() implies dep1[idx_of(queue1[q1])] <= dep1[idx_of(queue1[q2])] by {
        assert(dep1[idx_of(queue1[q1])] <= dh + 1);
        assert(dep1[idx_of(queue1[q2])] <= dh + 1);
        if q2 < queue0.len() {
            assert(queue0[q1] == queue1[q1] && queue0[q2] == queue1[q2]);
            assert(dep0[idx_of(queue0[q1])] <= dep0[idx_of(queue0[q2])]);
        } else if q1 >= queue0.len() {
        } else {
            assert(vis1[idx_of(queue1[q2])] && !vis0[idx_of(queue1[q2])]);
        }
    }
    if head + 1 < queue1.len() {
        assert(dep1[idx_of(queue1[head + 1])] >= dh);
        assert forall|q: int| head + 1 <= q < queue1.len() implies dep1[idx_of(#[trigger] queue1[q])]
            <= dep1[idx_of(queue1[head + 1])] + 1 by {
            assert(dep1[idx_of(queue1[q])] <= dh + 1);
        }
    }
}

/// The expansion keeps every cell one step deeper than the cell it came from.
proof fn lemma_links_deepen(
    vis0: Seq<bool>,
    vis1: Seq<bool>,
    prev0: Seq<Option<usize>>,
    prev1: Seq<Option<usize>>,
    dep0: Seq<int>,
    c: int,
)
    requires
        0 <= c < board_len(),
        vis0[c],
        forall|i: int| 0 <= i < board_len() && #[trigger] vis0[i] ==> vis1[i],
        forall|i: int| 0 <= i < board_len() && #[trigger] vis0[i] ==> prev1[i] == prev0[i],
        forall|i: int|
            0 <= i < board_len() && #[trigger] vis1[i] && !vis0[i] ==> prev1[i] == Some(c as usize),
        depth_links(vis0, prev0, dep0),
    ensures
        depth_links(vis1, prev1, deepened(vis0, vis1, dep0, dep0[c])),
{
    let dep1 = deepened(vis0, vis1, dep0, dep0[c]);
    assert forall|i: int| 0 <= i < board_len() && #[trigger] vis1[i] implies match prev1[i] {
        None => dep1[i] == 0,
        Some(p) => p < board_len() && vis1[p as int] && dep1[i] == dep1[p as int] + 1,
    } by {
        if vis0[i] {
            assert(prev1[i] == prev0[i]);
            match prev0[i] {
                None => {},
                Some(p) => {
                    assert(vis0[p as int]);
                },
            }
        } else {
            assert(prev1[i] == Some(c as usize));
        }
    }
}

/// The expansion gives newly visited cells the fewest steps that reach them.
proof fn lemma_minimal_deepen(
    sources: Seq<(i32, i32)>,
    allowed: spec_fn(int) -> bool,
    vis0: Seq<bool>,
    vis1: Seq<bool>,
    queue0: Seq<(i32, i32)>,
    dep0: Seq<int>,
    head: int,
)
    requires
        0 <= head < queue0.len(),
        covered(sources, allowed, vis0, queue0, dep0, head),
        depth_minimal(sources, allowed, vis0, dep0),
    ensures
        depth_minimal(sources, allowed, vis1, deepened(vis0, vis1, dep0, dep0[idx_of(queue0[head])])),
{
    let dh = dep0[idx_of(queue0[head])];
    let dep1 = deepened(vis0, vis1, dep0, dh);
    assert forall|j: int, n: int|
        0 <= j < board_len() && vis1[j] && #[trigger] within(sources, allowed, j, n) implies dep1[j] <= n by {
        if !vis0[j] {
            if n <= dh {
                lemma_within_mono(sources, allowed, j, n, dh);
                assert(within(sources, allowed, j, dep0[idx_of(queue0[head])]));
            }
        }
    }
}

/// After the expansion every cell within the next head's depth is visited.
#[verifier::rlimit(40)]
proof fn lemma_covered_deepen(
    sources: Seq<(i32, i32)>,
    allowed: spec_fn(int) -> bool,
    vis0: Seq<bool>,
    vis1: Seq<bool>,
    queue0: Seq<(i32, i32)>,
    queue1: Seq<(i32, i32)>,
    pos0: Seq<int>,
    dep0: Seq<int>,
    dep1: Seq<int>,
    head: int,
)
    requires
        0 <= head < queue0.len() <= queue1.len(),
        queue_consistent(queue0, vis0, pos0, allowed),
        forall|q: int| 0 <= q < queue0.len() ==> #[trigger] queue1[q] == queue0[q],
        forall|i: int| 0 <= i < board_len() && #[trigger] vis0[i] ==> vis1[i],
        forall|j: int| #[trigger] adjacent(idx_of(queue0[head]), j) && allowed(j) ==> vis1[j],
        forall|q: int, j: int|
            0 <= q < head && #[trigger] adjacent(idx_of(queue0[q]), j) && allowed(j) ==> vis0[j],
        forall|q: int|
            0 <= q < queue1.len() ==> #[trigger] dep1[idx_of(queue1[q])] <= dep0[idx_of(queue0[head])] + 1
                && (q >= head ==> dep1[idx_of(queue1[q])] >= dep0[idx_of(queue0[head])]) && (q
                < queue0.len() ==> dep1[idx_of(queue1[q])] == dep0[idx_of(queue0[q])]),
        layered(queue1, dep1),
        covered(sources, allowed, vis0, queue0, dep0, head),
        depth_minimal(sources, allowed, vis0, dep0),
        dep0[idx_of(queue0[head])] >= 0,
    ensures
        covered(sources, allowed, vis1, queue1, dep1, head + 1),
{
    let dh = dep0[idx_of(queue0[head])];
    if head + 1 < queue1.len() {
        let d2 = dep1[idx_of(queue1[head + 1])];
        assert(dh <= d2 <= dh + 1);
        assert forall|j: int| #[trigger] within(sources, allowed, j, d2) implies 0 <= j < board_len()
            && vis1[j] by {
            lemma_within_range(sources, allowed, j, d2);
            if d2 == dh {
                assert(within(sources, allowed, j, dep0[idx_of(queue0[head])]));
                assert(vis0[j]);
            } else if within(sources, allowed, j, dh) {
                assert(within(sources, allowed, j, dep0[idx_of(queue0[head])]));
                assert(vis0[j]);
            } else {
                assert(exists|p: int|
                    #[trigger] adjacent(p, j) && allowed(j) && within(sources, allowed, p, d2 - 1));
                let p = choose|p: int|
                    #[trigger] adjacent(p, j) && allowed(j) && within(sources, allowed, p, d2 - 1);
                assert(d2 - 1 == dh);
                assert(within(sources, allowed, p, dep0[idx_of(queue0[head])]));
                lemma_within_range(sources, allowed, p, dh);
                assert(vis0[p]);
                assert(dep0[p] <= dh);
                let q = pos0[p];
                assert(0 <= q < queue0.len() && queue0[q].1 * BOARD_W + queue0[q].0 == p);
                if q > head {
                    assert(queue1[q] == queue0[q]);
                    assert(dep1[idx_of(queue1[head + 1])] <= dep1[idx_of(queue1[q])]);
                    assert(dep1[idx_of(queue1[q])] == dep0[idx_of(queue0[q])]);
                } else if q == head {
                    assert(adjacent(idx_of(queue0[head]), j));
                } else {
                    assert(adjacent(idx_of(queue0[q]), j));
                }
            }
        }
    }
}

/// One dequeue and expansion keeps the search breadth-first: the cells queued from the head
/// sit one step deeper, and every cell within the new head's depth is visited.
proof fn lemma_advance(
    sources: Seq<(i32, i32)>,
    allowed: spec_fn(int) -> bool,
    vis0: Seq<bool>,
    vis1: Seq<bool>,
    prev0: Seq<Option<usize>>,
    prev1: Seq<Option<usize>>,
    queue0: Seq<(i32, i32)>,
    queue1: Seq<(i32, i32)>,
    pos0: Seq<int>,
    pos1: Seq<int>,
    dep0: Seq<int>,
    head: int,
) -> (dep1: Seq<int>)
    requires
        0 <= head < queue0.len(),
        queue_consistent(queue0, vis0, pos0, allowed),
        queue_consistent(queue1, vis1, pos1, allowed),
        queue0.len() <= queue1.len(),
        forall|q: int| 0 <= q < queue0.len() ==> #[trigger] queue1[q] == queue0[q],
        forall|i: int| 0 <= i < board_len() && #[trigger] vis0[i] ==> vis1[i],
        forall|i: int| 0 <= i < board_len() && #[trigger] vis0[i] ==> pos1[i] == pos0[i],
        forall|i: int| 0 <= i < board_len() && #[trigger] vis0[i] ==> prev1[i] == prev0[i],
        forall|i: int|
            0 <= i < board_len() && #[trigger] vis1[i] && !vis0[i] ==> prev1[i] == Some(
                idx_of(queue0[head]) as usize,
            ),
        forall|j: int| #[trigger] adjacent(idx_of(queue0[head]), j) && allowed(j) ==> vis1[j],
        forall|q: int, j: int|
            0 <= q < head && #[trigger] adjacent(idx_of(queue0[q]), j) && allowed(j) ==> vis0[j],
        depth_links(vis0, prev0, dep0),
        layered(queue0, dep0),
        narrow_from(queue0, dep0, head),
        covered(sources, allowed, vis0, queue0, dep0, head),
        depth_minimal(sources, allowed, vis0, dep0),
    ensures
        depth_links(vis1, prev1, dep1),
        layered(queue1, dep1),
        narrow_from(queue1, dep1, head + 1),
        covered(sources, allowed, vis1, queue1, dep1, head + 1),
        depth_minimal(sources, allowed, vis1, dep1),
        forall|i: int| 0 <= i < board_len() && #[trigger] vis0[i] ==> dep1[i] == dep0[i],
{
    let c = idx_of(queue0[head]);
    let dh = dep0[c];
    let dep1 = deepened(vis0, vis1, dep0, dh);
    lemma_new_entries(allowed, vis0, vis1, queue0, queue1, pos0, pos1);
    assert(vis0[c] && 0 <= c < board_len());
    lemma_queue_depths(vis0, vis1, queue0, queue1, dep0, head);
    lemma_links_deepen(vis0, vis1, prev0, prev1, dep0, c);
    lemma_minimal_deepen(sources, allowed, vis0, vis1, queue0, dep0, head);
    lemma_covered_deepen(sources, allowed, vis0, vis1, queue0, queue1, pos0, dep0, dep1, head);
    dep1
}

/// The first outlet the breadth-first search dequeues is nearest: no outlet is reached in
/// fewer steps than its depth.
proof fn lemma_first_outlet_nearest(
    sources: Seq<(i32, i32)>,
    allowed: spec_fn(int) -> bool,
    outlets: Seq<(i32, i32)>,
    visited: Seq<bool>,
    queue: Seq<(i32, i32)>,
    pos: Seq<int>,
    dep: Seq<int>,
    head: int,
)
    requires
        0 <= head < queue.len(),
        queue_consistent(queue, visited, pos, allowed),
        layered(queue, dep),
        covered(sources, allowed, visited, queue, dep, head),
        depth_minimal(sources, allowed, visited, dep),
        forall|q: int| 0 <= q < head ==> !named(outlets, #[trigger] idx_of(queue[q])),
    ensures
        forall|j: int, n: int|
            #[trigger] within(sources, allowed, j, n) && named(outlets, j) ==> dep[idx_of(queue[head])] <= n,
{
    let dh = dep[idx_of(queue[head])];
    assert forall|j: int, n: int|
        #[trigger] within(sources, allowed, j, n) && named(outlets, j) implies dh <= n by {
        if n < dh {
            lemma_within_mono(sources, allowed, j, n, dh);
            assert(visited[j]);
            assert(dep[j] <= n);
            let q = pos[j];
            assert(0 <= q < queue.len() && queue[q].1 * BOARD_W + queue[q].0 == j);
            if q >= head {
                assert(dep[idx_of(queue[head])] <= dep[idx_of(queue[q])]);
            } else {
                assert(!named(outlets, idx_of(queue[q])));
            }
        }
    }
}

/// Breadth-first search from the allowed sources through allowed cells, stopping at the
/// first dequeued cell that an outlet names.
#[verifier::rlimit(100)]
#[verifier::spinoff_prover]
fn explore(
    board: &[Cell],
    clearance: &[u8],
    tier: u8,
    sources: &[(i32, i32)],
    outlets: &[(i32, i32)],
    center: i32,
) -> (res: (Exploration, Ghost<Seq<int>>, Ghost<Seq<int>>))
    requires
        board@.len() >= board_len(),
        clearance@.len() >= board_len(),
    ensures
        res.0.visited@.len() == board_len(),
        res.0.previous@.len() == board_len(),
        forall|i: int|
            0 <= i < board_len() && #[trigger] res.0.visited@[i] ==> passable(board@, clearance@, tier)(
                i,
            ) && in_flood(sources@, passable(board@, clearance@, tier), i),
        links_ok(res.0.visited@, res.0.previous@, res.1@, sources@),
        res.1@.len() == board_len(),
        forall|i: int| 0 <= i < board_len() && #[trigger] res.0.visited@[i] ==> res.1@[i] >= 0,
        res.0.found matches Some(o) ==> o < board_len() && res.0.visited@[o as int] && named(
            outlets@,
            o as int,
        ),
        depth_links(res.0.visited@, res.0.previous@, res.2@),
        depth_minimal(sources@, passable(board@, clearance@, tier), res.0.visited@, res.2@),
        res.0.found is None ==> (res.0.best matches Some(b) ==> forall|i: int, n: int|
            #[trigger] within(sources@, passable(board@, clearance@, tier), i, n) && route_key(
                i,
                center as int,
            ) == route_key(b as int, center as int) ==> res.2@[b as int] <= n),
        res.0.found matches Some(o) ==> forall|j: int, n: int|
            #[trigger] within(sources@, passable(board@, clearance@, tier), j, n) && named(outlets@, j)
                ==> res.2@[o as int] <= n,
        res.0.found is None ==> flood_closed(
            sources@,
            passable(board@, clearance@, tier),
            true_set(res.0.visited@),
        ),
        res.0.found is None ==> forall|i: int|
            0 <= i < board_len() && #[trigger] res.0.visited@[i] ==> !named(outlets@, i),
        res.0.found is None && res.0.best is None ==> forall|i: int|
            0 <= i < board_len() ==> !#[trigger] res.0.visited@[i],
        res.0.found is None ==> (res.0.best matches Some(b) ==> b < board_len()
            && res.0.visited@[b as int] && forall|i: int|
            0 <= i < board_len() && #[trigger] res.0.visited@[i] ==> !key_lt(
                route_key(i, center as int),
                route_key(b as int, center as int),
            )),
{
    let ghost allowed = passable(board@, clearance@, tier);
    let mut visited: Vec<bool> = vec![false; BOARD_W * BOARD_H];
    let mut previous: Vec<Option<usize>> = vec![None; BOARD_W * BOARD_H];
    let mut queue: Vec<(i32, i32)> = Vec::new();
    let ghost mut pos: Seq<int> = Seq::new(board_len() as nat, |i: int| 0);
    proof {
        lemma_count_zero(visited@);
    }
    let mut k: usize = 0;
    while k < sources.len()
        invariant
            k <= sources@.len(),
            board@.len() >= board_len(),
            clearance@.len() >= board_len(),
            allowed == passable(board@, clearance@, tier),
            previous@.len() == board_len(),
            queue_consistent(queue@, visited@, pos, allowed),
            queue@.len() == count_true(visited@),
            links_ok(visited@, previous@, pos, sources@),
            forall|i: int| 0 <= i < board_len() && !#[trigger] visited@[i] ==> previous@[i] is None,
            forall|i: int| 0 <= i < board_len() ==> #[trigger] previous@[i] is None,
            forall|q: int|
                0 <= q < k && (#[trigger] point_cell(sources@[q])) is Some && allowed(
                    point_cell(sources@[q])->0 as int,
                ) ==> visited@[point_cell(sources@[q])->0 as int],
            forall|i: int|
                0 <= i < board_len() && #[trigger] visited@[i] ==> in_flood(sources@, allowed, i),
        decreases sources@.len() - k,
    {
        let (x, y) = sources[k];
        if let Some(cell_index) = index(x, y) {
            if board[cell_index].is_open() && clearance[cell_index] >= tier && !visited[cell_index] {
                proof {
                    lemma_count_set(visited@, cell_index as int);
                    assert(point_cell(sources@[k as int]) == Some(cell_index));
                    assert forall|s: Set<int>| #[trigger]
                        flood_closed(sources@, allowed, s) implies s.contains(cell_index as int) by {
                        assert(point_cell(sources@[k as int]) == Some(cell_index));
                    }
                    pos = pos.update(cell_index as int, queue@.len() as int);
                }
                visited.set(cell_index, true);
                queue.push((x, y));
                proof {
                    assert(named(sources@, cell_index as int));
                }
            }
        }
        k += 1;
    }
    let mut head: usize = 0;
    let mut best: Option<usize> = None;
    let ghost mut dep: Seq<int> = Seq::new(board_len() as nat, |i: int| 0);
    proof {
        assert(depth_links(visited@, previous@, dep)) by {
            assert forall|i: int| 0 <= i < board_len() && #[trigger] visited@[i] implies match previous@[i] {
                None => dep[i] == 0,
                Some(p) => p < board_len() && visited@[p as int] && dep[i] == dep[p as int] + 1,
            } by {
                assert(previous@[i] is None);
            }
        }
        assert(covered(sources@, allowed, visited@, queue@, dep, 0)) by {
            if 0 < queue@.len() {
                assert forall|j: int| #[trigger] within(sources@, allowed, j, dep[idx_of(queue@[0])])
                    implies 0 <= j < board_len() && visited@[j] by {
                    let v = queue@[0];
                    assert(on_board(v.0 as int, v.1 as int));
                    assert(dep[idx_of(queue@[0])] == 0);
                    let k = choose|k: int| 0 <= k < sources@.len() && #[trigger] point_cell(sources@[k])
                        == Some(j as usize);
                    assert(point_cell(sources@[k]) is Some);
                }
            }
        }
        assert(depth_minimal(sources@, allowed, visited@, dep)) by {
            assert forall|j: int, n: int|
                0 <= j < board_len() && visited@[j] && #[trigger] within(sources@, allowed, j, n)
                    implies dep[j] <= n by {
                lemma_within_range(sources@, allowed, j, n);
            }
        }
    }
    while head < queue.len()
        invariant
            head <= queue@.len(),
            board@.len() >= board_len(),
            clearance@.len() >= board_len(),
            allowed == passable(board@, clearance@, tier),
            previous@.len() == board_len(),
            queue_consistent(queue@, visited@, pos, allowed),
            queue@.len() == count_true(visited@),
            links_ok(visited@, previous@, pos, sources@),
            forall|i: int| 0 <= i < board_len() && !#[trigger] visited@[i] ==> previous@[i] is None,
            forall|q: int|
                0 <= q < sources@.len() && (#[trigger] point_cell(sources@[q])) is Some && allowed(
                    point_cell(sources@[q])->0 as int,
                ) ==> visited@[point_cell(sources@[q])->0 as int],
            forall|i: int|
                0 <= i < board_len() && #[trigger] visited@[i] ==> in_flood(sources@, allowed, i),
            forall|q: int, j: int|
                0 <= q < head && #[trigger] adjacent(idx_of(queue@[q]), j) && allowed(j)
                    ==> visited@[j],
            forall|q: int| 0 <= q < head ==> !named(outlets@, #[trigger] idx_of(queue@[q])),
            head == 0 <==> best is None,
            depth_links(visited@, previous@, dep),
            layered(queue@, dep),
            narrow_from(queue@, dep, head as int),
            covered(sources@, allowed, visited@, queue@, dep, head as int),
            depth_minimal(sources@, allowed, visited@, dep),
            best matches Some(b) ==> b < board_len() && visited@[b as int] && pos[b as int] < head
                && forall|q: int|
                0 <= q < head ==> !key_lt(
                    #[trigger] route_key(idx_of(queue@[q]), center as int),
                    route_key(b as int, center as int),
                ),
            best matches Some(b) ==> forall|q: int|
                0 <= q < head && #[trigger] route_key(idx_of(queue@[q]), center as int) == route_key(
                    b as int,
                    center as int,
                ) ==> pos[b as int] <= q,
        decreases board_len() - head,
    {
        proof {
            lemma_count_bound(visited@);
        }
        let (x, y) = queue[head];
        let cell = index(x, y);
        let cell_index = match cell {
            Some(c) => c,
            None => {
                proof {
                    assert(on_board(queue@[head as int].0 as int, queue@[head as int].1 as int));
                }
                return (Exploration { visited, previous, found: None, best }, Ghost(pos), Ghost(dep));
            },
        };
        proof {
            assert(cell_index as int == idx_of(queue@[head as int]));
        }
        if names_index(outlets, cell_index) {
            proof {
                lemma_first_outlet_nearest(sources@, allowed, outlets@, visited@, queue@, pos, dep, head as int);
            }
            return (
                Exploration { visited, previous, found: Some(cell_index), best },
                Ghost(pos),
                Ghost(dep),
            );
        }
        let dx: i64 = if (x as i64) < (center as i64) {
            center as i64 - x as i64
        } else {
            x as i64 - center as i64
        };
        proof {
            assert(route_key(cell_index as int, center as int) == (y as int, dx as int));
        }
        let ghost old_best = best;
        match best {
            Some(b) => {
                let best_y = (b / BOARD_W) as i32;
                let best_x = (b % BOARD_W) as i32;
                let best_dx: i64 = if (best_x as i64) < (center as i64) {
                    center as i64 - best_x as i64
                } else {
                    best_x as i64 - center as i64
                };
                if y < best_y || (y == best_y && dx < best_dx) {
                    best = Some(cell_index);
                }
            },
            None => {
                best = Some(cell_index);
            },
        }
        proof {
            let b = best->0;
            assert(route_key(cell_index as int, center as int) == (y as int, dx as int));
            assert forall|q: int|
                0 <= q < head + 1 implies !key_lt(
                #[trigger] route_key(idx_of(queue@[q]), center as int),
                route_key(b as int, center as int),
            ) by {
                if q < head {
                    if old_best is Some {
                        assert(!key_lt(
                            route_key(idx_of(queue@[q]), center as int),
                            route_key(old_best->0 as int, center as int),
                        ));
                    }
                }
            }
            assert(pos[cell_index as int] == head);
            assert forall|q: int|
                0 <= q < head + 1 && #[trigger] route_key(idx_of(queue@[q]), center as int) == route_key(
                    b as int,
                    center as int,
                ) implies pos[b as int] <= q by {
                if q < head {
                    if old_best is Some {
                        assert(!key_lt(
                            route_key(idx_of(queue@[q]), center as int),
                            route_key(old_best->0 as int, center as int),
                        ));
                    }
                }
            }
        }
        let ghost vis_before = visited@;
        let ghost prev_before = previous@;
        let ghost queue_before = queue@;
        let ghost pos_before = pos;
        let new_pos = expand_neighbors(
            board,
            clearance,
            tier,
            sources,
            x,
            y,
            cell_index,
            head,
            &mut visited,
            &mut previous,
            &mut queue,
            Ghost(pos),
        );
        proof {
            pos = new_pos@;
            assert(cell_index as int == idx_of(queue_before[head as int]));
            dep = lemma_advance(
                sources@,
                allowed,
                vis_before,
                visited@,
                prev_before,
                previous@,
                queue_before,
                queue@,
                pos_before,
                pos,
                dep,
                head as int,
            );
        }
        proof {
            assert(queue@[head as int] == queue_before[head as int]);
            assert forall|q: int| 0 <= q <= head implies #[trigger] queue@[q] == queue_before[q] by {}
        }
        proof {
            assert forall|q: int| 0 <= q < head + 1 implies !named(
                outlets@,
                #[trigger] idx_of(queue@[q]),
            ) by {
                if q == head {
                    assert(idx_of(queue@[q]) == cell_index as int);
                }
            }
            assert forall|q: int, j: int|
                0 <= q < head + 1 && #[trigger] adjacent(idx_of(queue@[q]), j) && allowed(
                    j,
                ) implies visited@[j] by {
                if q < head {
                    assert(adjacent(idx_of(queue_before[q]), j));
                    assert(vis_before[j]);
                }
            }
        }
        head += 1;
    }
    proof {
        let t = true_set(visited@);
        assert forall|i: int, j: int|
            #[trigger] t.contains(i) && #[trigger] adjacent(i, j) && allowed(j) implies t.contains(
            j,
        ) by {
            assert(visited@[i]);
            let q = pos[i];
            assert(idx_of(queue@[q]) == i);
        }
        assert forall|i: int|
            0 <= i < board_len() && #[trigger] visited@[i] implies !named(outlets@, i) by {
            let q = pos[i];
            assert(idx_of(queue@[q]) == i);
        }
        assert forall|i: int|
            0 <= i < board_len() && #[trigger] visited@[i] implies allowed(i) by {}
        if best is None {
            assert forall|i: int| 0 <= i < board_len() implies !#[trigger] visited@[i] by {
                if visited@[i] {
                    assert(pos[i] < head);
                }
            }
        }
        if let Some(b) = best {
            assert forall|i: int, n: int|
                #[trigger] within(sources@, allowed, i, n) && route_key(i, center as int) == route_key(
                    b as int,
                    center as int,
                ) implies dep[b as int] <= n by {
                lemma_within_closed(sources@, allowed, t, i, n);
                assert(visited@[i]);
                let q = pos[i];
                assert(idx_of(queue@[q]) == i);
                let qb = pos[b as int];
                assert(idx_of(queue@[qb]) == b as int);
                assert(qb <= q);
                assert(dep[idx_of(queue@[qb])] <= dep[idx_of(queue@[q])]);
            }
            assert forall|i: int|
                0 <= i < board_len() && #[trigger] visited@[i] implies !key_lt(
                route_key(i, center as int),
                route_key(b as int, center as int),
            ) by {
                let q = pos[i];
                assert(idx_of(queue@[q]) == i);
            }
        }
    }
    (Exploration { visited, previous, found: None, best }, Ghost(pos), Ghost(dep))
}


/// Whether `path` is a walk of the board that starts at a cell named by `sources`, steps only
/// between adjacent cells, and stays on allowed cells.
pub open spec fn is_route(
    path: Seq<(i32, i32)>,
    sources: Seq<(i32, i32)>,
    allowed: spec_fn(int) -> bool,
) -> bool {
    &&& path.len() > 0
    &&& named(sources, idx_of(path[0]))
    &&& forall|k: int|
        0 <= k < path.len() ==> on_board(#[trigger] path[k].0 as int, path[k].1 as int) && allowed(
            idx_of(path[k]),
        )
    &&& forall|k: int|
        0 <= k < path.len() - 1 ==> adjacent(#[trigger] idx_of(path[k]), idx_of(path[k + 1]))
}

/// Point of a cell index.
pub open spec fn point_of(i: int) -> (i32, i32) {
    (col_of(i) as i32, row_of(i) as i32)
}

fn point_of_index(i: usize) -> (p: (i32, i32))
    requires
        i < board_len(),
    ensures
        p == point_of(i as int),
        on_board(p.0 as int, p.1 as int),
        idx_of(p) == i,
{
    ((i % BOARD_W) as i32, (i / BOARD_W) as i32)
}

/// Follows the predecessor links back from `end` and returns the walk from its first cell
/// to `end`.
#[verifier::rlimit(40)]
#[verifier::spinoff_prover]
fn reconstruct_path(
    previous: &[Option<usize>],
    end: usize,
    Ghost(visited): Ghost<Seq<bool>>,
    Ghost(pos): Ghost<Seq<int>>,
    Ghost(sources): Ghost<Seq<(i32, i32)>>,
) -> (path: Vec<(i32, i32)>)
    requires
        previous@.len() == board_len(),
        visited.len() == board_len(),
        pos.len() == board_len(),
        end < board_len(),
        visited[end as int],
        links_ok(visited, previous@, pos, sources),
        forall|i: int| 0 <= i < board_len() && #[trigger] visited[i] ==> pos[i] >= 0,
    ensures
        path@.len() > 0,
        idx_of(path@.last()) == end,
        previous@[idx_of(path@[0])] is None,
        named(sources, idx_of(path@[0])),
        forall|k: int|
            0 <= k < path@.len() ==> on_board(#[trigger] path@[k].0 as int, path@[k].1 as int)
                && visited[idx_of(path@[k])],
        forall|k: int|
            0 <= k < path@.len() - 1 ==> previous@[idx_of(path@[k + 1])] == Some(
                #[trigger] idx_of(path@[k]) as usize,
            ) && adjacent(idx_of(path@[k]), idx_of(path@[k + 1])),
{
    let mut rev: Vec<(i32, i32)> = Vec::new();
    let mut cursor: usize = end;
    loop
        invariant_except_break
            cursor < board_len(),
            visited[cursor as int],
            rev@.len() > 0 ==> previous@[idx_of(rev@.last())] == Some(cursor),
            rev@.len() == 0 ==> cursor == end,
        invariant
            previous@.len() == board_len(),
            visited.len() == board_len(),
            pos.len() == board_len(),
            links_ok(visited, previous@, pos, sources),
            forall|i: int| 0 <= i < board_len() && #[trigger] visited[i] ==> pos[i] >= 0,
            rev@.len() > 0 ==> idx_of(rev@[0]) == end,
            forall|k: int|
                0 <= k < rev@.len() ==> on_board(#[trigger] rev@[k].0 as int, rev@[k].1 as int)
                    && visited[idx_of(rev@[k])],
            forall|k: int|
                0 <= k < rev@.len() - 1 ==> previous@[#[trigger] idx_of(rev@[k])] == Some(
                    idx_of(rev@[k + 1]) as usize,
                ),
        ensures
            rev@.len() > 0,
            previous@[idx_of(rev@.last())] is None,
        decreases pos[cursor as int],
    {
        let p = point_of_index(cursor);
        rev.push(p);
        match previous[cursor] {
            Some(parent) => {
                proof {
                    assert(visited[parent as int] && pos[parent as int] < pos[cursor as int]);
                }
                cursor = parent;
            },
            None => {
                break ;
            },
        }
    }
    let mut path: Vec<(i32, i32)> = Vec::new();
    let mut k: usize = rev.len();
    while k > 0
        invariant
            k <= rev@.len(),
            path@.len() == rev@.len() - k,
            forall|q: int| 0 <= q < path@.len() ==> #[trigger] path@[q] == rev@[rev@.len() - 1 - q],
        decreases k,
    {
        k -= 1;
        path.push(rev[k]);
    }
    proof {
        let n = rev@.len();
        assert(path@[0] == rev@[n - 1]);
        assert(path@.last() == rev@[0]);
        assert forall|q: int| 0 <= q < path@.len() - 1 implies previous@[idx_of(path@[q + 1])] == Some(
            #[trigger] idx_of(path@[q]) as usize,
        ) && adjacent(idx_of(path@[q]), idx_of(path@[q + 1])) by {
            assert(path@[q + 1] == rev@[n - 2 - q]);
            assert(path@[q] == rev@[n - 1 - q]);
            let j = idx_of(rev@[n - 2 - q]);
            assert(visited[j]);
        }
        assert forall|q: int| 0 <= q < path@.len() implies on_board(
            #[trigger] path@[q].0 as int,
            path@[q].1 as int,
        ) && visited[idx_of(path@[q])] by {
            assert(path@[q] == rev@[n - 1 - q]);
        }
        assert(visited[idx_of(path@[0])]);
    }
    path
}

/// Sum of the x coordinates of `coords`.
pub open spec fn x_sum(coords: Seq<(i32, i32)>) -> int
    decreases coords.len(),
{
    if coords.len() == 0 {
        0
    } else {
        x_sum(coords.drop_last()) + coords.last().0
    }
}

/// Division rounding toward zero, as integer division does.
pub open spec fn trunc_div(a: int, b: int) -> int {
    if a >= 0 {
        a / b
    } else {
        -((-a) / b)
    }
}

/// The sum of the outlets' x coordinates can be formed without overflow.
pub open spec fn outlet_sum_fits(outlets: Seq<(i32, i32)>) -> bool {
    &&& outlets.len() <= i32::MAX
    &&& forall|k: int|
        0 <= k <= outlets.len() ==> i32::MIN <= #[trigger] x_sum(outlets.take(k)) <= i32::MAX
}

/// The vent column: the mean x of the outlets rounded toward zero, or the board's middle
/// column when there is no outlet.
pub open spec fn spec_outlet_center(outlets: Seq<(i32, i32)>) -> int {
    if outlets.len() == 0 {
        (BOARD_W / 2) as int
    } else {
        trunc_div(x_sum(outlets), outlets.len() as int)
    }
}

pub fn outlet_center(outlets: &[(i32, i32)]) -> (r: i32)
    requires
        outlet_sum_fits(outlets@),
    ensures
        r == spec_outlet_center(outlets@),
{
    if outlets.len() == 0 {
        return (BOARD_W / 2) as i32;
    }
    let mut sum: i32 = 0;
    let mut k: usize = 0;
    while k < outlets.len()
        invariant
            k <= outlets@.len(),
            outlet_sum_fits(outlets@),
            sum == x_sum(outlets@.take(k as int)),
        decreases outlets@.len() - k,
    {
        proof {
            assert(outlets@.take(k + 1).drop_last() =~= outlets@.take(k as int));
            assert(i32::MIN <= x_sum(outlets@.take(k + 1)) <= i32::MAX);
        }
        sum = sum + outlets[k].0;
        k += 1;
    }
    proof {
        assert(outlets@.take(outlets@.len() as int) =~= outlets@);
    }
    sum / outlets.len() as i32
}

/// Along a walk of predecessor links from a source, the `k`-th cell sits at depth `k`.
proof fn lemma_path_depth(
    path: Seq<(i32, i32)>,
    previous: Seq<Option<usize>>,
    visited: Seq<bool>,
    dep: Seq<int>,
    k: int,
)
    requires
        0 <= k < path.len(),
        previous.len() == board_len(),
        previous[idx_of(path[0])] is None,
        forall|q: int|
            0 <= q < path.len() ==> on_board(#[trigger] path[q].0 as int, path[q].1 as int)
                && visited[idx_of(path[q])],
        forall|q: int|
            0 <= q < path.len() - 1 ==> previous[idx_of(path[q + 1])] == Some(
                #[trigger] idx_of(path[q]) as usize,
            ),
        depth_links(visited, previous, dep),
    ensures
        dep[idx_of(path[k])] == k,
    decreases k,
{
    assert(on_board(path[k].0 as int, path[k].1 as int) && visited[idx_of(path[k])]);
    if k > 0 {
        lemma_path_depth(path, previous, visited, dep, k - 1);
        assert(previous[idx_of(path[k])] == Some(idx_of(path[k - 1]) as usize));
        assert(on_board(path[k - 1].0 as int, path[k - 1].1 as int));
    }
}

/// What a probe search of tier `tier` reports: `passed` tells whether the probe reaches a cell
/// that an outlet names; `path` is a route from a source to that outlet, with no route from a
/// source to an outlet shorter. When no outlet is reached, `path` is a route to a reached cell
/// highest on the board (nearest the vent column among equals), with no route to a cell of
/// that same rank shorter, or empty when no source admits the probe.
pub open spec fn probe_outcome(
    board: Seq<Cell>,
    clearance: Seq<u8>,
    sources: Seq<(i32, i32)>,
    outlets: Seq<(i32, i32)>,
    tier: u8,
    passed: bool,
    path: Seq<(i32, i32)>,
) -> bool {
    let allowed = passable(board, clearance, tier);
    &&& passed == exists|i: int|
        0 <= i < board_len() && #[trigger] named(outlets, i) && in_flood(sources, allowed, i)
    &&& passed ==> is_route(path, sources, allowed) && named(outlets, idx_of(path.last()))
    &&& passed ==> forall|r: Seq<(i32, i32)>|
        #[trigger] is_route(r, sources, allowed) && named(outlets, idx_of(r.last())) ==> path.len()
            <= r.len()
    &&& !passed ==> (path.len() == 0 <==> forall|i: int|
        0 <= i < board_len() ==> !#[trigger] in_flood(sources, allowed, i))
    &&& !passed && path.len() > 0 ==> forall|r: Seq<(i32, i32)>|
        #[trigger] is_route(r, sources, allowed) && route_key(idx_of(r.last()), spec_outlet_center(outlets))
            == route_key(idx_of(path.last()), spec_outlet_center(outlets)) ==> path.len() <= r.len()
    &&& !passed && path.len() > 0 ==> is_route(path, sources, allowed) && forall|i: int|
        0 <= i < board_len() && #[trigger] in_flood(sources, allowed, i) ==> !key_lt(
            route_key(i, spec_outlet_center(outlets)),
            route_key(idx_of(path.last()), spec_outlet_center(outlets)),
        )
}

/// The probe of a tier moves through open cells whose clearance is at least the tier.
pub fn path_for_tier(
    board: &[Cell],
    clearance: &[u8],
    sources: &[(i32, i32)],
    outlets: &[(i32, i32)],
    tier: usize,
) -> (r: (bool, Vec<(i32, i32)>))
    requires
        board@.len() >= board_len(),
        clearance@.len() >= board_len(),
        outlet_sum_fits(outlets@),
    ensures
        probe_outcome(board@, clearance@, sources@, outlets@, tier as u8, r.0, r.1@),
{
    let ghost allowed = passable(board@, clearance@, tier as u8);
    let center = outlet_center(outlets);
    let (e, Ghost(pos), Ghost(dep)) = explore(board, clearance, tier as u8, sources, outlets, center);
    let Exploration { visited, previous, found, best } = e;
    proof {
        assert forall|i: int|
            0 <= i < board_len() && #[trigger] in_flood(sources@, allowed, i) && found is None implies visited@[i] by {
            assert(flood_closed(sources@, allowed, true_set(visited@)));
            assert(true_set(visited@).contains(i));
        }
    }
    if let Some(o) = found {
        let path = reconstruct_path(&previous, o, Ghost(visited@), Ghost(pos), Ghost(sources@));
        proof {
            lemma_path_depth(path@, previous@, visited@, dep, path@.len() - 1);
            assert forall|r: Seq<(i32, i32)>|
                #[trigger] is_route(r, sources@, allowed) && named(outlets@, idx_of(r.last())) implies path@.len()
                <= r.len() by {
                lemma_route_within(r, sources@, allowed);
            }
            assert(named(outlets@, o as int) && in_flood(sources@, allowed, o as int));
            assert forall|k: int| 0 <= k < path@.len() implies on_board(
                #[trigger] path@[k].0 as int,
                path@[k].1 as int,
            ) && allowed(idx_of(path@[k])) by {
                assert(visited@[idx_of(path@[k])]);
            }
            assert forall|k: int| 0 <= k < path@.len() - 1 implies adjacent(
                #[trigger] idx_of(path@[k]),
                idx_of(path@[k + 1]),
            ) by {}
        }
        return (true, path);
    }
    proof {
        assert(!exists|i: int|
            0 <= i < board_len() && #[trigger] named(outlets@, i) && in_flood(sources@, allowed, i))
            by {
            assert forall|i: int|
                0 <= i < board_len() && #[trigger] named(outlets@, i) implies !in_flood(
                sources@,
                allowed,
                i,
            ) by {
                if in_flood(sources@, allowed, i) {
                    assert(visited@[i]);
                }
            }
        }
    }
    match best {
        Some(b) => {
            let path = reconstruct_path(&previous, b, Ghost(visited@), Ghost(pos), Ghost(sources@));
            proof {
                lemma_path_depth(path@, previous@, visited@, dep, path@.len() - 1);
                assert forall|r: Seq<(i32, i32)>|
                    #[trigger] is_route(r, sources@, allowed) && route_key(idx_of(r.last()), center as int)
                        == route_key(idx_of(path@.last()), center as int) implies path@.len() <= r.len() by {
                    lemma_route_within(r, sources@, allowed);
                }
                assert(in_flood(sources@, allowed, b as int));
                assert forall|k: int| 0 <= k < path@.len() implies on_board(
                    #[trigger] path@[k].0 as int,
                    path@[k].1 as int,
                ) && allowed(idx_of(path@[k])) by {
                    assert(visited@[idx_of(path@[k])]);
                }
                assert forall|k: int| 0 <= k < path@.len() - 1 implies adjacent(
                    #[trigger] idx_of(path@[k]),
                    idx_of(path@[k + 1]),
                ) by {}
                assert forall|i: int|
                    0 <= i < board_len() && #[trigger] in_flood(sources@, allowed, i) implies !key_lt(
                    route_key(i, spec_outlet_center(outlets@)),
                    route_key(idx_of(path@.last()), spec_outlet_center(outlets@)),
                ) by {
                    assert(visited@[i]);
                }
            }
            (false, path)
        },
        None => {
            proof {
                assert forall|i: int| 0 <= i < board_len() implies !#[trigger] in_flood(
                    sources@,
                    allowed,
                    i,
                ) by {
                    if in_flood(sources@, allowed, i) {
                        assert(visited@[i]);
                    }
                }
            }
            (false, Vec::new())
        },
    }
}


/// The cells gas from the sources can reach: the flood from the open source cells through
/// open cells.
pub fn reachable_cells(board: &[Cell], sources: &[(i32, i32)]) -> (r: Vec<bool>)
    requires
        board@.len() >= board_len(),
    ensures
        r@.len() == board_len(),
        forall|i: int| 0 <= i < board_len() ==> #[trigger] r@[i] == in_flood(sources@, open_cells(board@), i),
{
    let no_limit: Vec<u8> = vec![0u8; BOARD_W * BOARD_H];
    let none: &[(i32, i32)] = &[];
    let (e, _, _) = explore(board, no_limit.as_slice(), 0, sources, none, (BOARD_W / 2) as i32);
    proof {
        assert(passable(board@, no_limit@, 0) =~= open_cells(board@));
        if let Some(o) = e.found {
            assert(named(none@, o as int));
            let k = choose|k: int| 0 <= k < none@.len() && #[trigger] point_cell(none@[k]) == Some(o);
        }
        let allowed = open_cells(board@);
        assert forall|i: int| 0 <= i < board_len() implies #[trigger] e.visited@[i] == in_flood(
            sources@,
            allowed,
            i,
        ) by {
            if in_flood(sources@, allowed, i) {
                assert(true_set(e.visited@).contains(i));
            }
        }
    }
    e.visited
}

/// The `size` by `size` square with top-left corner (left, top) lies on the board and all its
/// cells are open.
pub open spec fn square_open(board: Seq<Cell>, left: int, top: int, size: int) -> bool {
    &&& left >= 0 && top >= 0 && left + size <= BOARD_W && top + size <= BOARD_H
    &&& forall|xx: int, yy: int|
        left <= xx < left + size && top <= yy < top + size ==> #[trigger] cell_open(
            board[yy * BOARD_W + xx],
        )
}

/// Some open `size` by `size` square on the board covers (x, y).
pub open spec fn in_open_square(board: Seq<Cell>, x: int, y: int, size: int) -> bool {
    exists|ox: int, oy: int|
        0 <= ox < size && 0 <= oy < size && #[trigger] square_open(board, x - ox, y - oy, size)
}

/// Clearance of cell `i`: 0 for a closed cell, otherwise the side (3, 2 or 1) of the widest
/// open square that covers it.
pub open spec fn spec_clearance(board: Seq<Cell>, i: int) -> u8 {
    if !cell_open(board[i]) {
        0
    } else if in_open_square(board, col_of(i), row_of(i), 3) {
        3
    } else if in_open_square(board, col_of(i), row_of(i), 2) {
        2
    } else {
        1
    }
}

fn open_square(board: &[Cell], left: i32, top: i32, size: i32) -> (r: bool)
    requires
        board@.len() >= board_len(),
        0 <= size <= 16,
        -100 <= left <= 100,
        -100 <= top <= 100,
    ensures
        r == square_open(board@, left as int, top as int, size as int),
{
    if left < 0 || top < 0 || left + size > BOARD_W as i32 || top + size > BOARD_H as i32 {
        return false;
    }
    let mut yy = top;
    while yy < top + size
        invariant
            board@.len() >= board_len(),
            0 <= left && left + size <= BOARD_W,
            0 <= top && top + size <= BOARD_H,
            top <= yy <= top + size,
            forall|xx: int, y2: int|
                left <= xx < left + size && top <= y2 < yy ==> #[trigger] cell_open(
                    board@[y2 * BOARD_W + xx],
                ),
        decreases top + size - yy,
    {
        let mut xx = left;
        while xx < left + size
            invariant
                board@.len() >= board_len(),
                0 <= left && left + size <= BOARD_W,
                0 <= top && top + size <= BOARD_H,
                top <= yy < top + size,
                left <= xx <= left + size,
                forall|x2: int, y2: int|
                    left <= x2 < left + size && top <= y2 < yy ==> #[trigger] cell_open(
                        board@[y2 * BOARD_W + x2],
                    ),
                forall|x2: int| left <= x2 < xx ==> #[trigger] cell_open(board@[yy * BOARD_W + x2]),
            decreases left + size - xx,
        {
            let cell = index(xx, yy);
            match cell {
                None => {
                    return false;
                },
                Some(cell_index) => {
                    if !board[cell_index].is_open() {
                        return false;
                    }
                },
            }
            xx += 1;
        }
        yy += 1;
    }
    true
}

fn included_in_square(board: &[Cell], x: i32, y: i32, size: i32) -> (r: bool)
    requires
        board@.len() >= board_len(),
        0 <= size <= 16,
        0 <= x < BOARD_W,
        0 <= y < BOARD_H,
    ensures
        r == in_open_square(board@, x as int, y as int, size as int),
{
    let mut offset_y: i32 = 0;
    while offset_y < size
        invariant
            board@.len() >= board_len(),
            0 <= size <= 16,
            0 <= x < BOARD_W,
            0 <= y < BOARD_H,
            0 <= offset_y <= size,
            forall|ox: int, oy: int|
                0 <= ox < size && 0 <= oy < offset_y ==> !#[trigger] square_open(
                    board@,
                    x - ox,
                    y - oy,
                    size as int,
                ),
        decreases size - offset_y,
    {
        let mut offset_x: i32 = 0;
        while offset_x < size
            invariant
                board@.len() >= board_len(),
                0 <= size <= 16,
                0 <= x < BOARD_W,
                0 <= y < BOARD_H,
                0 <= offset_y < size,
                0 <= offset_x <= size,
                forall|ox: int, oy: int|
                    0 <= ox < size && 0 <= oy < offset_y ==> !#[trigger] square_open(
                        board@,
                        x - ox,
                        y - oy,
                        size as int,
                    ),
                forall|ox: int|
                    0 <= ox < offset_x ==> !#[trigger] square_open(
                        board@,
                        x - ox,
                        y - offset_y,
                        size as int,
                    ),
            decreases size - offset_x,
        {
            let left = x - offset_x;
            let top = y - offset_y;
            if open_square(board, left, top, size) {
                return true;
            }
            offset_x += 1;
        }
        offset_y += 1;
    }
    false
}

/// Clearance of every cell of the board.
pub fn compute_clearance(board: &[Cell]) -> (r: Vec<u8>)
    requires
        board@.len() >= board_len(),
    ensures
        r@.len() == board_len(),
        forall|i: int| 0 <= i < board_len() ==> #[trigger] r@[i] == spec_clearance(board@, i),
{
    let mut clearance: Vec<u8> = vec![0u8; BOARD_W * BOARD_H];
    let mut y: i32 = 0;
    while y < BOARD_H as i32
        invariant
            board@.len() >= board_len(),
            clearance@.len() == board_len(),
            0 <= y <= BOARD_H,
            forall|i: int| 0 <= i < y * BOARD_W ==> #[trigger] clearance@[i] == spec_clearance(board@, i),
            forall|i: int| y * BOARD_W <= i < board_len() ==> #[trigger] clearance@[i] == 0,
        decreases BOARD_H - y,
    {
        let mut x: i32 = 0;
        while x < BOARD_W as i32
            invariant
                board@.len() >= board_len(),
                clearance@.len() == board_len(),
                0 <= y < BOARD_H,
                0 <= x <= BOARD_W,
                forall|i: int|
                    0 <= i < y * BOARD_W + x ==> #[trigger] clearance@[i] == spec_clearance(board@, i),
                forall|i: int| y * BOARD_W + x <= i < board_len() ==> #[trigger] clearance@[i] == 0,
            decreases BOARD_W - x,
        {
            let cell = index(x, y);
            if let Some(cell_index) = cell {
                proof {
                    assert(cell_index == y * BOARD_W + x);
                    assert(col_of(cell_index as int) == x && row_of(cell_index as int) == y);
                }
                if board[cell_index].is_open() {
                    let value: u8 = if included_in_square(board, x, y, 3) {
                        3
                    } else if included_in_square(board, x, y, 2) {
                        2
                    } else {
                        1
                    };
                    clearance.set(cell_index, value);
                }
            }
            x += 1;
        }
        y += 1;
    }
    clearance
}


/// What the board does with gas: the reached cells, the clearance of every cell, how many
/// cells and pockets are reached, and which probe tiers get through.
pub struct Simulation {
    pub reachable: Vec<bool>,
    pub clearance: Vec<u8>,
    pub accessible_count: usize,
    pub adsorbed_sites: usize,
    pub probe_pass: [bool; 3],
    pub probe_paths: [Vec<(i32, i32)>; 3],
    pub best_probe_tier: usize,
}

/// Number of entries of `coords` that name a cell marked in `marks`.
pub open spec fn marked_hits(coords: Seq<(i32, i32)>, marks: Seq<bool>) -> nat
    decreases coords.len(),
{
    if coords.len() == 0 {
        0
    } else {
        marked_hits(coords.drop_last(), marks) + match point_cell(coords.last()) {
            Some(i) => if marks[i as int] {
                1nat
            } else {
                0nat
            },
            None => 0nat,
        }
    }
}

/// The highest tier among three that passes, or 0.
pub open spec fn highest_tier(first: bool, second: bool, third: bool) -> usize {
    if third {
        3
    } else if second {
        2
    } else if first {
        1
    } else {
        0
    }
}

/// Some reached cell has clearance at least `tier`.
pub open spec fn reaches_clearance(reachable: Seq<bool>, clearance: Seq<u8>, tier: u8) -> bool {
    exists|i: int| 0 <= i < board_len() && #[trigger] reachable[i] && clearance[i] >= tier
}

fn count_marked(marks: &Vec<bool>) -> (n: usize)
    requires
        marks@.len() == board_len(),
    ensures
        n == count_true(marks@),
{
    let mut n: usize = 0;
    let mut k: usize = 0;
    while k < marks.len()
        invariant
            k <= marks@.len(),
            marks@.len() == board_len(),
            n == count_true(marks@.take(k as int)),
            n <= k,
        decreases marks@.len() - k,
    {
        proof {
            assert(marks@.take(k + 1).drop_last() =~= marks@.take(k as int));
        }
        if marks[k] {
            n += 1;
        }
        k += 1;
    }
    proof {
        assert(marks@.take(marks@.len() as int) =~= marks@);
    }
    n
}

fn count_hits(coords: &[(i32, i32)], marks: &Vec<bool>) -> (n: usize)
    requires
        marks@.len() == board_len(),
    ensures
        n == marked_hits(coords@, marks@),
{
    let mut n: usize = 0;
    let mut k: usize = 0;
    while k < coords.len()
        invariant
            k <= coords@.len(),
            marks@.len() == board_len(),
            n == marked_hits(coords@.take(k as int), marks@),
            n <= k,
        decreases coords@.len() - k,
    {
        proof {
            assert(coords@.take(k + 1).drop_last() =~= coords@.take(k as int));
        }
        let (x, y) = coords[k];
        if let Some(cell_index) = index(x, y) {
            if marks[cell_index] {
                n += 1;
            }
        }
        k += 1;
    }
    proof {
        assert(coords@.take(coords@.len() as int) =~= coords@);
    }
    n
}

fn any_with_clearance(reachable: &Vec<bool>, clearance: &Vec<u8>, tier: u8) -> (r: bool)
    requires
        reachable@.len() == board_len(),
        clearance@.len() == board_len(),
    ensures
        r == reaches_clearance(reachable@, clearance@, tier),
{
    let mut k: usize = 0;
    while k < reachable.len()
        invariant
            k <= board_len(),
            reachable@.len() == board_len(),
            clearance@.len() == board_len(),
            forall|i: int| 0 <= i < k ==> !(#[trigger] reachable@[i] && clearance@[i] >= tier),
        decreases board_len() - k,
    {
        if reachable[k] && clearance[k] >= tier {
            return true;
        }
        k += 1;
    }
    false
}

/// `sim` is what gas does on `board` in the phase `level`: the reached cells are the flood
/// from the sources through open cells, clearances are per cell, reached cells and reached
/// pockets are counted, and each probe tier reports its outcome (without outlets, the best
/// tier is the widest clearance that some reached cell has).
#[verifier::opaque]
pub open spec fn analysis_of(board: Seq<Cell>, level: LevelSpec, sim: Simulation) -> bool {
    &&& sim.reachable@.len() == board_len()
    &&& forall|i: int|
        0 <= i < board_len() ==> #[trigger] sim.reachable@[i] == in_flood(
            level.sources@,
            open_cells(board),
            i,
        )
    &&& sim.clearance@.len() == board_len()
    &&& forall|i: int| 0 <= i < board_len() ==> #[trigger] sim.clearance@[i] == spec_clearance(board, i)
    &&& sim.accessible_count == count_true(sim.reachable@)
    &&& sim.adsorbed_sites == marked_hits(level.pockets@, sim.reachable@)
    &&& level.outlets@.len() > 0 ==> {
        &&& forall|t: int|
            0 <= t < 3 ==> probe_outcome(
                board,
                sim.clearance@,
                level.sources@,
                level.outlets@,
                (t + 1) as u8,
                #[trigger] sim.probe_pass[t],
                sim.probe_paths[t]@,
            )
        &&& sim.best_probe_tier == highest_tier(sim.probe_pass[0], sim.probe_pass[1], sim.probe_pass[2])
    }
    &&& level.outlets@.len() == 0 ==> {
        &&& forall|t: int| 0 <= t < 3 ==> !#[trigger] sim.probe_pass[t] && sim.probe_paths[t]@.len() == 0
        &&& sim.best_probe_tier == highest_tier(
            reaches_clearance(sim.reachable@, sim.clearance@, 1),
            reaches_clearance(sim.reachable@, sim.clearance@, 2),
            reaches_clearance(sim.reachable@, sim.clearance@, 3),
        )
    }
}

/// Probe tier `t` is admitted by an analysis: with vents, the probe of tier `t` reaches one;
/// without, some reached cell has clearance at least `t`.
pub open spec fn tier_admitted(level: LevelSpec, sim: Simulation, t: int) -> bool {
    if level.outlets@.len() > 0 {
        sim.probe_pass[t - 1]
    } else {
        reaches_clearance(sim.reachable@, sim.clearance@, t as u8)
    }
}

/// The best probe tier of an analysis is the largest admitted tier, 0 when none is: every
/// admitted tier is at most it, and the tier it names is admitted.
pub proof fn lemma_best_probe_tier(board: Seq<Cell>, level: LevelSpec, sim: Simulation)
    requires
        analysis_of(board, level, sim),
    ensures
        sim.best_probe_tier <= 3,
        forall|t: int| 1 <= t <= 3 && #[trigger] tier_admitted(level, sim, t) ==> t <= sim.best_probe_tier,
        sim.best_probe_tier >= 1 ==> tier_admitted(level, sim, sim.best_probe_tier as int),
        sim.best_probe_tier == 0 ==> forall|t: int| 1 <= t <= 3 ==> !#[trigger] tier_admitted(level, sim, t),
{
    reveal(analysis_of);
    assert(tier_admitted(level, sim, 1) == if level.outlets@.len() > 0 {
        sim.probe_pass[0]
    } else {
        reaches_clearance(sim.reachable@, sim.clearance@, 1)
    });
    assert(tier_admitted(level, sim, 2) == if level.outlets@.len() > 0 {
        sim.probe_pass[1]
    } else {
        reaches_clearance(sim.reachable@, sim.clearance@, 2)
    });
    assert(tier_admitted(level, sim, 3) == if level.outlets@.len() > 0 {
        sim.probe_pass[2]
    } else {
        reaches_clearance(sim.reachable@, sim.clearance@, 3)
    });
}

/// Runs gas through the board of a phase.
pub fn analyze(board: &[Cell], level: &LevelSpec) -> (sim: Simulation)
    requires
        board@.len() >= board_len(),
        outlet_sum_fits(level.outlets@),
    ensures
        analysis_of(board@, *level, sim),
{
    reveal(analysis_of);
    let reachable = reachable_cells(board, level.sources);
    let clearance = compute_clearance(board);
    let accessible_count = count_marked(&reachable);
    let adsorbed_sites = count_hits(level.pockets, &reachable);
    if level.outlets.len() != 0 {
        let (pass1, path1) = path_for_tier(board, clearance.as_slice(), level.sources, level.outlets, 1);
        let (pass2, path2) = path_for_tier(board, clearance.as_slice(), level.sources, level.outlets, 2);
        let (pass3, path3) = path_for_tier(board, clearance.as_slice(), level.sources, level.outlets, 3);
        let best_probe_tier: usize = if pass3 {
            3
        } else if pass2 {
            2
        } else if pass1 {
            1
        } else {
            0
        };
        let sim = Simulation {
            reachable,
            clearance,
            accessible_count,
            adsorbed_sites,
            probe_pass: [pass1, pass2, pass3],
            probe_paths: [path1, path2, path3],
            best_probe_tier,
        };
        proof {
            assert forall|t: int| 0 <= t < 3 implies probe_outcome(
                board@,
                sim.clearance@,
                level.sources@,
                level.outlets@,
                (t + 1) as u8,
                #[trigger] sim.probe_pass[t],
                sim.probe_paths[t]@,
            ) by {
                if t == 0 {
                    assert(sim.probe_pass[0] == pass1);
                } else if t == 1 {
                    assert(sim.probe_pass[1] == pass2);
                } else {
                    assert(sim.probe_pass[2] == pass3);
                }
            }
        }
        sim
    } else {
        let fits1 = any_with_clearance(&reachable, &clearance, 1);
        let fits2 = any_with_clearance(&reachable, &clearance, 2);
        let fits3 = any_with_clearance(&reachable, &clearance, 3);
        let best_probe_tier: usize = if fits3 {
            3
        } else if fits2 {
            2
        } else if fits1 {
            1
        } else {
            0
        };
        Simulation {
            reachable,
            clearance,
            accessible_count,
            adsorbed_sites,
            probe_pass: [false, false, false],
            probe_paths: [Vec::new(), Vec::new(), Vec::new()],
            best_probe_tier,
        }
    }
}

} // verus!
