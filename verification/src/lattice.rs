//! Integer helpers of periodic lattices: cell wrapping, cube-root cell counts and the
//! fundamental reciprocal modes of a cubic box.
use vstd::prelude::*;

verus! {

/// Index of a neighbouring cell on a periodic axis of `cells_per_axis` cells: `cell + offset`
/// wrapped into `0..cells_per_axis`.
pub fn wrap_cell(cell: usize, offset: isize, cells_per_axis: usize) -> (r: usize)
    requires
        0 < cells_per_axis <= isize::MAX,
        cell <= isize::MAX,
        isize::MIN <= cell + offset <= isize::MAX,
    ensures
        r == (cell + offset) % (cells_per_axis as int),
        r < cells_per_axis,
{
    let sum: isize = cell as isize + offset;
    let modulus: isize = cells_per_axis as isize;
    match sum.checked_rem_euclid(modulus) {
        Some(r) => r as usize,
        None => 0,
    }
}

/// The same wrapping, as the chain initializer's cell list names it.
pub fn wrap(cell: usize, offset: isize, cells_per_axis: usize) -> (r: usize)
    requires
        0 < cells_per_axis <= isize::MAX,
        cell <= isize::MAX,
        isize::MIN <= cell + offset <= isize::MAX,
    ensures
        r == (cell + offset) % (cells_per_axis as int),
        r < cells_per_axis,
{
    wrap_cell(cell, offset, cells_per_axis)
}

/// Row-major index of cell `(a, b, c)` in a cubic grid of `n` cells per axis.
pub open spec fn cell_index(a: int, b: int, c: int, n: int) -> int {
    (a * n + b) * n + c
}

/// Row-major index of `cell` in a cubic grid of `cells_per_axis` cells per axis.
pub fn linear_index(cell: [usize; 3], cells_per_axis: usize) -> (r: usize)
    requires
        cell[0] < cells_per_axis,
        cell[1] < cells_per_axis,
        cell[2] < cells_per_axis,
        cube(cells_per_axis as int) <= usize::MAX,
    ensures
        r == cell_index(cell[0] as int, cell[1] as int, cell[2] as int, cells_per_axis as int),
        r < cube(cells_per_axis as int),
{
    let n = cells_per_axis;
    proof {
        lemma_index_bound(cell[0] as int, cell[1] as int, cell[2] as int, n as int);
    }
    (cell[0] * n + cell[1]) * n + cell[2]
}

proof fn lemma_index_bound(a: int, b: int, c: int, n: int)
    requires
        0 <= a < n,
        0 <= b < n,
        0 <= c < n,
    ensures
        0 <= a * n + b < n * n,
        n * n <= cube(n),
        0 <= cell_index(a, b, c, n) < cube(n),
{
    assert(n * n <= n * n * n) by (nonlinear_arith)
        requires
            1 <= n,
    {
    }
    assert(0 <= a * n + b < n * n) by (nonlinear_arith)
        requires
            0 <= a < n,
            0 <= b < n,
    {
        assert(a * n <= (n - 1) * n);
    }
    let m = a * n + b;
    assert(0 <= m * n + c < n * n * n) by (nonlinear_arith)
        requires
            0 <= m < n * n,
            0 <= c < n,
    {
        assert(m * n <= (n * n - 1) * n);
    }
}

/// Index of the neighbour of `cell` at offsets `(dx, dy, dz)` on a periodic grid of `n`
/// cells per axis.
pub open spec fn neighbour_index(cell: [usize; 3], n: int, dx: int, dy: int, dz: int) -> int {
    cell_index((cell[0] + dx) % n, (cell[1] + dy) % n, (cell[2] + dz) % n, n)
}

/// Cell `x` is `cell` or one of its 26 periodic neighbours.
pub open spec fn is_neighbour_cell(cell: [usize; 3], n: int, x: int) -> bool {
    exists|dx: int, dy: int, dz: int|
        -1 <= dx <= 1 && -1 <= dy <= 1 && -1 <= dz <= 1 && x == #[trigger] neighbour_index(
            cell,
            n,
            dx,
            dy,
            dz,
        )
}

/// Offsets of the `s`-th of the 27 neighbours, `s` read in base three.
pub open spec fn offset_x(s: int) -> int {
    s / 9 - 1
}

pub open spec fn offset_y(s: int) -> int {
    (s / 3) % 3 - 1
}

pub open spec fn offset_z(s: int) -> int {
    s % 3 - 1
}

/// Strictly ascending.
pub open spec fn ascending(v: Seq<usize>) -> bool {
    forall|i: int, j: int| 0 <= i < j < v.len() ==> v[i] < v[j]
}

/// Adds `x` to an ascending list, once.
fn insert_ascending(v: &mut Vec<usize>, x: usize)
    requires
        ascending(old(v)@),
    ensures
        ascending(final(v)@),
        forall|y: usize| #[trigger] final(v)@.contains(y) <==> (old(v)@.contains(y) || y == x),
{
    let mut p: usize = 0;
    while p < v.len() && v[p] < x
        invariant
            p <= v@.len(),
            forall|i: int| 0 <= i < p ==> v@[i] < x,
        decreases v@.len() - p,
    {
        p += 1;
    }
    if p < v.len() && v[p] == x {
        return;
    }
    let ghost before = v@;
    v.insert(p, x);
    proof {
        assert forall|i: int, j: int| 0 <= i < j < v@.len() implies v@[i] < v@[j] by {
            if j < p {
            } else if j == p {
            } else if i < p {
                assert(before[j - 1] >= x) by {
                    if p < before.len() {
                        assert(before[p as int] > x);
                    }
                }
            } else if i == p {
                assert(before[p as int] > x);
            } else {
            }
        }
        assert forall|y: usize| #[trigger] v@.contains(y) <==> (before.contains(y) || y == x) by {
            if v@.contains(y) {
                let k = choose|k: int| 0 <= k < v@.len() && v@[k] == y;
                if k < p {
                    assert(before[k] == y);
                } else if k > p {
                    assert(before[k - 1] == y);
                }
            }
            if before.contains(y) {
                let k = choose|k: int| 0 <= k < before.len() && before[k] == y;
                if k < p {
                    assert(v@[k] == y);
                } else {
                    assert(v@[k + 1] == y);
                }
            }
            if y == x {
                assert(v@[p as int] == x);
            }
        }
    }
}

proof fn lemma_offsets(dx: int, dy: int, dz: int)
    requires
        -1 <= dx <= 1,
        -1 <= dy <= 1,
        -1 <= dz <= 1,
    ensures
        ({
            let s = 9 * (dx + 1) + 3 * (dy + 1) + (dz + 1);
            &&& 0 <= s < 27
            &&& offset_x(s) == dx
            &&& offset_y(s) == dy
            &&& offset_z(s) == dz
        }),
{
}

/// The cells a cutoff sphere around a point in `cell` can reach: `cell` and its 26 periodic
/// neighbours, each index once, ascending.
pub fn neighbour_cells(cell: [usize; 3], cells_per_axis: usize) -> (out: Vec<usize>)
    requires
        cell[0] < cells_per_axis,
        cell[1] < cells_per_axis,
        cell[2] < cells_per_axis,
        cells_per_axis <= isize::MAX,
        cube(cells_per_axis as int) <= usize::MAX,
    ensures
        ascending(out@),
        forall|x: usize| #[trigger] out@.contains(x) <==> is_neighbour_cell(cell, cells_per_axis as int, x as int),
{
    let n = cells_per_axis;
    let ghost nn = n as int;
    let mut out: Vec<usize> = Vec::new();
    let mut t: usize = 0;
    while t < 27
        invariant
            t <= 27,
            cell[0] < n && cell[1] < n && cell[2] < n,
            n == cells_per_axis,
            nn == n as int,
            n <= isize::MAX,
            cube(n as int) <= usize::MAX,
            ascending(out@),
            forall|x: usize| #[trigger]
                out@.contains(x) <==> exists|s: int|
                    0 <= s < t && x == #[trigger] neighbour_index(cell, nn, offset_x(s), offset_y(s), offset_z(s)),
        decreases 27 - t,
    {
        let dx: isize = (t / 9) as isize - 1;
        let dy: isize = ((t / 3) % 3) as isize - 1;
        let dz: isize = (t % 3) as isize - 1;
        let a = wrap_cell(cell[0], dx, n);
        let b = wrap_cell(cell[1], dy, n);
        let c = wrap_cell(cell[2], dz, n);
        let idx = linear_index([a, b, c], n);
        let ghost before = out@;
        insert_ascending(&mut out, idx);
        proof {
            let ts = t as int;
            assert(idx == neighbour_index(cell, nn, offset_x(ts), offset_y(ts), offset_z(ts)));
            assert forall|x: usize| #[trigger] out@.contains(x) <==> exists|s: int|
                0 <= s < t + 1 && x == #[trigger] neighbour_index(cell, nn, offset_x(s), offset_y(s), offset_z(s)) by {
                if exists|s: int|
                    0 <= s < t + 1 && x == #[trigger] neighbour_index(cell, nn, offset_x(s), offset_y(s), offset_z(s)) {
                    let s = choose|s: int|
                        0 <= s < t + 1 && x == #[trigger] neighbour_index(cell, nn, offset_x(s), offset_y(s), offset_z(s));
                    if s < t {
                        assert(before.contains(x));
                    }
                }
            }
        }
        t += 1;
    }
    proof {
        assert forall|x: usize| #[trigger] out@.contains(x) <==> is_neighbour_cell(cell, nn, x as int) by {
            if out@.contains(x) {
                let s = choose|s: int|
                    0 <= s < 27 && x == #[trigger] neighbour_index(cell, nn, offset_x(s), offset_y(s), offset_z(s));
                assert(neighbour_index(cell, nn, offset_x(s), offset_y(s), offset_z(s)) == x);
            }
            if is_neighbour_cell(cell, nn, x as int) {
                let (dx, dy, dz) = choose|dx: int, dy: int, dz: int|
                    -1 <= dx <= 1 && -1 <= dy <= 1 && -1 <= dz <= 1 && x == #[trigger] neighbour_index(
                        cell,
                        nn,
                        dx,
                        dy,
                        dz,
                    );
                lemma_offsets(dx, dy, dz);
                let s = 9 * (dx + 1) + 3 * (dy + 1) + (dz + 1);
                assert(x == neighbour_index(cell, nn, offset_x(s), offset_y(s), offset_z(s)));
            }
        }
    }
    out
}

/// Offsets `(dx, dy, dz)` lie on the cube shell of radius `shell`: none beyond it, one on it.
pub open spec fn on_shell(dx: int, dy: int, dz: int, shell: int) -> bool {
    &&& -shell <= dx <= shell
    &&& -shell <= dy <= shell
    &&& -shell <= dz <= shell
    &&& (dx == shell || dx == -shell || dy == shell || dy == -shell || dz == shell || dz == -shell)
}

/// Cell `x` lies on the shell of radius `shell` around `origin`, on a periodic grid of `n`
/// cells per axis.
pub open spec fn is_shell_cell(origin: [usize; 3], n: int, shell: int, x: int) -> bool {
    exists|dx: int, dy: int, dz: int|
        on_shell(dx, dy, dz, shell) && x == #[trigger] neighbour_index(origin, n, dx, dy, dz)
}

/// `(a, b, c)` comes before `(dx, dy, dz)` in the order the offsets are walked.
pub open spec fn walked_before(a: int, b: int, c: int, dx: int, dy: int, dz: int) -> bool {
    a < dx || (a == dx && b < dy) || (a == dx && b == dy && c < dz)
}

/// Cell `x` is the cell of a shell offset walked before `(dx, dy, dz)`.
pub open spec fn shell_seen(origin: [usize; 3], n: int, shell: int, dx: int, dy: int, dz: int, x: int) -> bool {
    exists|a: int, b: int, c: int|
        on_shell(a, b, c, shell) && walked_before(a, b, c, dx, dy, dz) && x == #[trigger] neighbour_index(
            origin,
            n,
            a,
            b,
            c,
        )
}

/// Walking one offset further adds that offset's cell, if it is on the shell.
proof fn lemma_seen_step(origin: [usize; 3], n: int, shell: int, dx: int, dy: int, dz: int, x: int)
    ensures
        shell_seen(origin, n, shell, dx, dy, dz + 1, x) <==> (shell_seen(origin, n, shell, dx, dy, dz, x) || (
        on_shell(dx, dy, dz, shell) && x == neighbour_index(origin, n, dx, dy, dz))),
{
    if shell_seen(origin, n, shell, dx, dy, dz + 1, x) {
        let (a, b, c) = choose|a: int, b: int, c: int|
            on_shell(a, b, c, shell) && walked_before(a, b, c, dx, dy, dz + 1) && x == #[trigger] neighbour_index(
                origin,
                n,
                a,
                b,
                c,
            );
        if walked_before(a, b, c, dx, dy, dz) {
            assert(shell_seen(origin, n, shell, dx, dy, dz, x));
        }
    }
    if shell_seen(origin, n, shell, dx, dy, dz, x) {
        let (a, b, c) = choose|a: int, b: int, c: int|
            on_shell(a, b, c, shell) && walked_before(a, b, c, dx, dy, dz) && x == #[trigger] neighbour_index(
                origin,
                n,
                a,
                b,
                c,
            );
        assert(walked_before(a, b, c, dx, dy, dz + 1));
    }
    if on_shell(dx, dy, dz, shell) && x == neighbour_index(origin, n, dx, dy, dz) {
        assert(walked_before(dx, dy, dz, dx, dy, dz + 1));
    }
}

/// Past the last `dz`, the walk moves on to the next `dy`; past the last `dy`, to the next
/// `dx`.
proof fn lemma_seen_wrap(origin: [usize; 3], n: int, shell: int, dx: int, dy: int, x: int)
    requires
        shell >= 0,
    ensures
        shell_seen(origin, n, shell, dx, dy, shell + 1, x) <==> shell_seen(
            origin,
            n,
            shell,
            dx,
            dy + 1,
            -shell,
            x,
        ),
        shell_seen(origin, n, shell, dx, shell + 1, -shell, x) <==> shell_seen(
            origin,
            n,
            shell,
            dx + 1,
            -shell,
            -shell,
            x,
        ),
{
    if shell_seen(origin, n, shell, dx, dy, shell + 1, x) {
        let (a, b, c) = choose|a: int, b: int, c: int|
            on_shell(a, b, c, shell) && walked_before(a, b, c, dx, dy, shell + 1) && x == #[trigger] neighbour_index(
                origin,
                n,
                a,
                b,
                c,
            );
        assert(walked_before(a, b, c, dx, dy + 1, -shell));
    }
    if shell_seen(origin, n, shell, dx, dy + 1, -shell, x) {
        let (a, b, c) = choose|a: int, b: int, c: int|
            on_shell(a, b, c, shell) && walked_before(a, b, c, dx, dy + 1, -shell) && x == #[trigger] neighbour_index(
                origin,
                n,
                a,
                b,
                c,
            );
        assert(walked_before(a, b, c, dx, dy, shell + 1));
    }
    if shell_seen(origin, n, shell, dx, shell + 1, -shell, x) {
        let (a, b, c) = choose|a: int, b: int, c: int|
            on_shell(a, b, c, shell) && walked_before(a, b, c, dx, shell + 1, -shell) && x == #[trigger] neighbour_index(
                origin,
                n,
                a,
                b,
                c,
            );
        assert(walked_before(a, b, c, dx + 1, -shell, -shell));
    }
    if shell_seen(origin, n, shell, dx + 1, -shell, -shell, x) {
        let (a, b, c) = choose|a: int, b: int, c: int|
            on_shell(a, b, c, shell) && walked_before(a, b, c, dx + 1, -shell, -shell) && x == #[trigger] neighbour_index(
                origin,
                n,
                a,
                b,
                c,
            );
        assert(walked_before(a, b, c, dx, shell + 1, -shell));
    }
}

/// No element occurs twice.
pub open spec fn distinct(v: Seq<usize>) -> bool {
    forall|i: int, j: int| 0 <= i < j < v.len() ==> v[i] != v[j]
}

/// Whether `v` holds `x`.
fn holds(v: &Vec<usize>, x: usize) -> (r: bool)
    ensures
        r == v@.contains(x),
{
    let mut i: usize = 0;
    while i < v.len()
        invariant
            i <= v@.len(),
            forall|j: int| 0 <= j < i ==> v@[j] != x,
        decreases v@.len() - i,
    {
        if v[i] == x {
            return true;
        }
        i += 1;
    }
    false
}

/// The cells on the shell of radius `shell` around `origin` that `visited` does not hold yet,
/// each once; they are added to `visited`. A nearest-neighbour search widens the shell until
/// it has its answer.
pub fn shell_cells(origin: [usize; 3], cells_per_axis: usize, shell: usize, visited: &mut Vec<usize>) -> (fresh:
    Vec<usize>)
    requires
        origin[0] < cells_per_axis,
        origin[1] < cells_per_axis,
        origin[2] < cells_per_axis,
        cells_per_axis + shell <= isize::MAX,
        cube(cells_per_axis as int) <= usize::MAX,
    ensures
        distinct(fresh@),
        forall|x: usize| #[trigger] fresh@.contains(x) <==> (is_shell_cell(origin, cells_per_axis as int, shell as int, x as int)
            && !old(visited)@.contains(x)),
        forall|x: usize| #[trigger] final(visited)@.contains(x) <==> (old(visited)@.contains(x) || fresh@.contains(x)),
{
    let n = cells_per_axis;
    let ghost nn = n as int;
    let ghost ss = shell as int;
    let ghost start = visited@;
    let s: isize = shell as isize;
    let mut fresh: Vec<usize> = Vec::new();
    let mut dx: isize = -s;
    while dx <= s
        invariant
            origin[0] < n && origin[1] < n && origin[2] < n,
            n == cells_per_axis,
            nn == n as int,
            ss == shell as int,
            s == shell,
            n + shell <= isize::MAX,
            cube(n as int) <= usize::MAX,
            -s <= dx <= s + 1,
            distinct(fresh@),
            forall|x: usize| #[trigger] fresh@.contains(x) <==> (shell_seen(origin, nn, ss, dx as int, -ss, -ss, x as int)
                && !start.contains(x)),
            forall|x: usize| #[trigger] visited@.contains(x) <==> (start.contains(x) || fresh@.contains(x)),
        decreases s + 1 - dx,
    {
        let mut dy: isize = -s;
        while dy <= s
            invariant
                origin[0] < n && origin[1] < n && origin[2] < n,
                n == cells_per_axis,
                nn == n as int,
                ss == shell as int,
                s == shell,
                n + shell <= isize::MAX,
                cube(n as int) <= usize::MAX,
                -s <= dx <= s,
                -s <= dy <= s + 1,
                distinct(fresh@),
                forall|x: usize| #[trigger] fresh@.contains(x) <==> (shell_seen(origin, nn, ss, dx as int, dy as int, -ss, x as int)
                    && !start.contains(x)),
                forall|x: usize| #[trigger] visited@.contains(x) <==> (start.contains(x) || fresh@.contains(x)),
            decreases s + 1 - dy,
        {
            let mut dz: isize = -s;
            while dz <= s
                invariant
                    origin[0] < n && origin[1] < n && origin[2] < n,
                    n == cells_per_axis,
                    nn == n as int,
                    ss == shell as int,
                    s == shell,
                    n + shell <= isize::MAX,
                    cube(n as int) <= usize::MAX,
                    -s <= dx <= s,
                    -s <= dy <= s,
                    -s <= dz <= s + 1,
                    distinct(fresh@),
                    forall|x: usize| #[trigger] fresh@.contains(x) <==> (shell_seen(origin, nn, ss, dx as int, dy as int, dz as int, x as int)
                        && !start.contains(x)),
                    forall|x: usize| #[trigger] visited@.contains(x) <==> (start.contains(x) || fresh@.contains(x)),
                decreases s + 1 - dz,
            {
                let rim = dx == s || dx == -s || dy == s || dy == -s || dz == s || dz == -s;
                let ghost before_fresh = fresh@;
                let ghost before_visited = visited@;
                if rim {
                    let a = wrap_cell(origin[0], dx, n);
                    let b = wrap_cell(origin[1], dy, n);
                    let c = wrap_cell(origin[2], dz, n);
                    let index = linear_index([a, b, c], n);
                    if !holds(visited, index) {
                        visited.push(index);
                        fresh.push(index);
                        proof {
                            assert forall|i: int, j: int| 0 <= i < j < fresh@.len() implies fresh@[i] != fresh@[j] by {
                                if j == fresh@.len() - 1 {
                                    assert(before_fresh.contains(fresh@[i]));
                                }
                            }
                            assert forall|x: usize| #[trigger] fresh@.contains(x) <==> (before_fresh.contains(x) || x == index) by {
                                if fresh@.contains(x) && x != index {
                                    let k = choose|k: int| 0 <= k < fresh@.len() && fresh@[k] == x;
                                    assert(before_fresh[k] == x);
                                }
                                if before_fresh.contains(x) {
                                    let k = choose|k: int| 0 <= k < before_fresh.len() && before_fresh[k] == x;
                                    assert(fresh@[k] == x);
                                }
                                if x == index {
                                    assert(fresh@[fresh@.len() - 1] == x);
                                }
                            }
                            assert forall|x: usize| #[trigger] visited@.contains(x) <==> (before_visited.contains(x) || x == index) by {
                                if visited@.contains(x) && x != index {
                                    let k = choose|k: int| 0 <= k < visited@.len() && visited@[k] == x;
                                    assert(before_visited[k] == x);
                                }
                                if before_visited.contains(x) {
                                    let k = choose|k: int| 0 <= k < before_visited.len() && before_visited[k] == x;
                                    assert(visited@[k] == x);
                                }
                                if x == index {
                                    assert(visited@[visited@.len() - 1] == x);
                                }
                            }
                        }
                    }
                    proof {
                        assert(index == neighbour_index(origin, nn, dx as int, dy as int, dz as int));
                        assert forall|x: usize| #[trigger] fresh@.contains(x) <==> (shell_seen(origin, nn, ss, dx as int, dy as int, dz + 1, x as int)
                            && !start.contains(x)) by {
                            lemma_seen_step(origin, nn, ss, dx as int, dy as int, dz as int, x as int);
                        }
                    }
                } else {
                    proof {
                        assert forall|x: usize| #[trigger] fresh@.contains(x) <==> (shell_seen(origin, nn, ss, dx as int, dy as int, dz + 1, x as int)
                            && !start.contains(x)) by {
                            lemma_seen_step(origin, nn, ss, dx as int, dy as int, dz as int, x as int);
                        }
                    }
                }
                dz += 1;
            }
            proof {
                assert forall|x: usize| #[trigger] fresh@.contains(x) <==> (shell_seen(origin, nn, ss, dx as int, dy + 1, -ss, x as int)
                    && !start.contains(x)) by {
                    lemma_seen_wrap(origin, nn, ss, dx as int, dy as int, x as int);
                }
            }
            dy += 1;
        }
        proof {
            assert forall|x: usize| #[trigger] fresh@.contains(x) <==> (shell_seen(origin, nn, ss, dx + 1, -ss, -ss, x as int)
                && !start.contains(x)) by {
                lemma_seen_wrap(origin, nn, ss, dx as int, dy as int, x as int);
            }
        }
        dx += 1;
    }
    proof {
        assert forall|x: usize| #[trigger] fresh@.contains(x) <==> (is_shell_cell(origin, nn, ss, x as int)
            && !start.contains(x)) by {
            if is_shell_cell(origin, nn, ss, x as int) {
                let (a, b, c) = choose|a: int, b: int, c: int|
                    on_shell(a, b, c, ss) && x == #[trigger] neighbour_index(origin, nn, a, b, c);
                assert(walked_before(a, b, c, ss + 1, -ss, -ss));
                assert(shell_seen(origin, nn, ss, ss + 1, -ss, -ss, x as int));
            }
            if shell_seen(origin, nn, ss, ss + 1, -ss, -ss, x as int) {
                let (a, b, c) = choose|a: int, b: int, c: int|
                    on_shell(a, b, c, ss) && walked_before(a, b, c, ss + 1, -ss, -ss) && x == #[trigger] neighbour_index(
                        origin,
                        nn,
                        a,
                        b,
                        c,
                    );
                assert(is_shell_cell(origin, nn, ss, x as int));
            }
        }
    }
    fresh
}

/// The cube of `r`.
pub open spec fn cube(r: int) -> int {
    r * r * r
}

/// The smallest root of at least one whose cube reaches `value`.
pub fn ceil_cuberoot(value: usize) -> (r: usize)
    ensures
        r >= 1,
        cube(r as int) >= value,
        r == 1 || cube(r - 1) < value,
{
    let mut root: usize = 1;
    loop
        invariant
            1 <= root,
            root == 1 || cube(root - 1) < value,
            root <= value || root == 1,
        decreases value - root,
    {
        let below = match root.checked_mul(root) {
            Some(square) => match square.checked_mul(root) {
                Some(c) => c < value,
                None => false,
            },
            None => false,
        };
        proof {
            assert(cube(root as int) >= root) by (nonlinear_arith)
                requires
                    root >= 1,
            {
            }
            if root * root > usize::MAX {
                assert(cube(root as int) >= root * root) by (nonlinear_arith)
                    requires
                        root >= 1,
                {
                }
            }
        }
        if !below {
            return root;
        }
        root += 1;
    }
}

/// The unit mode along `axis` scaled by `magnitude`.
pub open spec fn axis_mode(axis: int, magnitude: i32) -> [i32; 3] {
    if axis == 0 {
        [magnitude, 0, 0]
    } else if axis == 1 {
        [0, magnitude, 0]
    } else {
        [0, 0, magnitude]
    }
}

/// Magnitude `k` as an `i32`, saturated at `i32::MAX`.
pub open spec fn saturated_i32(k: int) -> i32 {
    if k <= i32::MAX {
        k as i32
    } else {
        i32::MAX
    }
}

/// The fundamental reciprocal modes up to `maximum`: for each magnitude 1..=maximum, the
/// modes along x, y and z.
pub fn reciprocal_modes(maximum: usize) -> (modes: Vec<[i32; 3]>)
    requires
        3 * maximum <= usize::MAX,
    ensures
        modes@.len() == 3 * maximum,
        forall|m: int, axis: int|
            0 <= m < maximum && 0 <= axis < 3 ==> #[trigger] modes@[3 * m + axis] == axis_mode(
                axis,
                saturated_i32(m + 1),
            ),
{
    let mut modes: Vec<[i32; 3]> = Vec::new();
    let mut magnitude: usize = 1;
    while magnitude <= maximum
        invariant
            1 <= magnitude <= maximum + 1,
            3 * maximum <= usize::MAX,
            modes@.len() == 3 * (magnitude - 1),
            forall|m: int, axis: int|
                0 <= m < magnitude - 1 && 0 <= axis < 3 ==> #[trigger] modes@[3 * m + axis]
                    == axis_mode(axis, saturated_i32(m + 1)),
        decreases maximum + 1 - magnitude,
    {
        let value: i32 = if magnitude <= 2147483647 {
            magnitude as i32
        } else {
            2147483647
        };
        let ghost before = modes@;
        modes.push([value, 0, 0]);
        modes.push([0, value, 0]);
        modes.push([0, 0, value]);
        proof {
            assert(value == saturated_i32(magnitude as int));
            assert forall|m: int, axis: int|
                0 <= m < magnitude && 0 <= axis < 3 implies #[trigger] modes@[3 * m + axis]
                    == axis_mode(axis, saturated_i32(m + 1)) by {
                if m < magnitude - 1 {
                    assert(modes@[3 * m + axis] == before[3 * m + axis]);
                }
            }
        }
        magnitude += 1;
    }
    modes
}

} // verus!
