use vstd::prelude::*;
use vstd::arithmetic::div_mod::{lemma_fundamental_div_mod, lemma_fundamental_div_mod_converse};
use vstd::seq_lib::group_to_multiset_ensures;
use crate::random::shuffle;

verus! {

/// One square of the maze grid: whether its north and west walls still stand,
/// and whether the carving walk has reached it.
#[derive(Clone, Copy)]
struct Cell {
    n: bool,
    w: bool,
    visited: bool,
}

/// The four moves of the carving walk.
#[derive(Clone, Copy)]
enum Direction {
    North,
    South,
    East,
    West,
}

/// Which side of its cell an interior wall closes.
#[derive(Clone, Copy, Debug, PartialEq, Eq, Structural)]
pub enum WallSide {
    North,
    West,
}

/// An interior wall of a maze: the north or west side of cell `(x, y)`,
/// with `y` counted downwards from the top row.
#[derive(Clone, Copy, Debug, PartialEq, Eq, Structural)]
pub struct MazeWall {
    pub side: WallSide,
    pub x: usize,
    pub y: usize,
}

// ----------------------------------------------------------------------------
// The public model of a generated maze
// ----------------------------------------------------------------------------

/// A wall lies inside a `width` x `height` grid and is not part of its border.
pub open spec fn is_interior_wall(wall: MazeWall, width: int, height: int) -> bool {
    &&& wall.x < width
    &&& wall.y < height
    &&& match wall.side {
        WallSide::North => wall.y >= 1,
        WallSide::West => wall.x >= 1,
    }
}

/// Row-major order of walls: by row, then column, the north wall of a cell
/// before its west wall.
pub open spec fn wall_precedes(a: MazeWall, b: MazeWall) -> bool {
    ||| a.y < b.y
    ||| a.y == b.y && a.x < b.x
    ||| a.y == b.y && a.x == b.x && a.side == WallSide::North && b.side == WallSide::West
}

/// Number of walls between two cells of a `width` x `height` grid.
pub open spec fn interior_edge_count(width: int, height: int) -> int {
    width * (height - 1) + height * (width - 1)
}

/// Walls left standing in a perfect maze: every interior wall but the
/// `width * height - 1` passages of a spanning tree.
pub open spec fn perfect_maze_wall_count(width: int, height: int) -> int {
    interior_edge_count(width, height) - (width * height - 1)
}

/// The list holds the `side` wall of cell `(x, y)`.
pub open spec fn has_wall(walls: Seq<MazeWall>, side: WallSide, x: int, y: int) -> bool {
    exists|k: int|
        0 <= k < walls.len() && (#[trigger] walls[k]).side == side && walls[k].x == x && walls[k].y
            == y
}

/// One move between neighbouring cells `(x, y)` and `(x2, y2)` that no wall blocks.
pub open spec fn open_step(
    walls: Seq<MazeWall>,
    width: int,
    height: int,
    x: int,
    y: int,
    x2: int,
    y2: int,
) -> bool {
    &&& 0 <= x < width
    &&& 0 <= y < height
    &&& 0 <= x2 < width
    &&& 0 <= y2 < height
    &&& {
        ||| x2 == x && y2 == y - 1 && !has_wall(walls, WallSide::North, x, y)
        ||| x2 == x && y2 == y + 1 && !has_wall(walls, WallSide::North, x2, y2)
        ||| x2 == x - 1 && y2 == y && !has_wall(walls, WallSide::West, x, y)
        ||| x2 == x + 1 && y2 == y && !has_wall(walls, WallSide::West, x2, y2)
    }
}

/// Cell `(x, y)` can be reached from the top-left cell in at most `n` open moves.
pub open spec fn reachable_within(
    walls: Seq<MazeWall>,
    width: int,
    height: int,
    x: int,
    y: int,
    n: nat,
) -> bool
    decreases n,
{
    if n == 0 {
        x == 0 && y == 0
    } else {
        let m = (n - 1) as nat;
        ||| reachable_within(walls, width, height, x, y, m)
        ||| open_step(walls, width, height, x, y - 1, x, y) && reachable_within(walls, width, height, x, y - 1, m)
        ||| open_step(walls, width, height, x, y + 1, x, y) && reachable_within(walls, width, height, x, y + 1, m)
        ||| open_step(walls, width, height, x - 1, y, x, y) && reachable_within(walls, width, height, x - 1, y, m)
        ||| open_step(walls, width, height, x + 1, y, x, y) && reachable_within(walls, width, height, x + 1, y, m)
    }
}

/// Cell `(x, y)` can be reached from the top-left cell.
pub open spec fn cell_reachable(walls: Seq<MazeWall>, width: int, height: int, x: int, y: int) -> bool {
    exists|n: nat| #[trigger] reachable_within(walls, width, height, x, y, n)
}

/// Every cell of the grid can be reached from the top-left cell.
pub open spec fn maze_connected(walls: Seq<MazeWall>, width: int, height: int) -> bool {
    forall|x: int, y: int|
        0 <= x < width && 0 <= y < height ==> #[trigger] cell_reachable(walls, width, height, x, y)
}

// ----------------------------------------------------------------------------
// The grid model: cell (x, y) is stored at index y * width + x
// ----------------------------------------------------------------------------

/// Index of the cell one step from `i` in direction `d`, if that step stays inside.
spec fn nbr(w: int, len: int, i: int, d: Direction) -> Option<int> {
    match d {
        Direction::North => if i >= w { Some(i - w) } else { None },
        Direction::South => if i + w < len { Some(i + w) } else { None },
        Direction::West => if i % w != 0 && i > 0 { Some(i - 1) } else { None },
        Direction::East => if i % w != w - 1 && i + 1 < len { Some(i + 1) } else { None },
    }
}

spec fn nbr_visited(g: Seq<Cell>, w: int, i: int, d: Direction) -> bool {
    match nbr(w, g.len() as int, i, d) {
        Some(k) => g[k].visited,
        None => true,
    }
}

/// Every neighbour of cell `i` has been reached.
spec fn closed_off(g: Seq<Cell>, w: int, i: int) -> bool {
    &&& nbr_visited(g, w, i, Direction::North)
    &&& nbr_visited(g, w, i, Direction::South)
    &&& nbr_visited(g, w, i, Direction::East)
    &&& nbr_visited(g, w, i, Direction::West)
}

/// Cell `j` has been reached, or it is `e`, the cell being entered right now.
spec fn seen(g: Seq<Cell>, e: int, j: int) -> bool {
    g[j].visited || j == e
}

/// The north and west walls of cell `j` are open only towards cells that are
/// reached (or are `e`, the cell being entered right now).
spec fn cell_walls_ok(g: Seq<Cell>, w: int, e: int, j: int) -> bool {
    &&& (!g[j].n ==> j >= w && seen(g, e, j) && seen(g, e, j - w))
    &&& (!g[j].w ==> j % w != 0 && j > 0 && seen(g, e, j) && seen(g, e, j - 1))
}

/// A wall is open only between two reached cells (or the cell `e` being entered).
#[verifier::opaque]
spec fn walls_ok(g: Seq<Cell>, w: int, e: int) -> bool {
    forall|j: int| 0 <= j < g.len() ==> #[trigger] cell_walls_ok(g, w, e, j)
}

spec fn opposite(d: Direction) -> Direction {
    match d {
        Direction::North => Direction::South,
        Direction::South => Direction::North,
        Direction::East => Direction::West,
        Direction::West => Direction::East,
    }
}

/// The wall between cell `q` and its neighbour in direction `d` is down.
spec fn passage(g: Seq<Cell>, w: int, q: int, d: Direction) -> bool {
    match d {
        Direction::North => !g[q].n,
        Direction::South => !g[q + w].n,
        Direction::West => !g[q].w,
        Direction::East => !g[q + 1].w,
    }
}

/// Cell `q` hangs, through an open passage in direction `d`, on a reached
/// neighbour of smaller rank.
spec fn hangs(g: Seq<Cell>, r: Seq<int>, w: int, q: int, d: Direction) -> bool {
    match nbr(w, g.len() as int, q, d) {
        Some(p) => passage(g, w, q, d) && g[p].visited && 0 <= r[p] < r[q],
        None => false,
    }
}

/// Cell `q` is the root, or hangs on some neighbour.
spec fn linked(g: Seq<Cell>, r: Seq<int>, w: int, q: int) -> bool {
    ||| q == 0
    ||| hangs(g, r, w, q, Direction::North)
    ||| hangs(g, r, w, q, Direction::South)
    ||| hangs(g, r, w, q, Direction::East)
    ||| hangs(g, r, w, q, Direction::West)
}

/// Every reached cell is linked, by open passages of decreasing rank, to the root.
#[verifier::opaque]
spec fn tree_ok(g: Seq<Cell>, r: Seq<int>, w: int) -> bool {
    &&& r.len() == g.len()
    &&& forall|q: int| 0 <= q < g.len() && #[trigger] g[q].visited ==> linked(g, r, w, q) && r[q] >= 0
}

/// Walls only ever come down.
spec fn walls_open_grow(g: Seq<Cell>, g2: Seq<Cell>) -> bool {
    &&& g2.len() == g.len()
    &&& forall|q: int| 0 <= q < g.len() ==> (!(#[trigger] g[q]).n ==> !g2[q].n) && (!g[q].w ==> !g2[q].w)
}

/// A wall of the output list stands in the grid.
spec fn wall_closed(g: Seq<Cell>, w: int, m: MazeWall) -> bool {
    match m.side {
        WallSide::North => g[m.y * w + m.x].n,
        WallSide::West => g[m.y * w + m.x].w,
    }
}

spec fn tally(s: Seq<Cell>, f: spec_fn(Cell) -> int) -> int
    decreases s.len(),
{
    if s.len() == 0 {
        0
    } else {
        tally(s.drop_last(), f) + f(s.last())
    }
}

spec fn unvisited_weight() -> spec_fn(Cell) -> int {
    |c: Cell| if c.visited { 0int } else { 1int }
}

spec fn open_weight() -> spec_fn(Cell) -> int {
    |c: Cell| (if c.n { 0int } else { 1int }) + (if c.w { 0int } else { 1int })
}

spec fn unvisited_count(g: Seq<Cell>) -> int {
    tally(g, unvisited_weight())
}

spec fn open_count(g: Seq<Cell>) -> int {
    tally(g, open_weight())
}

// ----------------------------------------------------------------------------
// Lemmas
// ----------------------------------------------------------------------------

proof fn lemma_tally_update(s: Seq<Cell>, i: int, v: Cell, f: spec_fn(Cell) -> int)
    requires
        0 <= i < s.len(),
    ensures
        tally(s.update(i, v), f) == tally(s, f) - f(s[i]) + f(v),
    decreases s.len(),
{
    let t = s.update(i, v);
    if i == s.len() - 1 {
        assert(t.drop_last() =~= s.drop_last());
    } else {
        lemma_tally_update(s.drop_last(), i, v, f);
        assert(t.drop_last() =~= s.drop_last().update(i, v));
    }
}

proof fn lemma_tally_nonneg(s: Seq<Cell>, f: spec_fn(Cell) -> int)
    requires
        forall|c: Cell| #[trigger] f(c) >= 0,
    ensures
        tally(s, f) >= 0,
    decreases s.len(),
{
    if s.len() > 0 {
        lemma_tally_nonneg(s.drop_last(), f);
        assert(f(s.last()) >= 0);
    }
}

proof fn lemma_tally_const(s: Seq<Cell>, f: spec_fn(Cell) -> int, c: int)
    requires
        forall|k: int| 0 <= k < s.len() ==> f(#[trigger] s[k]) == c,
    ensures
        tally(s, f) == c * s.len(),
    decreases s.len(),
{
    if s.len() > 0 {
        let p = s.drop_last();
        assert forall|k: int| 0 <= k < p.len() implies f(#[trigger] p[k]) == c by {
            assert(p[k] == s[k]);
        }
        lemma_tally_const(p, f, c);
        assert(f(s.last()) == c);
        let n = s.len() as int;
        assert(c * (n - 1) + c == c * n) by (nonlinear_arith);
    }
}

proof fn lemma_tally_prefix(s: Seq<Cell>, f: spec_fn(Cell) -> int, i: int)
    requires
        0 <= i < s.len(),
    ensures
        tally(s.take(i + 1), f) == tally(s.take(i), f) + f(s[i]),
{
    assert(s.take(i + 1).drop_last() =~= s.take(i));
}

/// Arithmetic of the row-major layout for an in-grid cell `(x, y)`.
proof fn lemma_index(w: int, h: int, x: int, y: int)
    requires
        0 <= x < w,
        0 <= y < h,
    ensures
        0 <= y * w + x < w * h,
        (y * w + x) % w == x,
        (y * w + x) / w == y,
        (y * w + x >= w) <==> y > 0,
        y > 0 ==> y * w + x - w == (y - 1) * w + x,
        (y * w + x + w < w * h) <==> y + 1 < h,
        y + 1 < h ==> y * w + x + w == (y + 1) * w + x,
        x + 1 < w ==> y * w + x + 1 < w * h,
        (y * w + x > 0) <==> (x > 0 || y > 0),
{
    let i = y * w + x;
    assert(0 <= i < w * h) by (nonlinear_arith)
        requires
            0 <= x < w,
            0 <= y < h,
            i == y * w + x,
    ;
    lemma_fundamental_div_mod_converse(i, w, y, x);
    assert((i >= w) <==> y > 0) by (nonlinear_arith)
        requires
            0 <= x < w,
            0 <= y,
            i == y * w + x,
    ;
    assert(y > 0 ==> i - w == (y - 1) * w + x) by (nonlinear_arith)
        requires
            i == y * w + x,
    ;
    assert((i + w < w * h) <==> y + 1 < h) by (nonlinear_arith)
        requires
            0 <= x < w,
            0 <= y < h,
            i == y * w + x,
    ;
    assert(i + w == (y + 1) * w + x) by (nonlinear_arith)
        requires
            i == y * w + x,
    ;
    assert(x + 1 < w ==> i + 1 < w * h) by (nonlinear_arith)
        requires
            0 <= x < w,
            0 <= y < h,
            i == y * w + x,
    ;
    assert((i > 0) <==> (x > 0 || y > 0)) by (nonlinear_arith)
        requires
            0 <= x < w,
            0 <= y,
            i == y * w + x,
    ;
}

/// Every index of the grid is the cell `(j % w, j / w)`.
proof fn lemma_coords(w: int, h: int, j: int)
    requires
        0 < w,
        0 <= j < w * h,
    ensures
        j == (j / w) * w + j % w,
        0 <= j % w < w,
        0 <= j / w < h,
{
    lemma_fundamental_div_mod(j, w);
    let q = j / w;
    let r = j % w;
    assert(w * q == q * w) by (nonlinear_arith);
    assert(0 <= r < w);
    assert(0 <= q < h) by (nonlinear_arith)
        requires
            j == q * w + r,
            0 <= r < w,
            0 <= j < w * h,
            0 < w,
    ;
}

/// A walk that closes off every cell it reaches, starting from cell 0,
/// reaches the whole grid.
proof fn lemma_reaches_all(g: Seq<Cell>, w: int, h: int, j: int)
    requires
        0 < w,
        0 < h,
        g.len() == w * h,
        g[0].visited,
        forall|k: int| 0 <= k < g.len() && #[trigger] g[k].visited ==> closed_off(g, w, k),
        0 <= j < g.len(),
    ensures
        g[j].visited,
    decreases j,
{
    if j > 0 {
        lemma_coords(w, h, j);
        let x = j % w;
        let y = j / w;
        if x > 0 {
            lemma_index(w, h, x - 1, y);
            assert(y * w + (x - 1) == j - 1);
            lemma_reaches_all(g, w, h, j - 1);
            assert(closed_off(g, w, j - 1));
            assert(nbr(w, g.len() as int, j - 1, Direction::East) == Some(j));
        } else {
            lemma_index(w, h, x, y);
            assert(y > 0);
            lemma_index(w, h, x, y - 1);
            assert((y - 1) * w + x == j - w);
            lemma_reaches_all(g, w, h, j - w);
            assert(closed_off(g, w, j - w));
            assert(nbr(w, g.len() as int, j - w, Direction::South) == Some(j));
        }
    }
}

proof fn lemma_hangs_grows(
    g: Seq<Cell>,
    g2: Seq<Cell>,
    r: Seq<int>,
    r2: Seq<int>,
    w: int,
    q: int,
    d: Direction,
)
    requires
        0 < w,
        0 <= q < g.len(),
        reach_grows(g, g2),
        walls_open_grow(g, g2),
        r.len() == g.len(),
        r2.len() == g.len(),
        r2[q] == r[q],
        forall|p: int| 0 <= p < g.len() && #[trigger] g[p].visited ==> r2[p] == r[p],
        hangs(g, r, w, q, d),
    ensures
        hangs(g2, r2, w, q, d),
{
    match nbr(w, g.len() as int, q, d) {
        Some(p) => {
            assert(g[p].visited);
            assert(g2[p].visited);
            assert(r2[p] == r[p]);
            match d {
                Direction::North => {
                    assert(!g[q].n ==> !g2[q].n);
                },
                Direction::South => {
                    assert(!g[q + w].n ==> !g2[q + w].n);
                },
                Direction::West => {
                    assert(!g[q].w ==> !g2[q].w);
                },
                Direction::East => {
                    assert(!g[q + 1].w ==> !g2[q + 1].w);
                },
            }
        },
        None => {},
    }
}

proof fn lemma_linked_grows(g: Seq<Cell>, g2: Seq<Cell>, r: Seq<int>, r2: Seq<int>, w: int, q: int)
    requires
        0 < w,
        0 <= q < g.len(),
        reach_grows(g, g2),
        walls_open_grow(g, g2),
        r.len() == g.len(),
        r2.len() == g.len(),
        r2[q] == r[q],
        forall|p: int| 0 <= p < g.len() && #[trigger] g[p].visited ==> r2[p] == r[p],
        linked(g, r, w, q),
    ensures
        linked(g2, r2, w, q),
{
    if hangs(g, r, w, q, Direction::North) {
        lemma_hangs_grows(g, g2, r, r2, w, q, Direction::North);
    }
    if hangs(g, r, w, q, Direction::South) {
        lemma_hangs_grows(g, g2, r, r2, w, q, Direction::South);
    }
    if hangs(g, r, w, q, Direction::East) {
        lemma_hangs_grows(g, g2, r, r2, w, q, Direction::East);
    }
    if hangs(g, r, w, q, Direction::West) {
        lemma_hangs_grows(g, g2, r, r2, w, q, Direction::West);
    }
}

proof fn lemma_open_grow_trans(a: Seq<Cell>, b: Seq<Cell>, c: Seq<Cell>)
    requires
        walls_open_grow(a, b),
        walls_open_grow(b, c),
    ensures
        walls_open_grow(a, c),
{
    assert forall|q: int| 0 <= q < a.len() implies (!(#[trigger] a[q]).n ==> !c[q].n) && (!a[q].w ==> !c[q].w) by {
        assert((!a[q].n ==> !b[q].n) && (!a[q].w ==> !b[q].w));
        assert((!b[q].n ==> !c[q].n) && (!b[q].w ==> !c[q].w));
    }
}

/// Knocking down walls keeps every reached cell linked to the root.
proof fn lemma_tree_walls(g: Seq<Cell>, g2: Seq<Cell>, r: Seq<int>, w: int)
    requires
        0 < w,
        tree_ok(g, r, w),
        walls_open_grow(g, g2),
        forall|q: int| 0 <= q < g.len() ==> #[trigger] g2[q].visited == g[q].visited,
    ensures
        tree_ok(g2, r, w),
{
    reveal(tree_ok);
    assert(reach_grows(g, g2));
    assert forall|q: int| 0 <= q < g2.len() && #[trigger] g2[q].visited implies linked(g2, r, w, q)
        && r[q] >= 0 by {
        assert(g[q].visited);
        lemma_linked_grows(g, g2, r, r, w, q);
    }
}

proof fn lemma_reach_mono(walls: Seq<MazeWall>, width: int, height: int, x: int, y: int, n: nat, m: nat)
    requires
        n <= m,
        reachable_within(walls, width, height, x, y, n),
    ensures
        reachable_within(walls, width, height, x, y, m),
    decreases m,
{
    if n < m {
        lemma_reach_mono(walls, width, height, x, y, n, (m - 1) as nat);
    }
}

proof fn lemma_reach_step(
    walls: Seq<MazeWall>,
    width: int,
    height: int,
    x2: int,
    y2: int,
    x: int,
    y: int,
    n: nat,
)
    requires
        open_step(walls, width, height, x2, y2, x, y),
        reachable_within(walls, width, height, x2, y2, n),
    ensures
        reachable_within(walls, width, height, x, y, n + 1),
{
    let m: nat = n + 1;
    assert(((m - 1) as nat) == n);
    assert(reachable_within(walls, width, height, x, y, m));
}

/// If the list holds no wall that stands open in the grid, every reached cell
/// is reachable from the root within its rank.
proof fn lemma_reach(g: Seq<Cell>, r: Seq<int>, walls: Seq<MazeWall>, w: int, h: int, q: int)
    requires
        0 < w,
        0 < h,
        g.len() == w * h,
        tree_ok(g, r, w),
        forall|k: int| 0 <= k < walls.len() ==> wall_closed(g, w, #[trigger] walls[k]),
        0 <= q < g.len(),
        g[q].visited,
    ensures
        r[q] >= 0,
        reachable_within(walls, w, h, q % w, q / w, r[q] as nat),
    decreases r[q],
{
    reveal(tree_ok);
    assert(linked(g, r, w, q) && r[q] >= 0);
    lemma_coords(w, h, q);
    let x = q % w;
    let y = q / w;
    lemma_index(w, h, x, y);
    if q == 0 {
        assert(x == 0 && y == 0);
        lemma_reach_mono(walls, w, h, x, y, 0, r[q] as nat);
        assert(reachable_within(walls, w, h, x, y, r[q] as nat));
    } else {
        let n = r[q] as nat;
        if hangs(g, r, w, q, Direction::North) {
            let p = q - w;
            lemma_index(w, h, x, y - 1);
            lemma_reach(g, r, walls, w, h, p);
            lemma_reach_mono(walls, w, h, x, y - 1, r[p] as nat, (n - 1) as nat);
            if has_wall(walls, WallSide::North, x, y) {
                let k = choose|k: int|
                    0 <= k < walls.len() && (#[trigger] walls[k]).side == WallSide::North
                        && walls[k].x == x && walls[k].y == y;
                assert(wall_closed(g, w, walls[k]));
            }
            assert(open_step(walls, w, h, x, y - 1, x, y));
            lemma_reach_step(walls, w, h, x, y - 1, x, y, (n - 1) as nat);
        } else if hangs(g, r, w, q, Direction::South) {
            let p = q + w;
            lemma_index(w, h, x, y + 1);
            lemma_reach(g, r, walls, w, h, p);
            lemma_reach_mono(walls, w, h, x, y + 1, r[p] as nat, (n - 1) as nat);
            if has_wall(walls, WallSide::North, x, y + 1) {
                let k = choose|k: int|
                    0 <= k < walls.len() && (#[trigger] walls[k]).side == WallSide::North
                        && walls[k].x == x && walls[k].y == y + 1;
                assert(wall_closed(g, w, walls[k]));
            }
            assert(open_step(walls, w, h, x, y + 1, x, y));
            lemma_reach_step(walls, w, h, x, y + 1, x, y, (n - 1) as nat);
        } else if hangs(g, r, w, q, Direction::West) {
            let p = q - 1;
            lemma_index(w, h, x - 1, y);
            lemma_reach(g, r, walls, w, h, p);
            lemma_reach_mono(walls, w, h, x - 1, y, r[p] as nat, (n - 1) as nat);
            if has_wall(walls, WallSide::West, x, y) {
                let k = choose|k: int|
                    0 <= k < walls.len() && (#[trigger] walls[k]).side == WallSide::West
                        && walls[k].x == x && walls[k].y == y;
                assert(wall_closed(g, w, walls[k]));
            }
            assert(open_step(walls, w, h, x - 1, y, x, y));
            lemma_reach_step(walls, w, h, x - 1, y, x, y, (n - 1) as nat);
        } else {
            assert(hangs(g, r, w, q, Direction::East));
            let p = q + 1;
            lemma_index(w, h, x + 1, y);
            lemma_reach(g, r, walls, w, h, p);
            lemma_reach_mono(walls, w, h, x + 1, y, r[p] as nat, (n - 1) as nat);
            if has_wall(walls, WallSide::West, x + 1, y) {
                let k = choose|k: int|
                    0 <= k < walls.len() && (#[trigger] walls[k]).side == WallSide::West
                        && walls[k].x == x + 1 && walls[k].y == y;
                assert(wall_closed(g, w, walls[k]));
            }
            assert(open_step(walls, w, h, x + 1, y, x, y));
            lemma_reach_step(walls, w, h, x + 1, y, x, y, (n - 1) as nat);
        }
    }
}

// ----------------------------------------------------------------------------
// Carving
// ----------------------------------------------------------------------------

/// The cell one step from `(cx, cy)` in direction `d`, if it lies inside the grid.
fn step(cx: usize, cy: usize, d: Direction, width: usize, height: usize) -> (res: Option<(usize, usize)>)
    requires
        0 < width,
        0 < height,
        cx < width,
        cy < height,
    ensures
        match res {
            Some((nx, ny)) => nx < width && ny < height && nbr(
                width as int,
                width * height,
                cy * width + cx,
                d,
            ) == Some(ny * width + nx),
            None => nbr(width as int, width * height, cy * width + cx, d) is None,
        },
{
    proof {
        lemma_index(width as int, height as int, cx as int, cy as int);
    }
    match d {
        Direction::North => if cy > 0 {
            Some((cx, cy - 1))
        } else {
            None
        },
        Direction::South => if cy + 1 < height {
            Some((cx, cy + 1))
        } else {
            None
        },
        Direction::East => if cx + 1 < width {
            Some((cx + 1, cy))
        } else {
            None
        },
        Direction::West => if cx > 0 {
            Some((cx - 1, cy))
        } else {
            None
        },
    }
}

/// Visited flags only ever get set.
spec fn reach_grows(g: Seq<Cell>, g2: Seq<Cell>) -> bool {
    &&& g2.len() == g.len()
    &&& forall|q: int| 0 <= q < g.len() && #[trigger] g[q].visited ==> g2[q].visited
}

/// Every cell first reached between `g0` and `g`, except `i`, is closed off in `g`.
#[verifier::opaque]
spec fn fresh_closed(g0: Seq<Cell>, g: Seq<Cell>, w: int, i: int) -> bool {
    forall|j: int|
        0 <= j < g0.len() && !g0[j].visited && #[trigger] g[j].visited && j != i
            ==> closed_off(g, w, j)
}

/// The first `k` directions of `dirs` lead out of the grid or to reached cells.
#[verifier::opaque]
spec fn dirs_done(g: Seq<Cell>, w: int, i: int, dirs: Seq<Direction>, k: int) -> bool {
    forall|m: int| 0 <= m < k ==> nbr_visited(g, w, i, #[trigger] dirs[m])
}

proof fn lemma_nbr_visited_grows(g: Seq<Cell>, g2: Seq<Cell>, w: int, q: int, d: Direction)
    requires
        reach_grows(g, g2),
        0 < w,
        0 <= q < g.len(),
        nbr_visited(g, w, q, d),
    ensures
        nbr_visited(g2, w, q, d),
{
    match nbr(w, g.len() as int, q, d) {
        Some(k) => {
            assert(g[k].visited);
        },
        None => {},
    }
}

proof fn lemma_closed_off_grows(g: Seq<Cell>, g2: Seq<Cell>, w: int, q: int)
    requires
        reach_grows(g, g2),
        0 < w,
        0 <= q < g.len(),
        closed_off(g, w, q),
    ensures
        closed_off(g2, w, q),
{
    lemma_nbr_visited_grows(g, g2, w, q, Direction::North);
    lemma_nbr_visited_grows(g, g2, w, q, Direction::South);
    lemma_nbr_visited_grows(g, g2, w, q, Direction::East);
    lemma_nbr_visited_grows(g, g2, w, q, Direction::West);
}

/// What the carving loop knows after descending into a neighbour: the state
/// `g1` before knocking down the wall, `g2` after it, `g3` after the descent.
proof fn lemma_descent(
    g0: Seq<Cell>,
    g1: Seq<Cell>,
    g2: Seq<Cell>,
    g3: Seq<Cell>,
    w: int,
    i: int,
    j: int,
    d: Direction,
    dirs: Seq<Direction>,
    k: int,
)
    requires
        0 < w,
        0 <= i < g0.len(),
        0 <= k < dirs.len(),
        dirs[k] == d,
        nbr(w, g0.len() as int, i, d) == Some(j),
        reach_grows(g0, g1),
        g2.len() == g1.len(),
        forall|q: int| 0 <= q < g1.len() ==> #[trigger] g2[q].visited == g1[q].visited,
        reach_grows(g2, g3),
        g3[j].visited,
        g1[i].visited,
        fresh_closed(g0, g1, w, i),
        fresh_closed(g2, g3, w, -1),
        dirs_done(g1, w, i, dirs, k),
    ensures
        reach_grows(g0, g3),
        g3[i].visited,
        fresh_closed(g0, g3, w, i),
        dirs_done(g3, w, i, dirs, k + 1),
{
    assert(g2[i].visited);
    reveal(fresh_closed);
    reveal(dirs_done);
    assert(reach_grows(g1, g3)) by {
        assert forall|q: int| 0 <= q < g1.len() && #[trigger] g1[q].visited implies g3[q].visited by {
            assert(g2[q].visited);
        }
    }
    assert forall|q: int|
        0 <= q < g0.len() && !g0[q].visited && #[trigger] g3[q].visited && q != i implies closed_off(
        g3,
        w,
        q,
    ) by {
        if g1[q].visited {
            lemma_closed_off_grows(g1, g3, w, q);
        } else {
            assert(!g2[q].visited);
        }
    }
    assert forall|m: int| 0 <= m < k + 1 implies nbr_visited(g3, w, i, #[trigger] dirs[m]) by {
        if m < k {
            lemma_nbr_visited_grows(g1, g3, w, i, dirs[m]);
        }
    }
}

// ----------------------------------------------------------------------------
// What one carving call does: its reach and its frame
// ----------------------------------------------------------------------------

/// Cell `q` was unreached in `g0` and is reached in `g`.
spec fn newly(g0: Seq<Cell>, g: Seq<Cell>, q: int) -> bool {
    !g0[q].visited && g[q].visited
}

/// Cell `q` can be reached from cell `s` in at most `n` moves between
/// neighbouring cells, all of them unreached in `g0`.
spec fn comp_within(g0: Seq<Cell>, w: int, s: int, q: int, n: nat) -> bool
    decreases n,
{
    if n == 0 {
        q == s
    } else {
        let m = (n - 1) as nat;
        let len = g0.len() as int;
        ||| comp_within(g0, w, s, q, m)
        ||| !g0[q].visited && match nbr(w, len, q, Direction::North) {
            Some(p) => !g0[p].visited && comp_within(g0, w, s, p, m),
            None => false,
        }
        ||| !g0[q].visited && match nbr(w, len, q, Direction::South) {
            Some(p) => !g0[p].visited && comp_within(g0, w, s, p, m),
            None => false,
        }
        ||| !g0[q].visited && match nbr(w, len, q, Direction::East) {
            Some(p) => !g0[p].visited && comp_within(g0, w, s, p, m),
            None => false,
        }
        ||| !g0[q].visited && match nbr(w, len, q, Direction::West) {
            Some(p) => !g0[p].visited && comp_within(g0, w, s, p, m),
            None => false,
        }
    }
}

/// Cell `q` lies in the connected part of the cells unreached in `g0` that holds `s`.
spec fn in_component(g0: Seq<Cell>, w: int, s: int, q: int) -> bool {
    exists|n: nat| #[trigger] comp_within(g0, w, s, q, n)
}

/// Cell `q`, newly reached, was entered through an open wall in direction `d`
/// from a newly reached neighbour of smaller rank.
spec fn fresh_hangs(g0: Seq<Cell>, g: Seq<Cell>, r: Seq<int>, w: int, q: int, d: Direction) -> bool {
    match nbr(w, g.len() as int, q, d) {
        Some(p) => passage(g, w, q, d) && newly(g0, g, p) && 0 <= r[p] < r[q],
        None => false,
    }
}

spec fn fresh_linked(g0: Seq<Cell>, g: Seq<Cell>, r: Seq<int>, w: int, q: int) -> bool {
    ||| fresh_hangs(g0, g, r, w, q, Direction::North)
    ||| fresh_hangs(g0, g, r, w, q, Direction::South)
    ||| fresh_hangs(g0, g, r, w, q, Direction::East)
    ||| fresh_hangs(g0, g, r, w, q, Direction::West)
}

/// Every cell newly reached, but the start `s`, was entered from a newly reached cell.
#[verifier::opaque]
spec fn fresh_tree(g0: Seq<Cell>, g: Seq<Cell>, r: Seq<int>, w: int, s: int) -> bool {
    forall|q: int|
        0 <= q < g.len() && q != s && #[trigger] newly(g0, g, q) ==> fresh_linked(g0, g, r, w, q)
}

/// Cells reached in `g0` are left exactly as they were.
#[verifier::opaque]
spec fn untouched(g0: Seq<Cell>, g: Seq<Cell>) -> bool {
    &&& g.len() == g0.len()
    &&& forall|q: int| 0 <= q < g0.len() && #[trigger] g0[q].visited ==> g[q] == g0[q]
}

/// Every wall knocked down between `g0` and `g` lies between two newly reached cells.
#[verifier::opaque]
spec fn cleared_inside(g0: Seq<Cell>, g: Seq<Cell>, w: int) -> bool {
    forall|q: int|
        0 <= q < g0.len() ==> {
            &&& ((#[trigger] g0[q]).n && !g[q].n ==> q >= w && newly(g0, g, q) && newly(g0, g, q - w))
            &&& (g0[q].w && !g[q].w ==> q >= 1 && newly(g0, g, q) && newly(g0, g, q - 1))
        }
}

proof fn lemma_passage_grows(g: Seq<Cell>, g2: Seq<Cell>, w: int, q: int, d: Direction)
    requires
        0 < w,
        0 <= q < g.len(),
        walls_open_grow(g, g2),
        nbr(w, g.len() as int, q, d) is Some,
        passage(g, w, q, d),
    ensures
        passage(g2, w, q, d),
{
    match d {
        Direction::North => assert(!g[q].n ==> !g2[q].n),
        Direction::South => assert(!g[q + w].n ==> !g2[q + w].n),
        Direction::West => assert(!g[q].w ==> !g2[q].w),
        Direction::East => assert(!g[q + 1].w ==> !g2[q + 1].w),
    }
}

proof fn lemma_fresh_hangs_lift(
    ga0: Seq<Cell>,
    ga: Seq<Cell>,
    ra: Seq<int>,
    gb0: Seq<Cell>,
    gb: Seq<Cell>,
    rb: Seq<int>,
    w: int,
    q: int,
    d: Direction,
)
    requires
        0 < w,
        0 <= q < ga.len(),
        gb.len() == ga.len(),
        walls_open_grow(ga, gb),
        forall|p: int| 0 <= p < ga.len() && #[trigger] newly(ga0, ga, p) ==> newly(gb0, gb, p) && rb[p] == ra[p],
        rb[q] == ra[q],
        fresh_hangs(ga0, ga, ra, w, q, d),
    ensures
        fresh_hangs(gb0, gb, rb, w, q, d),
{
    match nbr(w, ga.len() as int, q, d) {
        Some(p) => {
            assert(newly(ga0, ga, p));
            lemma_passage_grows(ga, gb, w, q, d);
        },
        None => {},
    }
}

proof fn lemma_fresh_linked_lift(
    ga0: Seq<Cell>,
    ga: Seq<Cell>,
    ra: Seq<int>,
    gb0: Seq<Cell>,
    gb: Seq<Cell>,
    rb: Seq<int>,
    w: int,
    q: int,
)
    requires
        0 < w,
        0 <= q < ga.len(),
        gb.len() == ga.len(),
        walls_open_grow(ga, gb),
        forall|p: int| 0 <= p < ga.len() && #[trigger] newly(ga0, ga, p) ==> newly(gb0, gb, p) && rb[p] == ra[p],
        rb[q] == ra[q],
        fresh_linked(ga0, ga, ra, w, q),
    ensures
        fresh_linked(gb0, gb, rb, w, q),
{
    if fresh_hangs(ga0, ga, ra, w, q, Direction::North) {
        lemma_fresh_hangs_lift(ga0, ga, ra, gb0, gb, rb, w, q, Direction::North);
    } else if fresh_hangs(ga0, ga, ra, w, q, Direction::South) {
        lemma_fresh_hangs_lift(ga0, ga, ra, gb0, gb, rb, w, q, Direction::South);
    } else if fresh_hangs(ga0, ga, ra, w, q, Direction::East) {
        lemma_fresh_hangs_lift(ga0, ga, ra, gb0, gb, rb, w, q, Direction::East);
    } else {
        lemma_fresh_hangs_lift(ga0, ga, ra, gb0, gb, rb, w, q, Direction::West);
    }
}

/// After descending from `i` into `j` in direction `d`: `g0` at the start of
/// the call, `g1` before the wall between `i` and `j` came down, `g2` after,
/// `g3` after the descent.
proof fn lemma_fresh_descent(
    g0: Seq<Cell>,
    g1: Seq<Cell>,
    g2: Seq<Cell>,
    g3: Seq<Cell>,
    r1: Seq<int>,
    r3: Seq<int>,
    w: int,
    i: int,
    j: int,
    d: Direction,
    rank: int,
)
    requires
        0 < w,
        0 <= i < g0.len(),
        0 <= j < g0.len(),
        g1.len() == g0.len(),
        g2.len() == g0.len(),
        g3.len() == g0.len(),
        r1.len() == g0.len(),
        r3.len() == g0.len(),
        rank >= 0,
        !g0[i].visited,
        g1[i].visited,
        !g1[j].visited,
        r1[i] == rank,
        reach_grows(g0, g1),
        untouched(g0, g1),
        fresh_tree(g0, g1, r1, w, i),
        cleared_inside(g0, g1, w),
        forall|q: int| 0 <= q < g1.len() ==> #[trigger] g2[q].visited == g1[q].visited,
        forall|q: int| 0 <= q < g1.len() && q != i && q != j ==> #[trigger] g2[q] == g1[q],
        forall|q: int|
            0 <= q < g1.len() ==> ((#[trigger] g1[q]).n && !g2[q].n ==> (q == i && q - w == j) || (q
                == j && q - w == i)) && (g1[q].w && !g2[q].w ==> (q == i && q - 1 == j) || (q == j
                && q - 1 == i)),
        walls_open_grow(g1, g2),
        nbr(w, g0.len() as int, j, opposite(d)) == Some(i),
        passage(g2, w, j, opposite(d)),
        reach_grows(g2, g3),
        walls_open_grow(g2, g3),
        untouched(g2, g3),
        fresh_tree(g2, g3, r3, w, j),
        cleared_inside(g2, g3, w),
        g3[j].visited,
        r3[j] == rank + 1,
        forall|q: int| 0 <= q < g2.len() && #[trigger] g2[q].visited ==> r3[q] == r1[q],
    ensures
        untouched(g0, g3),
        fresh_tree(g0, g3, r3, w, i),
        cleared_inside(g0, g3, w),
{
    reveal(untouched);
    reveal(fresh_tree);
    reveal(cleared_inside);
    lemma_open_grow_trans(g1, g2, g3);
    assert(reach_grows(g1, g3)) by {
        assert forall|q: int| 0 <= q < g1.len() && #[trigger] g1[q].visited implies g3[q].visited by {
            assert(g2[q].visited);
        }
    }
    assert(g3[i].visited) by {
        assert(g2[i].visited);
    }
    assert forall|q: int| 0 <= q < g0.len() && #[trigger] g0[q].visited implies g3[q] == g0[q] by {
        assert(g1[q] == g0[q]);
        assert(q != i);
        assert(q != j);
        assert(g2[q] == g1[q]);
    }
    assert forall|q: int| 0 <= q < g3.len() && q != i && #[trigger] newly(g0, g3, q) implies fresh_linked(
        g0,
        g3,
        r3,
        w,
        q,
    ) by {
        if g1[q].visited {
            assert(newly(g0, g1, q));
            assert forall|p: int| 0 <= p < g1.len() && #[trigger] newly(g0, g1, p) implies newly(
                g0,
                g3,
                p,
            ) && r3[p] == r1[p] by {
                assert(g2[p].visited);
            }
            assert(g2[q].visited);
            lemma_fresh_linked_lift(g0, g1, r1, g0, g3, r3, w, q);
        } else {
            assert(!g2[q].visited);
            if q == j {
                assert(g2[i].visited);
                lemma_passage_grows(g2, g3, w, j, opposite(d));
                assert(fresh_hangs(g0, g3, r3, w, j, opposite(d)));
                match d {
                    Direction::North => assert(fresh_hangs(g0, g3, r3, w, j, Direction::South)),
                    Direction::South => assert(fresh_hangs(g0, g3, r3, w, j, Direction::North)),
                    Direction::East => assert(fresh_hangs(g0, g3, r3, w, j, Direction::West)),
                    Direction::West => assert(fresh_hangs(g0, g3, r3, w, j, Direction::East)),
                }
            } else {
                assert(newly(g2, g3, q));
                assert(fresh_linked(g2, g3, r3, w, q));
                assert forall|p: int| 0 <= p < g2.len() && #[trigger] newly(g2, g3, p) implies newly(
                    g0,
                    g3,
                    p,
                ) && r3[p] == r3[p] by {
                    if g0[p].visited {
                        assert(g1[p].visited);
                    }
                }
                assert(walls_open_grow(g3, g3));
                lemma_fresh_linked_lift(g2, g3, r3, g0, g3, r3, w, q);
            }
        }
    }
    assert forall|q: int| 0 <= q < g0.len() implies {
        &&& ((#[trigger] g0[q]).n && !g3[q].n ==> q >= w && newly(g0, g3, q) && newly(g0, g3, q - w))
        &&& (g0[q].w && !g3[q].w ==> q >= 1 && newly(g0, g3, q) && newly(g0, g3, q - 1))
    } by {
        assert(g0[q].n && !g1[q].n ==> q >= w && newly(g0, g1, q) && newly(g0, g1, q - w));
        assert(g0[q].w && !g1[q].w ==> q >= 1 && newly(g0, g1, q) && newly(g0, g1, q - 1));
        assert(g2[q].n && !g3[q].n ==> q >= w && newly(g2, g3, q) && newly(g2, g3, q - w));
        assert(g2[q].w && !g3[q].w ==> q >= 1 && newly(g2, g3, q) && newly(g2, g3, q - 1));
        assert(g1[q].visited ==> g3[q].visited);
        assert(g0[j].visited ==> g1[j].visited);
        if q >= w {
            assert(g1[q - w].visited ==> g3[q - w].visited);
            assert(g0[q - w].visited ==> g1[q - w].visited);
            assert(g0[q - w].visited ==> g2[q - w].visited);
        }
        if q >= 1 {
            assert(g1[q - 1].visited ==> g3[q - 1].visited);
            assert(g0[q - 1].visited ==> g1[q - 1].visited);
            assert(g0[q - 1].visited ==> g2[q - 1].visited);
        }
        assert(g0[q].visited ==> g2[q].visited);
        assert(g2[j].visited == g1[j].visited);
    }
}

/// The neighbour relation is symmetric.
proof fn lemma_nbr_opposite(w: int, h: int, q: int, d: Direction)
    requires
        0 < w,
        0 < h,
        0 <= q < w * h,
        nbr(w, w * h, q, d) is Some,
    ensures
        0 <= nbr(w, w * h, q, d)->0 < w * h,
        nbr(w, w * h, nbr(w, w * h, q, d)->0, opposite(d)) == Some(q),
{
    lemma_coords(w, h, q);
    let x = q % w;
    let y = q / w;
    lemma_index(w, h, x, y);
    match d {
        Direction::North => {
            lemma_index(w, h, x, y - 1);
        },
        Direction::South => {
            lemma_index(w, h, x, y + 1);
        },
        Direction::West => {
            lemma_index(w, h, x - 1, y);
            assert(y * w + (x - 1) == q - 1);
        },
        Direction::East => {
            lemma_index(w, h, x + 1, y);
            assert(y * w + (x + 1) == q + 1);
        },
    }
}

/// Every cell of the unreached component of `s` is reached by the end of the call.
proof fn lemma_component_reached(g0: Seq<Cell>, g: Seq<Cell>, w: int, h: int, s: int, q: int, n: nat)
    requires
        0 < w,
        0 < h,
        g0.len() == w * h,
        g.len() == g0.len(),
        0 <= s < g0.len(),
        newly(g0, g, s),
        fresh_closed(g0, g, w, -1),
        0 <= q < g0.len(),
        comp_within(g0, w, s, q, n),
    ensures
        newly(g0, g, q),
    decreases n,
{
    if n > 0 {
        let m = (n - 1) as nat;
        if comp_within(g0, w, s, q, m) {
            lemma_component_reached(g0, g, w, h, s, q, m);
        } else {
            let len = g0.len() as int;
            let d = if (match nbr(w, len, q, Direction::North) {
                Some(p) => !g0[p].visited && comp_within(g0, w, s, p, m),
                None => false,
            }) {
                Direction::North
            } else if (match nbr(w, len, q, Direction::South) {
                Some(p) => !g0[p].visited && comp_within(g0, w, s, p, m),
                None => false,
            }) {
                Direction::South
            } else if (match nbr(w, len, q, Direction::East) {
                Some(p) => !g0[p].visited && comp_within(g0, w, s, p, m),
                None => false,
            }) {
                Direction::East
            } else {
                Direction::West
            };
            let p = nbr(w, len, q, d)->0;
            lemma_nbr_opposite(w, h, q, d);
            lemma_component_reached(g0, g, w, h, s, p, m);
            reveal(fresh_closed);
            assert(closed_off(g, w, p));
            assert(nbr_visited(g, w, p, opposite(d)));
            match d {
                Direction::North => assert(nbr_visited(g, w, p, Direction::South)),
                Direction::South => assert(nbr_visited(g, w, p, Direction::North)),
                Direction::East => assert(nbr_visited(g, w, p, Direction::West)),
                Direction::West => assert(nbr_visited(g, w, p, Direction::East)),
            }
        }
    }
}

proof fn lemma_comp_mono(g0: Seq<Cell>, w: int, s: int, q: int, n: nat, m: nat)
    requires
        n <= m,
        comp_within(g0, w, s, q, n),
    ensures
        comp_within(g0, w, s, q, m),
    decreases m,
{
    if n < m {
        lemma_comp_mono(g0, w, s, q, n, (m - 1) as nat);
    }
}

/// Every newly reached cell lies in the unreached component of the start `s`.
proof fn lemma_fresh_in_component(g0: Seq<Cell>, g: Seq<Cell>, r: Seq<int>, w: int, s: int, q: int)
    requires
        0 < w,
        g.len() == g0.len(),
        r.len() == g0.len(),
        0 <= s < g0.len(),
        !g0[s].visited,
        r[s] >= 0,
        fresh_tree(g0, g, r, w, s),
        0 <= q < g0.len(),
        newly(g0, g, q),
        r[q] >= 0,
    ensures
        comp_within(g0, w, s, q, r[q] as nat),
    decreases r[q],
{
    if q == s {
        lemma_comp_mono(g0, w, s, q, 0, r[q] as nat);
    } else {
        reveal(fresh_tree);
        assert(fresh_linked(g0, g, r, w, q));
        let len = g0.len() as int;
        let d = if fresh_hangs(g0, g, r, w, q, Direction::North) {
            Direction::North
        } else if fresh_hangs(g0, g, r, w, q, Direction::South) {
            Direction::South
        } else if fresh_hangs(g0, g, r, w, q, Direction::East) {
            Direction::East
        } else {
            Direction::West
        };
        let p = nbr(w, len, q, d)->0;
        assert(fresh_hangs(g0, g, r, w, q, d));
        assert(0 <= p < len) by {
            match d {
                Direction::North => {},
                Direction::South => {},
                Direction::East => {},
                Direction::West => {},
            }
        }
        lemma_fresh_in_component(g0, g, r, w, s, p);
        let n = r[q] as nat;
        let m = (n - 1) as nat;
        lemma_comp_mono(g0, w, s, p, r[p] as nat, m);
        assert(((n - 1) as nat) == m);
        match d {
            Direction::North => assert(comp_within(g0, w, s, q, n)),
            Direction::South => assert(comp_within(g0, w, s, q, n)),
            Direction::East => assert(comp_within(g0, w, s, q, n)),
            Direction::West => assert(comp_within(g0, w, s, q, n)),
        }
    }
}

/// Marking the start cell of a carving call as reached.
proof fn lemma_mark(g0: Seq<Cell>, g1: Seq<Cell>, r_in: Seq<int>, rc: Seq<int>, w: int, i: int, rank: int)
    requires
        0 < w,
        0 <= i < g0.len(),
        g1.len() == g0.len(),
        forall|q: int| 0 <= q < g0.len() && q != i ==> #[trigger] g1[q] == g0[q],
        g1[i].n == g0[i].n,
        g1[i].w == g0[i].w,
        g1[i].visited,
        !g0[i].visited,
        r_in.len() == g0.len(),
        rc == r_in.update(i, rank),
        rank >= 0,
        tree_ok(g0, r_in, w),
        linked(g0, rc, w, i),
        walls_ok(g0, w, i),
    ensures
        walls_ok(g1, w, i),
        fresh_closed(g0, g1, w, i),
        forall|dirs: Seq<Direction>| dirs_done(g1, w, i, dirs, 0),
        tree_ok(g1, rc, w),
        reach_grows(g0, g1),
        walls_open_grow(g0, g1),
        untouched(g0, g1),
        fresh_tree(g0, g1, rc, w, i),
        cleared_inside(g0, g1, w),
{
    reveal(walls_ok);
    assert forall|j: int| 0 <= j < g1.len() implies #[trigger] cell_walls_ok(g1, w, i, j) by {
        assert(cell_walls_ok(g0, w, i, j));
        assert(g0[j].n == g1[j].n && g0[j].w == g1[j].w);
        if j >= w {
            assert(g0[j - w].visited ==> g1[j - w].visited);
        }
        if j >= 1 {
            assert(g0[j - 1].visited ==> g1[j - 1].visited);
        }
    }
    reveal(fresh_closed);
    reveal(dirs_done);
    reveal(tree_ok);
    assert(reach_grows(g0, g1));
    assert(walls_open_grow(g0, g1)) by {
        assert forall|q: int| 0 <= q < g0.len() implies (!(#[trigger] g0[q]).n ==> !g1[q].n) && (!g0[q].w
            ==> !g1[q].w) by {
            assert(g0[q].n == g1[q].n && g0[q].w == g1[q].w);
        }
    }
    assert forall|q: int| 0 <= q < g1.len() && #[trigger] g1[q].visited implies linked(g1, rc, w, q)
        && rc[q] >= 0 by {
        if q == i {
            lemma_linked_grows(g0, g1, rc, rc, w, q);
        } else {
            assert(g0[q].visited);
            assert(linked(g0, r_in, w, q) && r_in[q] >= 0);
            lemma_linked_grows(g0, g1, r_in, rc, w, q);
        }
    }
    reveal(untouched);
    reveal(fresh_tree);
    reveal(cleared_inside);
    assert forall|q: int| 0 <= q < g0.len() && #[trigger] g0[q].visited implies g1[q] == g0[q] by {
        assert(q != i);
    }
    assert forall|q: int| 0 <= q < g1.len() && q != i && #[trigger] newly(g0, g1, q) implies fresh_linked(
        g0,
        g1,
        rc,
        w,
        q,
    ) by {
        assert(g1[q] == g0[q]);
    }
    assert forall|q: int| 0 <= q < g0.len() implies {
        &&& ((#[trigger] g0[q]).n && !g1[q].n ==> q >= w && newly(g0, g1, q) && newly(g0, g1, q - w))
        &&& (g0[q].w && !g1[q].w ==> q >= 1 && newly(g0, g1, q) && newly(g0, g1, q - 1))
    } by {
        assert(g0[q].n == g1[q].n && g0[q].w == g1[q].w);
    }
}

/// What a finished carving call amounts to, in plain terms.
proof fn lemma_carve_summary(g0: Seq<Cell>, g: Seq<Cell>, r: Seq<int>, w: int, h: int, i: int)
    requires
        0 < w,
        0 < h,
        g0.len() == w * h,
        g.len() == g0.len(),
        r.len() == g0.len(),
        0 <= i < g0.len(),
        !g0[i].visited,
        g[i].visited,
        r[i] >= 0,
        walls_ok(g, w, -1),
        untouched(g0, g),
        cleared_inside(g0, g, w),
        fresh_closed(g0, g, w, -1),
        fresh_tree(g0, g, r, w, i),
        tree_ok(g, r, w),
    ensures
        forall|q: int| 0 <= q < g0.len() && #[trigger] g0[q].visited ==> g[q] == g0[q],
        forall|q: int|
            0 <= q < g0.len() ==> (newly(g0, g, q) <==> #[trigger] in_component(g0, w, i, q)),
        forall|q: int|
            0 <= q < g0.len() ==> {
                &&& ((#[trigger] g0[q]).n && !g[q].n ==> q >= w && newly(g0, g, q) && newly(g0, g, q - w))
                &&& (g0[q].w && !g[q].w ==> q >= 1 && newly(g0, g, q) && newly(g0, g, q - 1))
            },
        forall|q: int| 0 <= q < w ==> (#[trigger] g[q]).n,
        forall|q: int| 0 <= q < g.len() && q % w == 0 ==> (#[trigger] g[q]).w,
{
    reveal(walls_ok);
    reveal(untouched);
    reveal(cleared_inside);
    reveal(tree_ok);
    assert(w <= g.len()) by (nonlinear_arith)
        requires
            g.len() == w * h,
            h > 0,
            w > 0,
    ;
    assert forall|q: int| 0 <= q < w implies (#[trigger] g[q]).n by {
        assert(cell_walls_ok(g, w, -1, q));
    }
    assert forall|q: int| 0 <= q < g.len() && q % w == 0 implies (#[trigger] g[q]).w by {
        assert(cell_walls_ok(g, w, -1, q));
    }
    assert forall|q: int| 0 <= q < g0.len() implies (newly(g0, g, q) <==> #[trigger] in_component(
        g0,
        w,
        i,
        q,
    )) by {
        if newly(g0, g, q) {
            assert(r[q] >= 0);
            lemma_fresh_in_component(g0, g, r, w, i, q);
            assert(comp_within(g0, w, i, q, r[q] as nat));
        }
        if in_component(g0, w, i, q) {
            let n = choose|n: nat| #[trigger] comp_within(g0, w, i, q, n);
            lemma_component_reached(g0, g, w, h, i, q, n);
        }
    }
}

/// Knocks down the wall between the reached cell `i` and its unreached
/// neighbour `j` in direction `d`.
fn open_wall(grid: &mut Vec<Cell>, i: usize, j: usize, d: Direction, Ghost(w): Ghost<int>)
    requires
        0 <= i < old(grid)@.len(),
        0 <= j < old(grid)@.len(),
        0 < w,
        nbr(w, old(grid)@.len() as int, i as int, d) == Some(j as int),
        old(grid)@[i as int].visited,
        !old(grid)@[j as int].visited,
        walls_ok(old(grid)@, w, i as int),
    ensures
        final(grid)@.len() == old(grid)@.len(),
        forall|q: int|
            0 <= q < old(grid)@.len() ==> #[trigger] final(grid)@[q].visited == old(grid)@[q].visited,
        walls_ok(final(grid)@, w, j as int),
        walls_open_grow(old(grid)@, final(grid)@),
        nbr(w, old(grid)@.len() as int, j as int, opposite(d)) == Some(i as int),
        passage(final(grid)@, w, j as int, opposite(d)),
        forall|q: int|
            0 <= q < old(grid)@.len() && q != i && q != j ==> #[trigger] final(grid)@[q] == old(grid)@[q],
        forall|q: int|
            0 <= q < old(grid)@.len() ==> ((#[trigger] old(grid)@[q]).n && !final(grid)@[q].n ==> (q == i
                && q - w == j) || (q == j && q - w == i)) && (old(grid)@[q].w && !final(grid)@[q].w ==> (
            q == i && q - 1 == j) || (q == j && q - 1 == i)),
        unvisited_count(final(grid)@) == unvisited_count(old(grid)@),
        open_count(final(grid)@) == open_count(old(grid)@) + 1,
{
    let ghost g1 = grid@;
    proof {
        reveal(walls_ok);
        assert(cell_walls_ok(g1, w, i as int, i as int));
        assert(cell_walls_ok(g1, w, i as int, j as int));
    }
    match d {
        Direction::North => {
            let mut c = grid[i];
            c.n = false;
            grid.set(i, c);
            proof {
                lemma_tally_update(g1, i as int, c, unvisited_weight());
                lemma_tally_update(g1, i as int, c, open_weight());
            }
        },
        Direction::West => {
            let mut c = grid[i];
            c.w = false;
            grid.set(i, c);
            proof {
                lemma_tally_update(g1, i as int, c, unvisited_weight());
                lemma_tally_update(g1, i as int, c, open_weight());
                lemma_fundamental_div_mod(i as int, w);
                assert(w * ((i as int) / w) == ((i as int) / w) * w) by (nonlinear_arith);
                lemma_fundamental_div_mod_converse(j as int, w, (i as int) / w, (i as int) % w - 1);
            }
        },
        Direction::South => {
            let mut c = grid[j];
            c.n = false;
            grid.set(j, c);
            proof {
                lemma_tally_update(g1, j as int, c, unvisited_weight());
                lemma_tally_update(g1, j as int, c, open_weight());
            }
        },
        Direction::East => {
            let mut c = grid[j];
            c.w = false;
            grid.set(j, c);
            proof {
                lemma_tally_update(g1, j as int, c, unvisited_weight());
                lemma_tally_update(g1, j as int, c, open_weight());
                lemma_fundamental_div_mod(i as int, w);
                assert(w * ((i as int) / w) == ((i as int) / w) * w) by (nonlinear_arith);
                lemma_fundamental_div_mod_converse(j as int, w, (i as int) / w, (i as int) % w + 1);
            }
        },
    }
    proof {
        let g2 = grid@;
        assert forall|q: int| 0 <= q < g2.len() implies #[trigger] cell_walls_ok(g2, w, j as int, q) by {
            assert(cell_walls_ok(g1, w, i as int, q));
            if q != i && q != j {
                assert(g2[q] == g1[q]);
            }
        }
        assert forall|q: int| 0 <= q < g1.len() implies (!(#[trigger] g1[q]).n ==> !g2[q].n) && (!g1[q].w
            ==> !g2[q].w) by {
            if q != i && q != j {
                assert(g2[q] == g1[q]);
            }
        }
        assert forall|q: int| 0 <= q < g1.len() && q != i && q != j implies #[trigger] g2[q] == g1[q] by {}
        assert forall|q: int| 0 <= q < g1.len() implies ((#[trigger] g1[q]).n && !g2[q].n ==> (q == i && q
            - w == j) || (q == j && q - w == i)) && (g1[q].w && !g2[q].w ==> (q == i && q - 1 == j) || (q
            == j && q - 1 == i)) by {
            if q != i && q != j {
                assert(g2[q] == g1[q]);
            }
        }
    }
}

/// Depth-first carving from cell `(cx, cy)`: mark it reached, then try the four
/// directions in a random order, knocking down the wall towards every neighbour
/// not reached yet and carving on from there.
#[verifier::spinoff_prover]
fn carve_passages(
    cx: usize,
    cy: usize,
    grid: &mut Vec<Cell>,
    width: usize,
    height: usize,
    Ghost(r_in): Ghost<Seq<int>>,
    Ghost(rank): Ghost<int>,
) -> (r_out: Ghost<Seq<int>>)
    requires
        0 < width,
        0 < height,
        width * height <= usize::MAX,
        old(grid)@.len() == width * height,
        cx < width,
        cy < height,
        !old(grid)@[cy * width + cx].visited,
        walls_ok(old(grid)@, width as int, cy * width + cx),
        tree_ok(old(grid)@, r_in, width as int),
        rank >= 0,
        linked(old(grid)@, r_in.update(cy * width + cx, rank), width as int, cy * width + cx),
    ensures
        final(grid)@[cy * width + cx].visited,
        walls_open_grow(old(grid)@, final(grid)@),
        tree_ok(final(grid)@, r_out@, width as int),
        forall|q: int| 0 <= q < old(grid)@.len() && #[trigger] old(grid)@[q].visited ==> r_out@[q] == r_in[q],
        walls_ok(final(grid)@, width as int, -1),
        reach_grows(old(grid)@, final(grid)@),
        fresh_closed(old(grid)@, final(grid)@, width as int, -1),
        unvisited_count(final(grid)@) < unvisited_count(old(grid)@),
        open_count(final(grid)@) - open_count(old(grid)@) == unvisited_count(old(grid)@)
            - unvisited_count(final(grid)@) - 1,
        r_out@[cy * width + cx] == rank,
        untouched(old(grid)@, final(grid)@),
        fresh_tree(old(grid)@, final(grid)@, r_out@, width as int, cy * width + cx),
        cleared_inside(old(grid)@, final(grid)@, width as int),
        // cells reached before the call keep their walls and their flag
        forall|q: int|
            0 <= q < old(grid)@.len() && #[trigger] old(grid)@[q].visited ==> final(grid)@[q]
                == old(grid)@[q],
        // the cells the call reaches are exactly the unreached component of its start
        forall|q: int|
            0 <= q < old(grid)@.len() ==> (newly(old(grid)@, final(grid)@, q) <==> #[trigger] in_component(
                old(grid)@,
                width as int,
                cy * width + cx,
                q,
            )),
        // every wall knocked down lies between two cells the call reached
        forall|q: int|
            0 <= q < old(grid)@.len() ==> {
                &&& ((#[trigger] old(grid)@[q]).n && !final(grid)@[q].n ==> q >= width && newly(
                    old(grid)@,
                    final(grid)@,
                    q,
                ) && newly(old(grid)@, final(grid)@, q - width))
                &&& (old(grid)@[q].w && !final(grid)@[q].w ==> q >= 1 && newly(
                    old(grid)@,
                    final(grid)@,
                    q,
                ) && newly(old(grid)@, final(grid)@, q - 1))
            },
        // the north walls of the top row and the west walls of the left column stand
        forall|q: int| 0 <= q < width ==> (#[trigger] final(grid)@[q]).n,
        forall|q: int| 0 <= q < old(grid)@.len() && q % (width as int) == 0 ==> (#[trigger] final(grid)@[q]).w,
    decreases unvisited_count(old(grid)@),
{
    let ghost w = width as int;
    let ghost len = (width * height) as int;
    proof {
        lemma_index(width as int, height as int, cx as int, cy as int);
    }
    let i = cy * width + cx;
    let ghost g0 = grid@;
    let mut c = grid[i];
    c.visited = true;
    grid.set(i, c);
    let ghost mut rc = r_in.update(i as int, rank);
    proof {
        lemma_tally_update(g0, i as int, c, unvisited_weight());
        lemma_tally_update(g0, i as int, c, open_weight());
        lemma_tally_nonneg(grid@, unvisited_weight());
        assert(r_in.len() == g0.len()) by {
            reveal(tree_ok);
        }
        lemma_mark(g0, grid@, r_in, rc, w, i as int, rank);
    }
    let mut dirs: Vec<Direction> = vec![
        Direction::North,
        Direction::South,
        Direction::East,
        Direction::West,
    ];
    let ghost all4 = dirs@;
    shuffle(&mut dirs);
    let mut k: usize = 0;
    while k < dirs.len()
        invariant
            0 < width,
            0 < height,
            width * height <= usize::MAX,
            w == width,
            len == width * height,
            grid@.len() == len,
            g0 == old(grid)@,
            g0.len() == len,
            i == cy * width + cx,
            0 <= i < len,
            cx < width,
            cy < height,
            !g0[i as int].visited,
            dirs@.len() == 4,
            all4 == seq![Direction::North, Direction::South, Direction::East, Direction::West],
            dirs@.to_multiset() == all4.to_multiset(),
            k <= 4,
            grid@[i as int].visited,
            walls_ok(grid@, w, i as int),
            reach_grows(g0, grid@),
            fresh_closed(g0, grid@, w, i as int),
            dirs_done(grid@, w, i as int, dirs@, k as int),
            rank >= 0,
            rc.len() == len,
            tree_ok(grid@, rc, w),
            rc[i as int] == rank,
            forall|q: int| 0 <= q < len && #[trigger] g0[q].visited ==> rc[q] == r_in[q],
            walls_open_grow(g0, grid@),
            untouched(g0, grid@),
            fresh_tree(g0, grid@, rc, w, i as int),
            cleared_inside(g0, grid@, w),
            unvisited_count(grid@) <= unvisited_count(g0) - 1,
            unvisited_count(grid@) >= 0,
            open_count(grid@) - open_count(g0) == unvisited_count(g0) - unvisited_count(grid@) - 1,
        decreases dirs.len() - k,
    {
        let d = dirs[k];
        match step(cx, cy, d, width, height) {
            Some((nx, ny)) => {
                proof {
                    lemma_index(width as int, height as int, nx as int, ny as int);
                }
                let j = ny * width + nx;
                if !grid[j].visited {
                    let ghost g1 = grid@;
                    open_wall(grid, i, j, d, Ghost(w));
                    let ghost g2 = grid@;
                    assert(unvisited_count(grid@) < unvisited_count(g0));
                    assert(unvisited_count(grid@) >= 0);
                    proof {
                        lemma_tree_walls(g1, g2, rc, w);
                        reveal(tree_ok);
                        let rj = rc.update(j as int, rank + 1);
                        assert(hangs(g2, rj, w, j as int, opposite(d)));
                        match d {
                            Direction::North => assert(hangs(g2, rj, w, j as int, Direction::South)),
                            Direction::South => assert(hangs(g2, rj, w, j as int, Direction::North)),
                            Direction::East => assert(hangs(g2, rj, w, j as int, Direction::West)),
                            Direction::West => assert(hangs(g2, rj, w, j as int, Direction::East)),
                        }
                        assert(linked(g2, rj, w, j as int));
                    }
                    let ghost rc2 = rc;
                    let Ghost(r3) = carve_passages(nx, ny, grid, width, height, Ghost(rc), Ghost(rank + 1));
                    proof {
                        rc = r3;
                    }
                    proof {
                        let g3 = grid@;
                        lemma_open_grow_trans(g0, g1, g2);
                        lemma_open_grow_trans(g0, g2, g3);
                        assert(g2[i as int].visited);
                        assert(rc[i as int] == rc2[i as int]);
                        assert forall|q: int| 0 <= q < len && #[trigger] g0[q].visited implies rc[q] == r_in[q] by {
                            assert(g1[q].visited);
                            assert(g2[q].visited);
                        }
                        lemma_tally_nonneg(g3, unvisited_weight());
                        lemma_descent(g0, g1, g2, g3, w, i as int, j as int, d, dirs@, k as int);
                        lemma_fresh_descent(
                            g0,
                            g1,
                            g2,
                            g3,
                            rc2,
                            r3,
                            w,
                            i as int,
                            j as int,
                            d,
                            rank,
                        );
                        reveal(walls_ok);
                        assert forall|q: int| 0 <= q < g3.len() implies #[trigger] cell_walls_ok(
                            g3,
                            w,
                            i as int,
                            q,
                        ) by {
                            assert(cell_walls_ok(g3, w, -1, q));
                        }
                    }
                } else {
                    proof {
                        reveal(dirs_done);
                        assert(nbr_visited(grid@, w, i as int, dirs@[k as int]));
                    }
                }
            },
            None => {
                proof {
                    reveal(dirs_done);
                    assert(nbr_visited(grid@, w, i as int, dirs@[k as int]));
                }
            },
        }
        k += 1;
    }
    proof {
        broadcast use group_to_multiset_ensures;

        let g = grid@;
        reveal(dirs_done);
        reveal(fresh_closed);
        reveal(walls_ok);
        assert(all4[0] == Direction::North);
        assert(all4[1] == Direction::South);
        assert(all4[2] == Direction::East);
        assert(all4[3] == Direction::West);
        assert(all4.contains(Direction::North));
        assert(all4.contains(Direction::South));
        assert(all4.contains(Direction::East));
        assert(all4.contains(Direction::West));
        assert(all4.to_multiset().count(Direction::North) > 0);
        assert(dirs@.to_multiset().count(Direction::North) > 0);
        assert(dirs@.contains(Direction::North));
        assert(all4.to_multiset().count(Direction::South) > 0);
        assert(dirs@.to_multiset().count(Direction::South) > 0);
        assert(dirs@.contains(Direction::South));
        assert(all4.to_multiset().count(Direction::East) > 0);
        assert(dirs@.to_multiset().count(Direction::East) > 0);
        assert(dirs@.contains(Direction::East));
        assert(all4.to_multiset().count(Direction::West) > 0);
        assert(dirs@.to_multiset().count(Direction::West) > 0);
        assert(dirs@.contains(Direction::West));
        assert(closed_off(g, w, i as int));
        assert forall|j: int| 0 <= j < g.len() implies #[trigger] cell_walls_ok(g, w, -1, j) by {
            assert(cell_walls_ok(g, w, i as int, j));
            assert(seen(g, i as int, j) ==> g[j].visited);
            assert(seen(g, i as int, j - w) ==> g[j - w].visited);
            assert(seen(g, i as int, j - 1) ==> g[j - 1].visited);
        }
        assert(walls_ok(g, w, -1));
        assert(fresh_closed(g0, g, w, -1));
        reveal(tree_ok);
        lemma_carve_summary(g0, g, rc, w, height as int, i as int);
    }
    Ghost(rc)
}

/// Generates a perfect maze on a `width` x `height` grid by randomized
/// depth-first carving from the top-left cell, and returns the interior walls
/// left standing in row-major order.
pub fn generate_maze(width: usize, height: usize) -> (walls: Vec<MazeWall>)
    requires
        0 < width,
        0 < height,
        width * height <= usize::MAX,
    ensures
        walls@.len() == perfect_maze_wall_count(width as int, height as int),
        forall|k: int|
            0 <= k < walls@.len() ==> is_interior_wall(
                #[trigger] walls@[k],
                width as int,
                height as int,
            ),
        forall|a: int, b: int|
            0 <= a < b < walls@.len() ==> wall_precedes(#[trigger] walls@[a], #[trigger] walls@[b]),
        maze_connected(walls@, width as int, height as int),
{
    let total = width * height;
    let mut grid: Vec<Cell> = Vec::new();
    let mut n: usize = 0;
    while n < total
        invariant
            n <= total,
            grid@.len() == n,
            forall|k: int| 0 <= k < n ==> #[trigger] grid@[k] == (Cell { n: true, w: true, visited: false }),
        decreases total - n,
    {
        grid.push(Cell { n: true, w: true, visited: false });
        n += 1;
    }
    let ghost g0 = grid@;
    proof {
        lemma_tally_const(g0, unvisited_weight(), 1);
        lemma_tally_const(g0, open_weight(), 0);
        assert(0 * width + 0 == 0);
        assert(total > 0) by (nonlinear_arith)
            requires
                width > 0,
                height > 0,
                total == width * height,
        ;
        assert(!g0[0].visited);
        reveal(walls_ok);
        reveal(tree_ok);
    }
    let ghost r0 = Seq::new(total as nat, |q: int| 0int);
    let Ghost(r) = carve_passages(0, 0, &mut grid, width, height, Ghost(r0), Ghost(0));
    let ghost g = grid@;
    let ghost w = width as int;
    proof {
        reveal(fresh_closed);
        assert forall|k: int| 0 <= k < g.len() implies #[trigger] g[k].visited by {
            assert forall|q: int| 0 <= q < g.len() && #[trigger] g[q].visited implies closed_off(g, w, q) by {
                assert(!g0[q].visited);
            }
            lemma_reaches_all(g, width as int, height as int, k);
        }
        lemma_tally_const(g, unvisited_weight(), 0);
        assert(open_count(g) == total - 1);
    }
    let mut walls: Vec<MazeWall> = Vec::new();
    let ghost mut edges: int = 0;
    let mut y: usize = 0;
    while y < height
        invariant
            0 < width,
            0 < height,
            total == width * height,
            w == width,
            grid@ == g,
            g.len() == total,
            walls_ok(g, w, -1),
            y <= height,
            walls@.len() + open_count(g.take(y * width)) == edges,
            edges == (if y == 0 { 0 } else { y * (width - 1) + (y - 1) * width }),
            forall|k: int|
                0 <= k < walls@.len() ==> is_interior_wall(#[trigger] walls@[k], width as int, height as int),
            forall|a: int, b: int|
                0 <= a < b < walls@.len() ==> wall_precedes(#[trigger] walls@[a], #[trigger] walls@[b]),
            forall|k: int| 0 <= k < walls@.len() ==> (#[trigger] walls@[k]).y < y,
            forall|k: int| 0 <= k < walls@.len() ==> wall_closed(g, w, #[trigger] walls@[k]),
        decreases height - y,
    {
        let ghost row_start = edges;
        let mut x: usize = 0;
        while x < width
            invariant
                0 < width,
                0 < height,
                total == width * height,
                w == width,
                grid@ == g,
                g.len() == total,
                walls_ok(g, w, -1),
                y < height,
                x <= width,
                walls@.len() + open_count(g.take(y * width + x)) == edges,
                edges == row_start + (if y > 0 { x as int } else { 0 }) + (if x > 0 { x - 1 } else { 0 }),
                forall|k: int|
                    0 <= k < walls@.len() ==> is_interior_wall(#[trigger] walls@[k], width as int, height as int),
                forall|a: int, b: int|
                    0 <= a < b < walls@.len() ==> wall_precedes(#[trigger] walls@[a], #[trigger] walls@[b]),
                forall|k: int|
                    0 <= k < walls@.len() ==> (#[trigger] walls@[k]).y < y || (walls@[k].y == y
                        && walls@[k].x < x),
                forall|k: int| 0 <= k < walls@.len() ==> wall_closed(g, w, #[trigger] walls@[k]),
            decreases width - x,
        {
            proof {
                lemma_index(width as int, height as int, x as int, y as int);
                lemma_tally_prefix(g, open_weight(), (y * width + x) as int);
            }
            let i = y * width + x;
            let c = grid[i];
            if c.n && y != 0 {
                walls.push(MazeWall { side: WallSide::North, x, y });
            }
            if c.w && x != 0 {
                walls.push(MazeWall { side: WallSide::West, x, y });
            }
            proof {
                reveal(walls_ok);
                assert(cell_walls_ok(g, w, -1, i as int));
                edges = edges + (if y > 0 { 1int } else { 0 }) + (if x > 0 { 1int } else { 0 });
                assert(!c.n ==> y > 0);
                assert(!c.w ==> x > 0);
            }
            x += 1;
        }
        proof {
            let yy = y as int;
            let ww = width as int;
            assert((if yy + 1 == 0 { 0 } else { (yy + 1) * (ww - 1) + yy * ww }) == (if yy == 0 {
                0
            } else {
                yy * (ww - 1) + (yy - 1) * ww
            }) + (if yy > 0 { ww } else { 0 }) + (ww - 1)) by (nonlinear_arith)
                requires
                    yy >= 0,
                    ww > 0,
            ;
            assert(y * width + width == (y + 1) * width) by (nonlinear_arith);
        }
        y += 1;
    }
    proof {
        assert(g.take(height * width) =~= g) by {
            assert(height * width == width * height) by (nonlinear_arith);
        }
        let hh = height as int;
        let ww = width as int;
        assert(hh * (ww - 1) + (hh - 1) * ww == interior_edge_count(ww, hh)) by (nonlinear_arith);
        assert forall|x: int, y: int| 0 <= x < ww && 0 <= y < hh implies #[trigger] cell_reachable(
            walls@,
            ww,
            hh,
            x,
            y,
        ) by {
            lemma_index(ww, hh, x, y);
            let q = y * ww + x;
            lemma_reach(g, r, walls@, ww, hh, q);
            assert(reachable_within(walls@, ww, hh, x, y, r[q] as nat));
        }
    }
    walls
}

} // verus!
