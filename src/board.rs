//! Sliding-tile boards: sixteen cells of four bits each, packed into a `u64`.
//! Cell `k` (row `k / 4`, column `k % 4`) holds bits `4k .. 4k + 4`; tile 0 is the hole.

use rand::Rng;
use vstd::prelude::*;

verus! {

/// The value of cell `k` of a packed board.
pub open spec fn cell(cells: u64, k: int) -> u64 {
    (cells >> ((4 * k) as u64)) & 15u64
}

/// A packed board whose cell `k` holds `v` and whose other cells are those of `cells`.
pub open spec fn with_cell(cells: u64, k: int, v: u64) -> u64 {
    (cells & !(15u64 << ((4 * k) as u64))) | (v << ((4 * k) as u64))
}

/// The first cell at or after `k` that holds the hole, or 16 if there is none.
pub open spec fn first_hole_from(cells: u64, k: int) -> int
    decreases 16 - k,
{
    if k >= 16 {
        16
    } else if cell(cells, k) == 0 {
        k
    } else {
        first_hole_from(cells, k + 1)
    }
}

/// The board with the tile of cell `n` slid into the hole at cell `h`.
pub open spec fn slid(b: Board, h: int, n: int) -> Board {
    Board { cells: with_cell(with_cell(b.cells, h, cell(b.cells, n)), n, 0) }
}

/// The boards one move away, in the order: tile above the hole, below, left, right.
pub open spec fn successors(b: Board) -> Seq<Board> {
    let h = b.hole();
    let r = h / 4;
    let c = h % 4;
    (if r >= 1 { seq![slid(b, h, h - 4)] } else { Seq::empty() })
        + (if r <= 2 { seq![slid(b, h, h + 4)] } else { Seq::empty() })
        + (if c >= 1 { seq![slid(b, h, h - 1)] } else { Seq::empty() })
        + (if c <= 2 { seq![slid(b, h, h + 1)] } else { Seq::empty() })
}

/// Each board is one move from the one before it.
pub open spec fn is_path(p: Seq<Board>) -> bool {
    forall|k: int| 0 <= k < p.len() - 1 ==> successors(p[k]).contains(#[trigger] p[k + 1])
}

/// `goal` can be reached from `start` by zero or more moves.
pub open spec fn reachable(start: Board, goal: Board) -> bool {
    exists|p: Seq<Board>| p.len() > 0 && p[0] == start && p.last() == goal && is_path(p)
}

/// Writing a cell changes that cell alone.
proof fn lemma_nibble_write(x: u64, a: u64, b: u64, v: u64)
    requires
        a < 16,
        b < 16,
        v < 16,
    ensures
        (((x & !(15u64 << (4u64 * a))) | (v << (4u64 * a))) >> (4u64 * b)) & 15u64 == if a == b {
            v
        } else {
            (x >> (4u64 * b)) & 15u64
        },
{
    assert((((x & !(15u64 << (4u64 * a))) | (v << (4u64 * a))) >> (4u64 * b)) & 15u64 == if a
        == b {
        v
    } else {
        (x >> (4u64 * b)) & 15u64
    }) by (bit_vector)
        requires
            a < 16,
            b < 16,
            v < 16,
    ;
}

/// What a cell holds after one cell was written.
pub proof fn lemma_cell_of_with_cell(cells: u64, k: int, v: u64, j: int)
    requires
        0 <= k < 16,
        0 <= j < 16,
        v < 16,
    ensures
        cell(with_cell(cells, k, v), j) == if j == k {
            v
        } else {
            cell(cells, j)
        },
{
    lemma_nibble_write(cells, k as u64, j as u64, v);
}

/// Every cell holds a value below 16.
pub proof fn lemma_cell_small(cells: u64, k: int)
    ensures
        cell(cells, k) < 16,
{
    let s = (4 * k) as u64;
    assert(((cells >> s) & 15u64) < 16) by (bit_vector);
}

proof fn lemma_first_hole_range(cells: u64, k: int)
    requires
        0 <= k <= 16,
    ensures
        k <= first_hole_from(cells, k) <= 16,
    decreases 16 - k,
{
    if k < 16 {
        lemma_first_hole_range(cells, k + 1);
    }
}

proof fn lemma_first_hole_at_most(cells: u64, k: int, n: int)
    requires
        0 <= k <= n < 16,
        cell(cells, n) == 0,
    ensures
        first_hole_from(cells, k) <= n,
    decreases n - k,
{
    if k < n && cell(cells, k) != 0 {
        lemma_first_hole_at_most(cells, k + 1, n);
    }
}

/// A slide moves the tile of cell `n` into cell `h`, leaves the hole at `n`
/// and keeps every other cell.
pub proof fn lemma_slid_cells(b: Board, h: int, n: int)
    requires
        0 <= h < 16,
        0 <= n < 16,
        h != n,
    ensures
        forall|j: int|
            0 <= j < 16 ==> #[trigger] cell(slid(b, h, n).cells, j) == if j == n {
                0
            } else if j == h {
                cell(b.cells, n)
            } else {
                cell(b.cells, j)
            },
        slid(b, h, n).has_hole(),
{
    let once = with_cell(b.cells, h, cell(b.cells, n));
    lemma_cell_small(b.cells, n);
    assert forall|j: int| 0 <= j < 16 implies #[trigger] cell(slid(b, h, n).cells, j) == if j
        == n {
        0
    } else if j == h {
        cell(b.cells, n)
    } else {
        cell(b.cells, j)
    } by {
        lemma_cell_of_with_cell(b.cells, h, cell(b.cells, n), j);
        lemma_cell_of_with_cell(once, n, 0, j);
    }
    lemma_first_hole_at_most(slid(b, h, n).cells, 0, n);
}

/// Every board one move away from a board with a hole has a hole.
pub proof fn lemma_successors_have_holes(b: Board)
    requires
        b.has_hole(),
    ensures
        forall|i: int| 0 <= i < successors(b).len() ==> (#[trigger] successors(b)[i]).has_hole(),
{
    let h = b.hole();
    lemma_first_hole_range(b.cells, 0);
    if h / 4 >= 1 {
        lemma_slid_cells(b, h, h - 4);
    }
    if h / 4 <= 2 {
        lemma_slid_cells(b, h, h + 4);
    }
    if h % 4 >= 1 {
        lemma_slid_cells(b, h, h - 1);
    }
    if h % 4 <= 2 {
        lemma_slid_cells(b, h, h + 1);
    }
}

pub open spec fn abs_diff(a: int, b: int) -> int {
    if a >= b {
        a - b
    } else {
        b - a
    }
}

/// The last cell before `n` that holds `v`, or -1 if there is none.
pub open spec fn last_cell_with(cells: u64, v: u64, n: int) -> int
    decreases n,
{
    if n <= 0 {
        -1
    } else if cell(cells, n - 1) == v {
        n - 1
    } else {
        last_cell_with(cells, v, n - 1)
    }
}

/// How far the tile of cell `k` is from where `goal_pos` puts it, in rows plus
/// columns; 0 for the hole.
pub open spec fn tile_distance(b: Board, goal_pos: Seq<(usize, usize)>, k: int) -> int {
    let v = cell(b.cells, k) as int;
    if v == 0 {
        0
    } else {
        abs_diff(goal_pos[v].0 as int, k / 4) + abs_diff(goal_pos[v].1 as int, k % 4)
    }
}

/// The sum of the tile distances of the first `n` cells.
pub open spec fn manhattan(b: Board, goal_pos: Seq<(usize, usize)>, n: int) -> int
    decreases n,
{
    if n <= 0 {
        0
    } else {
        manhattan(b, goal_pos, n - 1) + tile_distance(b, goal_pos, n - 1)
    }
}

/// Entry `v` gives row and column of tile `v`, for each of the sixteen tiles.
pub open spec fn positions_ok(goal_pos: Seq<(usize, usize)>) -> bool {
    &&& goal_pos.len() == 16
    &&& forall|v: int| 0 <= v < 16 ==> (#[trigger] goal_pos[v]).0 < 4 && goal_pos[v].1 < 4
}

/// Where each tile stands in `goal`: row and column, indexed by tile. A tile
/// that occurs twice gets its last cell; one that is missing gets `(0, 0)`.
pub fn gen_goal_tuple(goal: &Board) -> (r: Vec<(usize, usize)>)
    ensures
        positions_ok(r@),
        forall|v: int|
            0 <= v < 16 ==> #[trigger] r@[v] == {
                let k = last_cell_with(goal.cells, v as u64, 16);
                if k >= 0 {
                    ((k / 4) as usize, (k % 4) as usize)
                } else {
                    (0usize, 0usize)
                }
            },
{
    let mut tuple: Vec<(usize, usize)> = Vec::new();
    let mut v: usize = 0;
    while v < 16
        invariant
            v <= 16,
            tuple@.len() == v,
            forall|u: int| 0 <= u < v ==> #[trigger] tuple@[u] == (0usize, 0usize),
        decreases 16 - v,
    {
        tuple.push((0, 0));
        v = v + 1;
    }
    let mut k: usize = 0;
    while k < 16
        invariant
            k <= 16,
            tuple@.len() == 16,
            forall|u: int|
                0 <= u < 16 ==> #[trigger] tuple@[u] == {
                    let c = last_cell_with(goal.cells, u as u64, k as int);
                    if c >= 0 {
                        ((c / 4) as usize, (c % 4) as usize)
                    } else {
                        (0usize, 0usize)
                    }
                },
        decreases 16 - k,
    {
        let t = goal.tile_at(k);
        tuple.set(t as usize, (k / 4, k % 4));
        k = k + 1;
    }
    proof {
        assert forall|u: int|
            0 <= u < 16 implies (#[trigger] tuple@[u]).0 < 4 && tuple@[u].1 < 4 by {
            lemma_last_cell_range(goal.cells, u as u64, 16);
        }
    }
    tuple
}

proof fn lemma_last_cell_range(cells: u64, v: u64, n: int)
    requires
        0 <= n,
    ensures
        -1 <= last_cell_with(cells, v, n) < n,
    decreases n,
{
    if n > 0 {
        lemma_last_cell_range(cells, v, n - 1);
    }
}

/// The sum, over the tiles of `board`, of rows plus columns between the tile
/// and its place in `goal_pos`.
pub fn heuristic(board: &Board, goal_pos: &Vec<(usize, usize)>) -> (r: i32)
    requires
        positions_ok(goal_pos@),
    ensures
        r == manhattan(*board, goal_pos@, 16),
        0 <= r <= 96,
{
    let mut sum: i32 = 0;
    let mut k: usize = 0;
    while k < 16
        invariant
            k <= 16,
            positions_ok(goal_pos@),
            sum == manhattan(*board, goal_pos@, k as int),
            0 <= sum <= 6 * k,
        decreases 16 - k,
    {
        let v = board.tile_at(k);
        if v != 0 {
            let (gr, gc) = goal_pos[v as usize];
            let (r, c) = (k / 4, k % 4);
            let dr = if gr >= r {
                gr - r
            } else {
                r - gr
            };
            let dc = if gc >= c {
                gc - c
            } else {
                c - gc
            };
            sum = sum + (dr + dc) as i32;
        }
        k = k + 1;
    }
    sum
}

/// A puzzle board. Two boards are equal when all their cells are.
#[derive(Clone, Copy, PartialEq, Eq, Structural, Hash, Debug)]
pub struct Board {
    pub cells: u64,
}

/// The packed form of the solved board: tiles 1 to 15 in reading order, then the hole.
pub const SOLVED: u64 = 0x0FED_CBA9_8765_4321;

/// The solved board.
pub fn new_board() -> (r: Board)
    ensures
        r.cells == SOLVED,
{
    Board { cells: SOLVED }
}

/// How many random moves scramble the solved board.
pub const SHUFFLE_MOVES: usize = 1000;

/// Relies on rand's `thread_rng().gen_range(0..n)`: a value drawn from `0..n`,
/// which panics on an empty range (hence `n > 0`).
#[verifier::external_body]
fn random_below(n: usize) -> (r: usize)
    requires
        n > 0,
    ensures
        r < n,
{
    rand::thread_rng().gen_range(0..n)
}

/// How many values each draw of a shuffle is taken from. Boards have two,
/// three or four moves, and each of those divides it, so a uniform draw picks
/// a uniform move.
pub const DRAW_RANGE: usize = 12;

/// The board reached from `b` by taking, for each draw `d` in turn, move
/// number `d % m` of the `m` possible ones.
pub open spec fn follow_moves(b: Board, draws: Seq<usize>) -> Board
    decreases draws.len(),
{
    if draws.len() == 0 {
        b
    } else {
        let next = successors(b);
        follow_moves(next[(draws[0] as int) % (next.len() as int)], draws.drop_first())
    }
}

/// Following the draws keeps a hole, and the board reached is reachable.
proof fn lemma_follow_moves(b: Board, draws: Seq<usize>)
    requires
        b.has_hole(),
    ensures
        follow_moves(b, draws).has_hole(),
        reachable(b, follow_moves(b, draws)),
    decreases draws.len(),
{
    if draws.len() == 0 {
        assert(is_path(seq![b]));
    } else {
        let next = successors(b);
        lemma_successors_nonempty(b);
        lemma_successors_have_holes(b);
        let c = next[(draws[0] as int) % (next.len() as int)];
        lemma_follow_moves(c, draws.drop_first());
        let p = choose|p: Seq<Board>|
            p.len() > 0 && p[0] == c && p.last() == follow_moves(c, draws.drop_first()) && is_path(
                p,
            );
        let q = seq![b] + p;
        let i = (draws[0] as int) % (next.len() as int);
        assert(0 <= i < next.len());
        assert(next[i] == c);
        assert(next.contains(c));
        assert forall|k: int| 0 <= k < q.len() - 1 implies successors(q[k]).contains(
            #[trigger] q[k + 1],
        ) by {
            if k > 0 {
                assert(q[k] == p[k - 1] && q[k + 1] == p[k]);
                assert(successors(p[k - 1]).contains(p[(k - 1) + 1]));
            } else {
                assert(q[0] == b && q[1] == c);
            }
        }
        assert(q.last() == p.last());
    }
}

/// The board that `draws` lead to from `start`, as `follow_moves` says.
pub fn apply_moves(start: Board, draws: &Vec<usize>) -> (r: Board)
    requires
        start.has_hole(),
    ensures
        r == follow_moves(start, draws@),
        r.has_hole(),
        reachable(start, r),
{
    let mut board = start;
    let mut k: usize = 0;
    assert(draws@.subrange(0, draws@.len() as int) =~= draws@);
    while k < draws.len()
        invariant
            board.has_hole(),
            k <= draws@.len(),
            follow_moves(board, draws@.subrange(k as int, draws@.len() as int)) == follow_moves(
                start,
                draws@,
            ),
        decreases draws@.len() - k,
    {
        let moves = board.possible_moves();
        proof {
            lemma_successors_nonempty(board);
            let rest = draws@.subrange(k as int, draws@.len() as int);
            assert(rest.drop_first() =~= draws@.subrange(k + 1, draws@.len() as int));
        }
        board = moves[draws[k] % moves.len()];
        k = k + 1;
    }
    proof {
        assert(draws@.subrange(k as int, draws@.len() as int) =~= Seq::<usize>::empty());
        lemma_follow_moves(start, draws@);
    }
    board
}

/// The solved board after `SHUFFLE_MOVES` moves, each picked at random among
/// the possible ones.
pub fn shuffled_board() -> (r: Board)
    ensures
        r.has_hole(),
        reachable(Board { cells: SOLVED }, r),
        exists|draws: Seq<usize>| draws.len() == SHUFFLE_MOVES && r == follow_moves(
            Board { cells: SOLVED },
            draws,
        ),
{
    let mut draws: Vec<usize> = Vec::new();
    let mut step: usize = 0;
    while step < SHUFFLE_MOVES
        invariant
            draws@.len() == step,
            step <= SHUFFLE_MOVES,
        decreases SHUFFLE_MOVES - step,
    {
        draws.push(random_below(DRAW_RANGE));
        step = step + 1;
    }
    proof {
        assert(((0x0FED_CBA9_8765_4321u64 >> 60u64) & 15u64) == 0u64) by (bit_vector);
        assert(cell(SOLVED, 15) == 0);
        lemma_first_hole_at_most(SOLVED, 0, 15);
    }
    apply_moves(new_board(), &draws)
}

/// A board with a hole has at least two moves.
proof fn lemma_successors_nonempty(b: Board)
    requires
        b.has_hole(),
    ensures
        successors(b).len() >= 2,
{
    lemma_first_hole_range(b.cells, 0);
}

impl Board {
    /// The cell that holds the hole (the first one, should there be several), or 16.
    pub open spec fn hole(self) -> int {
        first_hole_from(self.cells, 0)
    }

    pub open spec fn has_hole(self) -> bool {
        self.hole() < 16
    }

    /// The tile in cell `k`.
    pub fn tile_at(&self, k: usize) -> (r: u64)
        requires
            k < 16,
        ensures
            r == cell(self.cells, k as int),
            r < 16,
    {
        proof {
            lemma_cell_small(self.cells, k as int);
        }
        (self.cells >> ((4 * k) as u64)) & 15u64
    }

    /// This board with `v` written into cell `k`.
    fn set_tile(&self, k: usize, v: u64) -> (r: Board)
        requires
            k < 16,
            v < 16,
        ensures
            r.cells == with_cell(self.cells, k as int, v),
    {
        let s = (4 * k) as u64;
        assert(s < 64);
        Board { cells: (self.cells & !(15u64 << s)) | (v << s) }
    }

    /// Row and column of the hole.
    fn hole_index(&self) -> (r: (usize, usize))
        requires
            self.has_hole(),
        ensures
            r.0 < 4,
            r.1 < 4,
            4 * r.0 + r.1 == self.hole(),
    {
        let mut k: usize = 0;
        while k < 16
            invariant
                k <= 16,
                first_hole_from(self.cells, k as int) == self.hole(),
            decreases 16 - k,
        {
            if self.tile_at(k) == 0 {
                return (k / 4, k % 4);
            }
            k = k + 1;
        }
        proof {
            assert(false);
        }
        (0, 0)
    }

    /// This board with the tile of cell `n` slid into the hole at cell `h`.
    fn slide(&self, h: usize, n: usize) -> (r: Board)
        requires
            h < 16,
            n < 16,
        ensures
            r == slid(*self, h as int, n as int),
    {
        let t = self.tile_at(n);
        self.set_tile(h, t).set_tile(n, 0)
    }

    /// The boards one move away.
    pub fn possible_moves(&self) -> (r: Vec<Board>)
        requires
            self.has_hole(),
        ensures
            r@ == successors(*self),
            forall|i: int| 0 <= i < r@.len() ==> (#[trigger] r@[i]).has_hole(),
    {
        proof {
            lemma_successors_have_holes(*self);
            lemma_first_hole_range(self.cells, 0);
        }
        let (row, col) = self.hole_index();
        let h = 4 * row + col;
        let mut possibilities: Vec<Board> = Vec::new();
        if row >= 1 {
            possibilities.push(self.slide(h, h - 4));
        }
        let ghost a = possibilities@;
        if row <= 2 {
            possibilities.push(self.slide(h, h + 4));
        }
        let ghost b = possibilities@;
        if col >= 1 {
            possibilities.push(self.slide(h, h - 1));
        }
        let ghost c = possibilities@;
        if col <= 2 {
            possibilities.push(self.slide(h, h + 1));
        }
        proof {
            let hh = self.hole();
            assert(hh / 4 == row && hh % 4 == col);
            assert(possibilities@ =~= successors(*self));
        }
        possibilities
    }
}

} // verus!
