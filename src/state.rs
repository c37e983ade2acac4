use vstd::prelude::*;

use crate::analysis::{count_flats, flat_of, top_of, StateAnalysis};
use crate::bitmap::has_bit;
use crate::piece::{Color, Direction, Piece};
use crate::player::Player;
use crate::ply::Ply;
use crate::roads::{any_group_spans, lemma_groups_span, lemma_partitions_same_cells, partitions, spans};

verus! {

/// Why a ply was rejected.
#[derive(Clone, Copy, Debug, PartialEq, Eq, Structural)]
pub enum GameError {
    IllegalPlacement,
    InsufficientPieces,
    IllegalSlide,
    OutOfBounds,
}

/// The outcome of a position.
#[derive(Clone, Copy, Debug, PartialEq, Eq, Structural)]
pub enum Win {
    Ongoing,
    Road(Color),
    Flat(Color),
    Draw,
}

/// The flatstones each side starts with on a board of size `n`.
pub open spec fn start_flatstones(n: int) -> int {
    if n == 3 { 10 } else if n == 4 { 15 } else if n == 5 { 21 } else if n == 6 { 30 } else if n == 7 { 40 } else { 50 }
}

/// The capstones each side starts with on a board of size `n`.
pub open spec fn start_capstones(n: int) -> int {
    if n <= 4 { 0 } else if n <= 7 { 1 } else { 2 }
}

/// The number of pieces of color `c` in stack `s`.
pub open spec fn count_color(s: Seq<Piece>, c: Color) -> int
    decreases s.len(),
{
    if s.len() == 0 {
        0
    } else {
        count_color(s.drop_last(), c) + if s.last().color() == c { 1int } else { 0int }
    }
}

/// The number of pieces of color `c` in the cells below `k`.
pub open spec fn pieces_on_board(board: Seq<Seq<Piece>>, c: Color, k: int) -> int
    decreases k,
{
    if k <= 0 {
        0
    } else {
        pieces_on_board(board, c, k - 1) + count_color(board[k - 1], c)
    }
}

/// The boards `b1` and `b2` agree on every cell but `i`.
pub open spec fn same_except(b1: Seq<Seq<Piece>>, b2: Seq<Seq<Piece>>, i: int) -> bool {
    &&& b1.len() == b2.len()
    &&& forall|j: int| 0 <= j < b1.len() && j != i ==> #[trigger] b1[j] == b2[j]
}

pub proof fn lemma_one_cell(b1: Seq<Seq<Piece>>, b2: Seq<Seq<Piece>>, i: int, k: int, c: Color)
    requires
        same_except(b1, b2, i),
        0 <= i < k <= b1.len(),
    ensures
        count_flats(b2, c, k) == count_flats(b1, c, k) - flat_of(top_of(b1[i]), c) + flat_of(top_of(b2[i]), c),
        pieces_on_board(b2, c, k) == pieces_on_board(b1, c, k) - count_color(b1[i], c) + count_color(b2[i], c),
    decreases k,
{
    if k - 1 > i {
        lemma_one_cell(b1, b2, i, k - 1, c);
    } else {
        lemma_same_below(b1, b2, i, i, c);
    }
}

proof fn lemma_same_below(b1: Seq<Seq<Piece>>, b2: Seq<Seq<Piece>>, i: int, k: int, c: Color)
    requires
        same_except(b1, b2, i),
        0 <= k <= i,
        i < b1.len(),
    ensures
        count_flats(b2, c, k) == count_flats(b1, c, k),
        pieces_on_board(b2, c, k) == pieces_on_board(b1, c, k),
    decreases k,
{
    if k > 0 {
        lemma_same_below(b1, b2, i, k - 1, c);
    }
}

/// A game position: both seats' reserves, the stacks of the board, the number
/// of plies played, and the analysis of the stacks' tops.
#[derive(Clone, Debug)]
pub struct State {
    pub p1: Player,
    pub p2: Player,
    /// The stack of the cell at column `x` and row `y` is `board[x][y]`,
    /// bottom piece first.
    pub board: Vec<Vec<Vec<Piece>>>,
    pub ply_count: u16,
    pub analysis: StateAnalysis,
}

impl State {
    pub open spec fn size(&self) -> int {
        self.analysis.board_size as int
    }

    /// The stacks of the board in row-major order, bottom piece first: the
    /// stack of column `x` and row `y` is at `y * n + x`.
    pub open spec fn cells(&self) -> Seq<Seq<Piece>> {
        let n = self.size();
        Seq::new((n * n) as nat, |i: int| self.board@[i % n]@[i / n]@)
    }

    /// The board is `n` columns of `n` stacks.
    pub open spec fn grid_ok(&self) -> bool {
        &&& self.board@.len() == self.size()
        &&& forall|x: int| 0 <= x < self.size() ==> (#[trigger] self.board@[x])@.len() == self.size()
    }

    pub open spec fn stack_at(&self, x: int, y: int) -> Seq<Piece> {
        self.cells()[y * self.size() + x]
    }

    pub open spec fn seat(&self, c: Color) -> Player {
        match c {
            Color::White => self.p1,
            Color::Black => self.p2,
        }
    }

    /// A seat's reserve plus its pieces on the board make up what it started with.
    pub open spec fn conserves(&self, c: Color) -> bool {
        self.seat(c).flatstone_count + self.seat(c).capstone_count + pieces_on_board(self.cells(), c, self.size() * self.size())
            == start_flatstones(self.size()) + start_capstones(self.size())
    }

    /// The state is well formed.
    pub open spec fn wf(&self) -> bool {
        let n = self.size();
        &&& 3 <= n <= 8
        &&& self.grid_ok()
        &&& self.p1.color == Color::White
        &&& self.p2.color == Color::Black
        &&& self.analysis.describes(self.cells())
        &&& partitions(self.analysis.p1_road_groups@, self.analysis.p1_road_pieces, n)
        &&& partitions(self.analysis.p2_road_groups@, self.analysis.p2_road_pieces, n)
        &&& forall|i: int, k: int| 0 <= i < n * n && 0 <= k < self.cells()[i].len() - 1 ==> #[trigger] self.cells()[i][k] is Flatstone
        &&& self.conserves(Color::White)
        &&& self.conserves(Color::Black)
    }

    /// An empty board of size `board_size`, with both reserves full.
    pub fn new(board_size: usize) -> (r: State)
        requires
            3 <= board_size <= 8,
        ensures
            r.wf(),
            r.size() == board_size,
            r.ply_count == 0,
            forall|i: int| 0 <= i < board_size * board_size ==> #[trigger] r.cells()[i].len() == 0,
            r.p1.flatstone_count == start_flatstones(board_size as int),
            r.p1.capstone_count == start_capstones(board_size as int),
            r.p2.flatstone_count == start_flatstones(board_size as int),
            r.p2.capstone_count == start_capstones(board_size as int),
    {
        let (flatstone_count, capstone_count): (u8, u8) = match board_size {
            3 => (10, 0),
            4 => (15, 0),
            5 => (21, 1),
            6 => (30, 1),
            7 => (40, 1),
            _ => (50, 2),
        };
        let mut board: Vec<Vec<Vec<Piece>>> = Vec::new();
        let mut x: usize = 0;
        while x < board_size
            invariant
                x <= board_size,
                board@.len() == x,
                forall|c: int| 0 <= c < x ==> (#[trigger] board@[c])@.len() == board_size,
                forall|c: int, r: int| 0 <= c < x && 0 <= r < board_size ==> (#[trigger] board@[c]@[r])@.len() == 0,
            decreases board_size - x,
        {
            let mut column: Vec<Vec<Piece>> = Vec::new();
            let mut y: usize = 0;
            while y < board_size
                invariant
                    y <= board_size,
                    column@.len() == y,
                    forall|r: int| 0 <= r < y ==> (#[trigger] column@[r])@.len() == 0,
                decreases board_size - y,
            {
                column.push(Vec::new());
                y = y + 1;
            }
            board.push(column);
            x = x + 1;
        }
        let r = State {
            p1: Player::new(Color::White, flatstone_count, capstone_count),
            p2: Player::new(Color::Black, flatstone_count, capstone_count),
            board,
            ply_count: 0,
            analysis: StateAnalysis::new(board_size),
        };
        proof {
            crate::bitmap::lemma_empty_bitmap();
            let n = board_size as int;
            assert forall|i: int| 0 <= i < n * n implies #[trigger] r.cells()[i].len() == 0 by {
                lemma_grid_index(n, i, 0, 0);
            }
            lemma_empty_counts(r.cells(), n * n);
            assert(partitions(r.analysis.p1_road_groups@, r.analysis.p1_road_pieces, n));
            assert(partitions(r.analysis.p2_road_groups@, r.analysis.p2_road_pieces, n));
        }
        r
    }
}

proof fn lemma_empty_counts(board: Seq<Seq<Piece>>, k: int)
    requires
        0 <= k <= board.len(),
        forall|j: int| 0 <= j < k ==> #[trigger] board[j].len() == 0,
    ensures
        count_flats(board, Color::White, k) == 0,
        count_flats(board, Color::Black, k) == 0,
        pieces_on_board(board, Color::White, k) == 0,
        pieces_on_board(board, Color::Black, k) == 0,
    decreases k,
{
    if k > 0 {
        lemma_empty_counts(board, k - 1);
    }
}

/// The number of pieces of color `c` in `p`, as 0 or 1.
pub open spec fn one_of(p: Piece, c: Color) -> int {
    if p.color() == c { 1 } else { 0 }
}

impl State {
    /// The board, its analysis and the seats agree, whatever the road groups.
    pub open spec fn consistent(&self) -> bool {
        let n = self.size();
        &&& 3 <= n <= 8
        &&& self.grid_ok()
        &&& self.p1.color == Color::White
        &&& self.p2.color == Color::Black
        &&& self.analysis.describes(self.cells())
        &&& forall|i: int, k: int| 0 <= i < n * n && 0 <= k < self.cells()[i].len() - 1 ==> #[trigger] self.cells()[i][k] is Flatstone
    }

    /// `self` is `old` with cell `i` holding `s` and the road groups, seats and
    /// ply count untouched.
    pub open spec fn changed_cell(&self, old: &State, i: int, s: Seq<Piece>) -> bool {
        &&& self.cells() == old.cells().update(i, s)
        &&& self.p1 == old.p1
        &&& self.p2 == old.p2
        &&& self.ply_count == old.ply_count
        &&& self.analysis.board_size == old.analysis.board_size
        &&& self.analysis.p1_road_groups == old.analysis.p1_road_groups
        &&& self.analysis.p2_road_groups == old.analysis.p2_road_groups
    }

    /// Replaces the stack at `(x, y)`.
    fn put_stack(&mut self, x: usize, y: usize, s: Vec<Piece>)
        requires
            old(self).grid_ok(),
            x < old(self).size(),
            y < old(self).size(),
        ensures
            final(self).grid_ok(),
            final(self).cells() == old(self).cells().update(y * old(self).size() + x, s@),
            final(self).p1 == old(self).p1,
            final(self).p2 == old(self).p2,
            final(self).ply_count == old(self).ply_count,
            final(self).analysis == old(self).analysis,
    {
        let mut column: Vec<Vec<Piece>> = Vec::new();
        std::mem::swap(&mut self.board[x], &mut column);
        column.set(y, s);
        self.board.set(x, column);
        proof {
            lemma_grid_update(*old(self), *self, x as int, y as int);
        }
    }

    /// Takes the stack at `(x, y)` out, leaving it empty.
    fn take_stack(&mut self, x: usize, y: usize) -> (s: Vec<Piece>)
        requires
            old(self).grid_ok(),
            x < old(self).size(),
            y < old(self).size(),
        ensures
            s@ == old(self).stack_at(x as int, y as int),
            final(self).grid_ok(),
            final(self).cells() == old(self).cells().update(y * old(self).size() + x, Seq::empty()),
            final(self).p1 == old(self).p1,
            final(self).p2 == old(self).p2,
            final(self).ply_count == old(self).ply_count,
            final(self).analysis == old(self).analysis,
    {
        let mut column: Vec<Vec<Piece>> = Vec::new();
        std::mem::swap(&mut self.board[x], &mut column);
        let mut s: Vec<Piece> = Vec::new();
        std::mem::swap(&mut column[y], &mut s);
        self.board.set(x, column);
        proof {
            lemma_grid_update(*old(self), *self, x as int, y as int);
            lemma_cell_of(old(self).size(), x as int, y as int);
        }
        s
    }

    /// The height of the stack at `(x, y)`.
    fn height(&self, x: usize, y: usize) -> (r: usize)
        requires
            self.grid_ok(),
            x < self.size(),
            y < self.size(),
        ensures
            r == self.stack_at(x as int, y as int).len(),
    {
        proof {
            lemma_cell_of(self.size(), x as int, y as int);
        }
        self.board[x][y].len()
    }

    /// The top piece of the stack at `(x, y)`.
    fn top_piece(&self, x: usize, y: usize) -> (r: Piece)
        requires
            self.grid_ok(),
            x < self.size(),
            y < self.size(),
            self.stack_at(x as int, y as int).len() > 0,
        ensures
            r == self.stack_at(x as int, y as int).last(),
    {
        proof {
            lemma_cell_of(self.size(), x as int, y as int);
        }
        let h = self.board[x][y].len();
        self.board[x][y][h - 1]
    }
}

/// Cell `i` of a board of size `n` is column `i % n`, row `i / n`.
pub proof fn lemma_grid_index(n: int, i: int, x: int, y: int)
    requires
        0 <= x < n,
        0 <= y < n,
        0 <= i < n * n,
    ensures
        0 <= i % n < n,
        0 <= i / n < n,
        (i % n == x && i / n == y) <==> i == y * n + x,
{
    lemma_cell_of(n, x, y);
    vstd::arithmetic::div_mod::lemma_fundamental_div_mod(i, n);
    let q = i / n;
    let r = i % n;
    assert(0 <= r < n) by {
        vstd::arithmetic::div_mod::lemma_mod_bound(i, n);
    }
    assert(0 <= q < n) by (nonlinear_arith)
        requires
            i == n * q + r,
            0 <= r < n,
            0 <= i < n * n,
    ;
    assert(n * q == q * n) by (nonlinear_arith);
}

/// Cell `(x, y)` of a board of size `n` has index `y * n + x`.
pub proof fn lemma_cell_of(n: int, x: int, y: int)
    requires
        0 <= x < n,
        0 <= y < n,
    ensures
        (y * n + x) % n == x,
        (y * n + x) / n == y,
        0 <= y * n + x < n * n,
{
    vstd::arithmetic::div_mod::lemma_fundamental_div_mod_converse(y * n + x, n, y, x);
    assert(0 <= y * n + x < n * n) by (nonlinear_arith)
        requires
            0 <= x < n,
            0 <= y < n,
    ;
}

/// Changing the stack at `(x, y)` of the grid changes cell `y * n + x` only.
proof fn lemma_grid_update(a: State, b: State, x: int, y: int)
    requires
        a.grid_ok(),
        a.size() == b.size(),
        0 <= x < a.size(),
        0 <= y < a.size(),
        b.board@.len() == a.board@.len(),
        forall|c: int| 0 <= c < a.size() && c != x ==> #[trigger] b.board@[c] == a.board@[c],
        b.board@[x]@.len() == a.board@[x]@.len(),
        forall|r: int| 0 <= r < a.size() && r != y ==> #[trigger] b.board@[x]@[r] == a.board@[x]@[r],
    ensures
        b.grid_ok(),
        b.cells() == a.cells().update(y * a.size() + x, b.board@[x]@[y]@),
{
    let n = a.size();
    assert(b.grid_ok()) by {
        assert forall|c: int| 0 <= c < n implies (#[trigger] b.board@[c])@.len() == n by {
            if c != x {
                assert(b.board@[c] == a.board@[c]);
            }
        }
    }
    assert(0 <= y * n + x < n * n) by (nonlinear_arith)
        requires
            0 <= x < n,
            0 <= y < n,
    ;
    assert forall|i: int| 0 <= i < n * n implies #[trigger] b.cells()[i] == a.cells().update(y * n + x, b.board@[x]@[y]@)[i] by {
        lemma_grid_index(n, i, x, y);
        if i % n != x {
            assert(b.board@[i % n] == a.board@[i % n]);
        } else if i / n != y {
            assert(b.board@[x]@[i / n] == a.board@[x]@[i / n]);
        }
    }
    assert(b.cells() =~= a.cells().update(y * n + x, b.board@[x]@[y]@));
}

pub proof fn lemma_count_flats_bounds(board: Seq<Seq<Piece>>, c: Color, k: int)
    requires
        0 <= k,
    ensures
        0 <= count_flats(board, c, k) <= k,
    decreases k,
{
    if k > 0 {
        lemma_count_flats_bounds(board, c, k - 1);
    }
}

impl State {
    /// Each color's count of pieces on the board differs from `old`'s by `sign`
    /// times the number of pieces of that color in `p`.
    pub open spec fn moved_pieces(&self, old: &State, p: Piece, sign: int) -> bool {
        let nn = self.size() * self.size();
        &&& pieces_on_board(self.cells(), Color::White, nn) == pieces_on_board(old.cells(), Color::White, nn) + sign * one_of(p, Color::White)
        &&& pieces_on_board(self.cells(), Color::Black, nn) == pieces_on_board(old.cells(), Color::Black, nn) + sign * one_of(p, Color::Black)
    }

    proof fn lemma_changed(&self, old: &State, i: int)
        requires
            self.cells().len() == old.cells().len(),
            self.size() == old.size(),
            0 <= i < old.size() * old.size(),
            old.cells().len() == old.size() * old.size(),
            forall|j: int| 0 <= j < self.cells().len() && j != i ==> #[trigger] self.cells()[j] == old.cells()[j],
        ensures
            forall|c: Color| #[trigger] count_flats(self.cells(), c, self.size() * self.size()) == count_flats(old.cells(), c, self.size() * self.size()) - flat_of(top_of(old.cells()[i]), c) + flat_of(top_of(self.cells()[i]), c),
            forall|c: Color| #[trigger] pieces_on_board(self.cells(), c, self.size() * self.size()) == pieces_on_board(old.cells(), c, self.size() * self.size()) - count_color(old.cells()[i], c) + count_color(self.cells()[i], c),
    {
        assert forall|c: Color| #[trigger] count_flats(self.cells(), c, self.size() * self.size()) == count_flats(old.cells(), c, self.size() * self.size()) - flat_of(top_of(old.cells()[i]), c) + flat_of(top_of(self.cells()[i]), c) by {
            lemma_one_cell(old.cells(), self.cells(), i, old.size() * old.size(), c);
        }
        assert forall|c: Color| #[trigger] pieces_on_board(self.cells(), c, self.size() * self.size()) == pieces_on_board(old.cells(), c, self.size() * self.size()) - count_color(old.cells()[i], c) + count_color(self.cells()[i], c) by {
            lemma_one_cell(old.cells(), self.cells(), i, old.size() * old.size(), c);
        }
    }

    /// Takes the top piece off the stack at `(x, y)`.
    fn pop_piece(&mut self, x: usize, y: usize) -> (p: Piece)
        requires
            old(self).consistent(),
            x < old(self).size(),
            y < old(self).size(),
            old(self).stack_at(x as int, y as int).len() > 0,
        ensures
            final(self).consistent(),
            final(self).changed_cell(old(self), y * old(self).size() + x, old(self).stack_at(x as int, y as int).drop_last()),
            p == old(self).stack_at(x as int, y as int).last(),
            final(self).moved_pieces(old(self), p, -1),
    {
        let n = self.analysis.board_size;
        let i = crate::analysis::cell(n, x, y);
        let ghost old_cells = self.cells();
        let ghost nn = (n * n) as int;
        proof {
            assert(nn <= 64) by (nonlinear_arith)
                requires
                    nn == n * n,
                    n <= 8,
            ;
            lemma_count_flats_bounds(old_cells, Color::White, nn);
            lemma_count_flats_bounds(old_cells, Color::Black, nn);
            assert(self.analysis.tracks(i as int, top_of(old_cells[i as int])));
        }
        let mut s = self.take_stack(x, y);
        let p = s.pop().unwrap();
        let ghost new_s = s@;
        proof {
            let nc = old_cells.update(i as int, new_s);
            assert(old_cells[i as int].drop_last() == new_s);
            lemma_one_cell(old_cells, nc, i as int, nn, Color::White);
            lemma_one_cell(old_cells, nc, i as int, nn, Color::Black);
            let ec = old_cells.update(i as int, Seq::empty());
            lemma_one_cell(old_cells, ec, i as int, nn, Color::White);
            lemma_one_cell(old_cells, ec, i as int, nn, Color::Black);
            lemma_count_flats_bounds(ec, Color::White, nn);
            lemma_count_flats_bounds(ec, Color::Black, nn);
            if new_s.len() > 0 {
                assert(old_cells[i as int][new_s.len() - 1] is Flatstone);
            }
        }
        match p {
            Piece::Flatstone(c) => self.analysis.remove_flatstone(c, x, y),
            _ => self.analysis.remove_blocking_stone(p, x, y),
        }
        if s.len() > 0 {
            let t = s[s.len() - 1];
            self.analysis.reveal_flatstone(t.get_color(), x, y);
        }
        self.put_stack(x, y, s);
        proof {
            assert(self.cells() =~= old_cells.update(i as int, new_s));
            self.lemma_changed(old(self), i as int);
            assert forall|j: int| 0 <= j < nn implies #[trigger] self.analysis.tracks(j, top_of(self.cells()[j])) by {
                if j != i {
                    assert(old(self).analysis.tracks(j, top_of(old_cells[j])));
                }
            }
            assert forall|j: int, k: int| 0 <= j < nn && 0 <= k < self.cells()[j].len() - 1 implies #[trigger] self.cells()[j][k] is Flatstone by {
                assert(old_cells[j][k] is Flatstone);
            }
        }
        p
    }
}

impl State {
    /// Puts `p` on top of the stack at `(x, y)`, whose top, if any, is a flatstone.
    fn push_piece(&mut self, x: usize, y: usize, p: Piece)
        requires
            old(self).consistent(),
            x < old(self).size(),
            y < old(self).size(),
            old(self).stack_at(x as int, y as int).len() > 0 ==> old(self).stack_at(x as int, y as int).last() is Flatstone,
        ensures
            final(self).consistent(),
            final(self).changed_cell(old(self), y * old(self).size() + x, old(self).stack_at(x as int, y as int).push(p)),
            final(self).moved_pieces(old(self), p, 1),
            old(self).stack_at(x as int, y as int).len() == 0 && p is StandingStone ==> {
                &&& forall|j: int| #[trigger] has_bit(final(self).analysis.p1_road_pieces, j) == has_bit(old(self).analysis.p1_road_pieces, j)
                &&& forall|j: int| #[trigger] has_bit(final(self).analysis.p2_road_pieces, j) == has_bit(old(self).analysis.p2_road_pieces, j)
            },
    {
        let n = self.analysis.board_size;
        let i = crate::analysis::cell(n, x, y);
        let ghost old_cells = self.cells();
        let ghost nn = (n * n) as int;
        proof {
            assert(nn <= 64) by (nonlinear_arith)
                requires
                    nn == n * n,
                    n <= 8,
            ;
            lemma_count_flats_bounds(old_cells, Color::White, nn);
            lemma_count_flats_bounds(old_cells, Color::Black, nn);
            assert(self.analysis.tracks(i as int, top_of(old_cells[i as int])));
            let ec = old_cells.update(i as int, Seq::empty());
            lemma_one_cell(old_cells, ec, i as int, nn, Color::White);
            lemma_one_cell(old_cells, ec, i as int, nn, Color::Black);
            lemma_count_flats_bounds(ec, Color::White, nn);
            lemma_count_flats_bounds(ec, Color::Black, nn);
        }
        let mut s = self.take_stack(x, y);
        let ghost a0 = self.analysis;
        if s.len() > 0 {
            let t = s[s.len() - 1];
            assert(top_of(old_cells[i as int]) == Some(Piece::Flatstone(t.color())));
            self.analysis.cover_flatstone(t.get_color(), x, y);
        }
        let ghost a1 = self.analysis;
        assert(a1.p1_flatstone_count == a0.p1_flatstone_count - flat_of(top_of(old_cells[i as int]), Color::White));
        assert(a1.p2_flatstone_count == a0.p2_flatstone_count - flat_of(top_of(old_cells[i as int]), Color::Black));
        assert(a1.tracks(i as int, None));
        match p {
            Piece::Flatstone(c) => self.analysis.add_flatstone(c, x, y),
            _ => self.analysis.add_blocking_stone(p, x, y),
        }
        s.push(p);
        let ghost new_s = s@;
        assert(new_s.drop_last() == old_cells[i as int]);
        self.put_stack(x, y, s);
        proof {
            assert(self.cells() =~= old_cells.update(i as int, new_s));
            self.lemma_changed(old(self), i as int);
            lemma_one_cell(old_cells, self.cells(), i as int, nn, Color::White);
            lemma_one_cell(old_cells, self.cells(), i as int, nn, Color::Black);
            assert(top_of(self.cells()[i as int]) == Some(p));
            assert forall|j: int| 0 <= j < nn implies #[trigger] self.analysis.tracks(j, top_of(self.cells()[j])) by {
                if j != i {
                    assert(old(self).analysis.tracks(j, top_of(old_cells[j])));
                }
            }
            assert forall|j: int, k: int| 0 <= j < nn && 0 <= k < self.cells()[j].len() - 1 implies #[trigger] self.cells()[j][k] is Flatstone by {
                if j != i || k < old_cells[j].len() - 1 {
                    assert(old_cells[j][k] is Flatstone);
                } else {
                    assert(self.cells()[j][k] == new_s[k]);
                    assert(new_s[k] == old_cells[j].last());
                }
            }
            assert(self.analysis.p1_flatstone_count == count_flats(self.cells(), Color::White, nn));
            assert(self.analysis.p2_flatstone_count == count_flats(self.cells(), Color::Black, nn));
            assert(self.analysis.describes(self.cells()));
        }
    }

    /// Turns the standing stone on top of `(x, y)` into a flatstone of its color.
    fn flatten_top(&mut self, x: usize, y: usize)
        requires
            old(self).consistent(),
            x < old(self).size(),
            y < old(self).size(),
            old(self).stack_at(x as int, y as int).len() > 0,
            old(self).stack_at(x as int, y as int).last() is StandingStone,
        ensures
            final(self).consistent(),
            final(self).changed_cell(old(self), y * old(self).size() + x, old(self).stack_at(x as int, y as int).update(
                old(self).stack_at(x as int, y as int).len() - 1, Piece::Flatstone(old(self).stack_at(x as int, y as int).last().color()))),
            final(self).moved_pieces(old(self), Piece::Flatstone(Color::White), 0),
    {
        let n = self.analysis.board_size;
        let i = crate::analysis::cell(n, x, y);
        let ghost old_cells = self.cells();
        let ghost nn = (n * n) as int;
        proof {
            assert(nn <= 64) by (nonlinear_arith)
                requires
                    nn == n * n,
                    n <= 8,
            ;
            lemma_count_flats_bounds(old_cells, Color::White, nn);
            lemma_count_flats_bounds(old_cells, Color::Black, nn);
            assert(self.analysis.tracks(i as int, top_of(old_cells[i as int])));
        }
        let mut s = self.take_stack(x, y);
        let last = s.len() - 1;
        let t = s[last];
        let c = t.get_color();
        self.analysis.remove_blocking_stone(t, x, y);
        self.analysis.add_flatstone(c, x, y);
        s.set(last, Piece::Flatstone(c));
        let ghost new_s = s@;
        assert(new_s.drop_last() == old_cells[i as int].drop_last());
        self.put_stack(x, y, s);
        proof {
            assert(self.cells() =~= old_cells.update(i as int, new_s));
            self.lemma_changed(old(self), i as int);
            assert forall|j: int| 0 <= j < nn implies #[trigger] self.analysis.tracks(j, top_of(self.cells()[j])) by {
                if j != i {
                    assert(old(self).analysis.tracks(j, top_of(old_cells[j])));
                }
            }
            assert forall|j: int, k: int| 0 <= j < nn && 0 <= k < self.cells()[j].len() - 1 implies #[trigger] self.cells()[j][k] is Flatstone by {
                assert(old_cells[j][k] is Flatstone);
            }
        }
    }
}

/// The number of pieces a slide carries: the sum of its drops.
pub open spec fn sum_drops(d: Seq<usize>) -> int
    decreases d.len(),
{
    if d.len() == 0 {
        0
    } else {
        d[0] + sum_drops(d.drop_first())
    }
}

proof fn lemma_sum_suffix(d: Seq<usize>, k: int)
    requires
        0 <= k <= d.len(),
    ensures
        0 <= sum_drops(d.subrange(k, d.len() as int)) <= sum_drops(d),
    decreases k,
{
    if k == 0 {
        assert(d.subrange(0, d.len() as int) =~= d);
        lemma_sum_nonneg(d);
    } else {
        lemma_sum_suffix(d, k - 1);
        assert(d.subrange(k - 1, d.len() as int).drop_first() =~= d.subrange(k, d.len() as int));
        lemma_sum_nonneg(d.subrange(k, d.len() as int));
    }
}

proof fn lemma_sum_nonneg(d: Seq<usize>)
    ensures
        sum_drops(d) >= 0,
    decreases d.len(),
{
    if d.len() > 0 {
        lemma_sum_nonneg(d.drop_first());
    }
}

/// Picks `k` pieces off the top of `src` one by one, appending each to
/// `carried`: the carried sequence lists the top piece first.
pub open spec fn pick_up(src: Seq<Piece>, carried: Seq<Piece>, k: nat) -> (Seq<Piece>, Seq<Piece>)
    decreases k,
{
    if k == 0 || src.len() == 0 {
        (src, carried)
    } else {
        pick_up(src.drop_last(), carried.push(src.last()), (k - 1) as nat)
    }
}

/// Drops `k` pieces onto `target`, each time the last of `carried`.
pub open spec fn drop_onto(target: Seq<Piece>, carried: Seq<Piece>, k: nat) -> (Seq<Piece>, Seq<Piece>)
    decreases k,
{
    if k == 0 || carried.len() == 0 {
        (target, carried)
    } else {
        drop_onto(target.push(carried.last()), carried.drop_last(), (k - 1) as nat)
    }
}

/// Carries `carried` from cell `(x, y)` one cell at a time in direction `dir`,
/// dropping `drops[k]` pieces on the `k`-th cell stepped to.
pub open spec fn walk(cells: Seq<Seq<Piece>>, n: int, x: int, y: int, dir: Direction, drops: Seq<usize>, carried: Seq<Piece>) -> Result<Seq<Seq<Piece>>, GameError>
    decreases drops.len(),
{
    if drops.len() == 0 {
        Ok(cells)
    } else {
        let nx = x + dir.dx();
        let ny = y + dir.dy();
        if !(0 <= nx < n && 0 <= ny < n) {
            Err(GameError::OutOfBounds)
        } else {
            let j = ny * n + nx;
            let t = cells[j];
            if t.len() > 0 && t.last() is Capstone {
                Err(GameError::IllegalSlide)
            } else if t.len() > 0 && t.last() is StandingStone && !(carried.len() == 1 && carried[0] is Capstone) {
                Err(GameError::IllegalSlide)
            } else {
                let t1 = if t.len() > 0 && t.last() is StandingStone {
                    t.update(t.len() - 1, Piece::Flatstone(t.last().color()))
                } else {
                    t
                };
                let (t2, rest) = drop_onto(t1, carried, drops[0] as nat);
                walk(cells.update(j, t2), n, nx, ny, dir, drops.drop_first(), rest)
            }
        }
    }
}

/// The stacks after a slide from `(x, y)`, or the reason it is rejected.
pub open spec fn slide_outcome(cells: Seq<Seq<Piece>>, n: int, x: int, y: int, dir: Direction, drops: Seq<usize>) -> Result<Seq<Seq<Piece>>, GameError> {
    if !(0 <= x < n && 0 <= y < n) {
        Err(GameError::OutOfBounds)
    } else {
        let i = y * n + x;
        let src = cells[i];
        let grab = sum_drops(drops);
        if grab > n || src.len() == 0 || grab > src.len() {
            Err(GameError::IllegalSlide)
        } else {
            let (rest, carried) = pick_up(src, Seq::empty(), grab as nat);
            walk(cells.update(i, rest), n, x, y, dir, drops, carried)
        }
    }
}

/// The sum of `drops`, or `None` once it exceeds `limit`.
fn grab_count(drops: &Vec<usize>, limit: usize) -> (r: Option<usize>)
    ensures
        r is Some <==> sum_drops(drops@) <= limit,
        r is Some ==> r->0 == sum_drops(drops@),
{
    let mut k = drops.len();
    let mut total: usize = 0;
    while k > 0
        invariant
            k <= drops@.len(),
            total <= limit,
            total == sum_drops(drops@.subrange(k as int, drops@.len() as int)),
        decreases k,
    {
        k = k - 1;
        assert(drops@.subrange(k as int, drops@.len() as int).drop_first() =~= drops@.subrange(k as int + 1, drops@.len() as int));
        if drops[k] > limit - total {
            proof {
                lemma_sum_suffix(drops@, k as int);
            }
            return None;
        }
        total = total + drops[k];
    }
    assert(drops@.subrange(0, drops@.len() as int) =~= drops@);
    Some(total)
}

impl State {
    /// The seats, the ply count and the size are those of `old`, and each
    /// color's pieces on the board plus those in `carried` are the pieces of
    /// that color on `old`'s board.
    pub open spec fn holds_with(&self, old: &State, carried: Seq<Piece>) -> bool {
        let nn = self.size() * self.size();
        &&& self.p1 == old.p1
        &&& self.p2 == old.p2
        &&& self.ply_count == old.ply_count
        &&& self.size() == old.size()
        &&& self.analysis.p1_road_groups == old.analysis.p1_road_groups
        &&& self.analysis.p2_road_groups == old.analysis.p2_road_groups
        &&& pieces_on_board(self.cells(), Color::White, nn) + count_color(carried, Color::White) == pieces_on_board(old.cells(), Color::White, nn)
        &&& pieces_on_board(self.cells(), Color::Black, nn) + count_color(carried, Color::Black) == pieces_on_board(old.cells(), Color::Black, nn)
    }

    /// Picks the top `grab` pieces off the stack at `(x, y)`, top piece first.
    fn pick_up_pieces(&mut self, x: usize, y: usize, grab: usize) -> (stack: Vec<Piece>)
        requires
            old(self).consistent(),
            x < old(self).size(),
            y < old(self).size(),
            grab <= old(self).stack_at(x as int, y as int).len(),
        ensures
            final(self).consistent(),
            final(self).holds_with(old(self), stack@),
            stack@.len() == grab,
            ({
                let (rest, carried) = pick_up(old(self).stack_at(x as int, y as int), Seq::empty(), grab as nat);
                &&& final(self).cells() == old(self).cells().update(y * old(self).size() + x, rest)
                &&& stack@ == carried
            }),
            forall|m: int| 0 < m < stack@.len() ==> #[trigger] stack@[m] is Flatstone,
    {
        let n = self.analysis.board_size;
        let i = crate::analysis::cell(n, x, y);
        let ghost src0 = self.cells()[i as int];
        let mut stack: Vec<Piece> = Vec::new();
        let mut k: usize = 0;
        while k < grab
            invariant
                self.consistent(),
                self.holds_with(old(self), stack@),
                self.size() == n,
                i == y * n + x,
                i < self.cells().len(),
                x < n,
                y < n,
                k <= grab,
                grab <= src0.len(),
                stack@.len() == k,
                self.cells()[i as int].len() == src0.len() - k,
                forall|j: int| 0 <= j < self.cells().len() && j != i ==> #[trigger] self.cells()[j] == old(self).cells()[j],
                self.cells().len() == old(self).cells().len(),
                pick_up(self.cells()[i as int], stack@, (grab - k) as nat) == pick_up(src0, Seq::empty(), grab as nat),
                forall|m: int| 0 < m < stack@.len() ==> #[trigger] stack@[m] is Flatstone,
                k > 0 ==> forall|m: int| 0 <= m < self.cells()[i as int].len() ==> #[trigger] self.cells()[i as int][m] is Flatstone,
            decreases grab - k,
        {
            let ghost before = self.cells()[i as int];
            let ghost cb = self.cells();
            let ghost st = stack@;
            assert(self.stack_at(x as int, y as int) == before);
            let p = self.pop_piece(x, y);
            stack.push(p);
            proof {
                assert(self.cells() == cb.update(i as int, before.drop_last()));
                assert(stack@.drop_last() =~= st);
                assert(self.cells()[i as int] == before.drop_last());
                assert forall|m: int| 0 < m < stack@.len() implies #[trigger] stack@[m] is Flatstone by {
                    if m < st.len() {
                        assert(stack@[m] == st[m]);
                    } else {
                        assert(k > 0);
                        assert(before[before.len() - 1] is Flatstone);
                    }
                }
                assert forall|m: int| 0 <= m < self.cells()[i as int].len() implies #[trigger] self.cells()[i as int][m] is Flatstone by {
                    assert(before[m] is Flatstone);
                }
            }
            k = k + 1;
        }
        assert(self.cells() =~= old(self).cells().update(i as int, self.cells()[i as int]));
        stack
    }
}

impl State {
    /// Drops `d` pieces from the end of `stack` onto the stack at `(x, y)`.
    fn drop_pieces(&mut self, x: usize, y: usize, stack: &mut Vec<Piece>, d: usize, Ghost(base): Ghost<State>)
        requires
            old(self).consistent(),
            old(self).holds_with(&base, old(stack)@),
            x < old(self).size(),
            y < old(self).size(),
            d <= old(stack)@.len(),
            forall|m: int| 0 < m < old(stack)@.len() ==> #[trigger] old(stack)@[m] is Flatstone,
            old(self).stack_at(x as int, y as int).len() > 0 ==> old(self).stack_at(x as int, y as int).last() is Flatstone,
        ensures
            final(self).consistent(),
            final(self).holds_with(&base, final(stack)@),
            ({
                let (t2, rest) = drop_onto(old(self).stack_at(x as int, y as int), old(stack)@, d as nat);
                &&& final(self).cells() == old(self).cells().update(y * old(self).size() + x, t2)
                &&& final(stack)@ == rest
            }),
            final(stack)@.len() == old(stack)@.len() - d,
            forall|m: int| 0 < m < final(stack)@.len() ==> #[trigger] final(stack)@[m] is Flatstone,
    {
        let n = self.analysis.board_size;
        let i = crate::analysis::cell(n, x, y);
        let ghost t0 = self.cells()[i as int];
        let ghost s0 = stack@;
        let mut m: usize = 0;
        while m < d
            invariant
                self.consistent(),
                self.holds_with(&base, stack@),
                self.size() == n,
                i == y * n + x,
                i < self.cells().len(),
                x < n,
                y < n,
                m <= d,
                d <= s0.len(),
                stack@.len() == s0.len() - m,
                forall|j: int| 0 <= j < self.cells().len() && j != i ==> #[trigger] self.cells()[j] == old(self).cells()[j],
                self.cells().len() == old(self).cells().len(),
                drop_onto(self.cells()[i as int], stack@, (d - m) as nat) == drop_onto(t0, s0, d as nat),
                forall|k: int| 0 < k < stack@.len() ==> #[trigger] stack@[k] is Flatstone,
                stack@.len() > 0 && self.cells()[i as int].len() > 0 ==> self.cells()[i as int].last() is Flatstone,
            decreases d - m,
        {
            let ghost before = self.cells()[i as int];
            let ghost cb = self.cells();
            let ghost st = stack@;
            assert(self.stack_at(x as int, y as int) == before);
            let p = stack.pop().unwrap();
            self.push_piece(x, y, p);
            proof {
                assert(self.cells() == cb.update(i as int, before.push(p)));
                assert(self.cells()[i as int] == before.push(p));
                assert(st.drop_last() == stack@);
                if stack@.len() > 0 {
                    assert(st[st.len() - 1] is Flatstone);
                }
                assert forall|k: int| 0 < k < stack@.len() implies #[trigger] stack@[k] is Flatstone by {
                    assert(stack@[k] == st[k]);
                }
            }
            m = m + 1;
        }
        assert(self.cells() =~= old(self).cells().update(i as int, self.cells()[i as int]));
    }
}

impl State {
    /// Carries the top `sum(drops)` pieces of `(x, y)` toward `direction`.
    fn slide(&mut self, x: usize, y: usize, direction: Direction, drops: &Vec<usize>) -> (r: Result<(), GameError>)
        requires
            old(self).consistent(),
        ensures
            match slide_outcome(old(self).cells(), old(self).size(), x as int, y as int, direction, drops@) {
                Ok(b) => {
                    &&& r is Ok
                    &&& final(self).consistent()
                    &&& final(self).holds_with(old(self), Seq::empty())
                    &&& final(self).cells() == b
                },
                Err(e) => r == Err::<(), GameError>(e),
            },
    {
        let n = self.analysis.board_size;
        if x >= n || y >= n {
            return Err(GameError::OutOfBounds);
        }
        let grab = match grab_count(drops, n) {
            None => {
                return Err(GameError::IllegalSlide);
            },
            Some(g) => g,
        };
        let height = self.height(x, y);
        if height == 0 || grab > height {
            return Err(GameError::IllegalSlide);
        }
        let ghost outcome = slide_outcome(old(self).cells(), n as int, x as int, y as int, direction, drops@);
        let mut stack = self.pick_up_pieces(x, y, grab);
        assert(drops@.subrange(0, drops@.len() as int) =~= drops@);
        let (dx, dy) = direction.to_offset();
        let mut cx: i64 = x as i64;
        let mut cy: i64 = y as i64;
        let mut t: usize = 0;
        while t < drops.len()
            invariant
                self.consistent(),
                self.holds_with(old(self), stack@),
                self.size() == n,
                n <= 8,
                dx as int == direction.dx(),
                dy as int == direction.dy(),
                0 <= cx < n,
                0 <= cy < n,
                t <= drops@.len(),
                outcome == slide_outcome(old(self).cells(), old(self).size(), x as int, y as int, direction, drops@),
                outcome == walk(self.cells(), n as int, cx as int, cy as int, direction, drops@.subrange(t as int, drops@.len() as int), stack@),
                stack@.len() == sum_drops(drops@.subrange(t as int, drops@.len() as int)),
                forall|m: int| 0 < m < stack@.len() ==> #[trigger] stack@[m] is Flatstone,
            decreases drops@.len() - t,
        {
            let ghost rest_drops = drops@.subrange(t as int, drops@.len() as int);
            assert(rest_drops.drop_first() =~= drops@.subrange(t as int + 1, drops@.len() as int));
            assert(rest_drops[0] == drops@[t as int]);
            assert(rest_drops.len() > 0);
            let nx = cx + dx as i64;
            let ny = cy + dy as i64;
            if nx < 0 || nx >= n as i64 || ny < 0 || ny >= n as i64 {
                assert(outcome == Err::<Seq<Seq<Piece>>, GameError>(GameError::OutOfBounds));
                return Err(GameError::OutOfBounds);
            }
            let tx = nx as usize;
            let ty = ny as usize;
            let j = crate::analysis::cell(n, tx, ty);
            let ghost target = self.stack_at(tx as int, ty as int);
            let ghost cb0 = self.cells();
            let ghost st0 = stack@;
            let ghost t1 = if target.len() > 0 && target.last() is StandingStone {
                target.update(target.len() - 1, Piece::Flatstone(target.last().color()))
            } else {
                target
            };
            let tlen = self.height(tx, ty);
            if tlen > 0 {
                let top = self.top_piece(tx, ty);
                assert(top == target.last());
                match top {
                    Piece::Capstone(_) => {
                        assert(outcome == Err::<Seq<Seq<Piece>>, GameError>(GameError::IllegalSlide));
                        return Err(GameError::IllegalSlide);
                    },
                    Piece::StandingStone(_) => {
                        if stack.len() == 1 && matches!(stack[0], Piece::Capstone(_)) {
                            self.flatten_top(tx, ty);
                        } else {
                            assert(outcome == Err::<Seq<Seq<Piece>>, GameError>(GameError::IllegalSlide));
                            return Err(GameError::IllegalSlide);
                        }
                    },
                    Piece::Flatstone(_) => {},
                }
            }
            proof {
                lemma_sum_nonneg(drops@.subrange(t as int + 1, drops@.len() as int));
            }
            let d = drops[t];
            assert(self.cells() =~= cb0.update(j as int, t1));
            assert(self.stack_at(tx as int, ty as int) == t1);
            self.drop_pieces(tx, ty, &mut stack, d, Ghost(*old(self)));
            proof {
                let (t2, rest) = drop_onto(t1, st0, d as nat);
                assert(self.cells() =~= cb0.update(j as int, t2));
                assert(stack@ == rest);
            }
            cx = nx;
            cy = ny;
            t = t + 1;
        }
        Ok(())
    }
}

/// A copy of a stack.
fn copy_stack(v: &Vec<Piece>) -> (r: Vec<Piece>)
    ensures
        r@ == v@,
{
    let mut r: Vec<Piece> = Vec::new();
    let mut k: usize = 0;
    while k < v.len()
        invariant
            k <= v@.len(),
            r@ == v@.subrange(0, k as int),
        decreases v.len() - k,
    {
        r.push(v[k]);
        k = k + 1;
    }
    assert(r@ =~= v@);
    r
}

/// The reserve a placed piece is drawn from.
pub open spec fn reserve_of(seat: Player, p: Piece) -> int {
    if p is Capstone {
        seat.capstone_count as int
    } else {
        seat.flatstone_count as int
    }
}

impl State {
    /// A copy of the state.
    pub fn duplicate(&self) -> (r: State)
        requires
            self.wf(),
        ensures
            r.wf(),
            r.cells() == self.cells(),
            r.p1 == self.p1,
            r.p2 == self.p2,
            r.ply_count == self.ply_count,
            r.analysis.board_size == self.analysis.board_size,
            r.analysis.p1_pieces == self.analysis.p1_pieces,
            r.analysis.p2_pieces == self.analysis.p2_pieces,
            r.analysis.p1_road_pieces == self.analysis.p1_road_pieces,
            r.analysis.p2_road_pieces == self.analysis.p2_road_pieces,
            r.analysis.p1_flatstone_count == self.analysis.p1_flatstone_count,
            r.analysis.p2_flatstone_count == self.analysis.p2_flatstone_count,
            r.analysis.p1_road_groups@ == self.analysis.p1_road_groups@,
            r.analysis.p2_road_groups@ == self.analysis.p2_road_groups@,
    {
        let mut board: Vec<Vec<Vec<Piece>>> = Vec::new();
        let mut x: usize = 0;
        while x < self.board.len()
            invariant
                x <= self.board@.len(),
                board@.len() == x,
                forall|c: int| 0 <= c < x ==> (#[trigger] board@[c])@.len() == self.board@[c]@.len(),
                forall|c: int, r: int| 0 <= c < x && 0 <= r < self.board@[c]@.len() ==> (#[trigger] board@[c]@[r])@ == self.board@[c]@[r]@,
            decreases self.board.len() - x,
        {
            let mut column: Vec<Vec<Piece>> = Vec::new();
            let mut y: usize = 0;
            while y < self.board[x].len()
                invariant
                    x < self.board@.len(),
                    y <= self.board@[x as int]@.len(),
                    column@.len() == y,
                    forall|r: int| 0 <= r < y ==> (#[trigger] column@[r])@ == self.board@[x as int]@[r]@,
                decreases self.board@[x as int]@.len() - y,
            {
                column.push(copy_stack(&self.board[x][y]));
                y = y + 1;
            }
            board.push(column);
            x = x + 1;
        }
        let r = State { p1: self.p1, p2: self.p2, board, ply_count: self.ply_count, analysis: self.analysis.duplicate() };
        assert forall|i: int| 0 <= i < r.size() * r.size() implies #[trigger] r.cells()[i] == self.cells()[i] by {
            lemma_grid_index(r.size(), i, 0, 0);
        }
        assert(r.cells() =~= self.cells());
        assert forall|i: int| 0 <= i < r.size() * r.size() implies #[trigger] r.analysis.tracks(i, top_of(r.cells()[i])) by {
            assert(self.analysis.tracks(i, top_of(self.cells()[i])));
        }
        r
    }

    /// The state that playing `ply` leads to, or why `ply` is rejected.
    pub fn execute_ply(&self, ply: &Ply) -> (r: Result<State, GameError>)
        requires
            self.wf(),
            self.ply_count < u16::MAX,
        ensures
            r is Ok ==> {
                &&& r->Ok_0.wf()
                &&& r->Ok_0.ply_count == self.ply_count + 1
                &&& r->Ok_0.size() == self.size()
            },
            match *ply {
                Ply::Place { x, y, piece } => {
                    if !(x < self.size() && y < self.size()) {
                        r == Err::<State, GameError>(GameError::OutOfBounds)
                    } else if self.stack_at(x as int, y as int).len() > 0 {
                        r == Err::<State, GameError>(GameError::IllegalPlacement)
                    } else if reserve_of(self.seat(piece.color()), piece) == 0 {
                        r == Err::<State, GameError>(GameError::InsufficientPieces)
                    } else {
                        &&& r is Ok
                        &&& r->Ok_0.cells() == self.cells().update(y * self.size() + x, seq![piece])
                        &&& reserve_of(r->Ok_0.seat(piece.color()), piece) == reserve_of(self.seat(piece.color()), piece) - 1
                        &&& reserve_of(r->Ok_0.seat(piece.color()), Piece::Flatstone(piece.color())) + reserve_of(r->Ok_0.seat(piece.color()), Piece::Capstone(piece.color()))
                            == reserve_of(self.seat(piece.color()), Piece::Flatstone(piece.color())) + reserve_of(self.seat(piece.color()), Piece::Capstone(piece.color())) - 1
                        &&& r->Ok_0.seat(piece.color().spec_flip()) == self.seat(piece.color().spec_flip())
                    }
                },
                Ply::Slide { x, y, direction, drops } => match slide_outcome(self.cells(), self.size(), x as int, y as int, direction, drops@) {
                    Ok(b) => {
                        &&& r is Ok
                        &&& r->Ok_0.cells() == b
                        &&& r->Ok_0.p1 == self.p1
                        &&& r->Ok_0.p2 == self.p2
                    },
                    Err(e) => r == Err::<State, GameError>(e),
                },
            },
    {
        let mut next = self.duplicate();
        next.ply_count = next.ply_count + 1;
        let n = next.analysis.board_size;
        match ply {
            Ply::Place { x, y, piece } => {
                let x = *x;
                let y = *y;
                let piece = *piece;
                if x >= n || y >= n {
                    return Err(GameError::OutOfBounds);
                }
                let i = crate::analysis::cell(n, x, y);
                if next.height(x, y) > 0 {
                    return Err(GameError::IllegalPlacement);
                }
                let white = piece.get_color() == Color::White;
                let seat = if white { next.p1 } else { next.p2 };
                let seat = match piece {
                    Piece::Capstone(_) => {
                        if seat.capstone_count == 0 {
                            return Err(GameError::InsufficientPieces);
                        }
                        Player { capstone_count: seat.capstone_count - 1, ..seat }
                    },
                    _ => {
                        if seat.flatstone_count == 0 {
                            return Err(GameError::InsufficientPieces);
                        }
                        Player { flatstone_count: seat.flatstone_count - 1, ..seat }
                    },
                };
                if white {
                    next.p1 = seat;
                } else {
                    next.p2 = seat;
                }
                let ghost mid = next;
                assert(mid.stack_at(x as int, y as int) =~= Seq::<Piece>::empty());
                next.push_piece(x, y, piece);
                assert(Seq::<Piece>::empty().push(piece) =~= seq![piece]);
                assert(next.cells() == self.cells().update(i as int, seq![piece]));
                assert(next.conserves(Color::White));
                assert(next.conserves(Color::Black));
                match piece {
                    Piece::StandingStone(_) => {
                        proof {
                            lemma_partitions_same_cells(mid.analysis.p1_road_groups@, mid.analysis.p1_road_pieces, next.analysis.p1_road_pieces, n as int);
                            lemma_partitions_same_cells(mid.analysis.p2_road_groups@, mid.analysis.p2_road_pieces, next.analysis.p2_road_pieces, n as int);
                        }
                    },
                    _ => next.analysis.calculate_road_groups(),
                }
            },
            Ply::Slide { x, y, direction, drops } => {
                match next.slide(*x, *y, *direction, drops) {
                    Ok(()) => {},
                    Err(e) => {
                        return Err(e);
                    },
                }
                next.analysis.calculate_road_groups();
                assert(count_color(Seq::<Piece>::empty(), Color::White) == 0);
                assert(count_color(Seq::<Piece>::empty(), Color::Black) == 0);
                assert(next.conserves(Color::White));
                assert(next.conserves(Color::Black));
            },
        }
        assert(next.consistent());
        Ok(next)
    }
}

impl State {
    /// Color `c` has a road: a connected run of its flatstones and capstones
    /// on top of their stacks joins two opposite edges.
    pub open spec fn has_road(&self, c: Color) -> bool {
        match c {
            Color::White => spans(self.analysis.p1_road_pieces, self.size()),
            Color::Black => spans(self.analysis.p2_road_pieces, self.size()),
        }
    }

    /// Every cell holds a stack.
    pub open spec fn board_full(&self) -> bool {
        forall|i: int| 0 <= i < self.size() * self.size() ==> #[trigger] self.cells()[i].len() > 0
    }

    /// A seat has neither flatstones nor capstones left to place.
    pub open spec fn seat_empty(&self, c: Color) -> bool {
        self.seat(c).flatstone_count + self.seat(c).capstone_count == 0
    }

    /// The number of stacks topped by a flatstone of `c`.
    pub open spec fn top_flats(&self, c: Color) -> int {
        count_flats(self.cells(), c, self.size() * self.size())
    }

    /// The outcome of the position.
    pub open spec fn outcome(&self) -> Win {
        let w = self.has_road(Color::White);
        let b = self.has_road(Color::Black);
        if w && b {
            if self.ply_count % 2 == 1 { Win::Road(Color::White) } else { Win::Road(Color::Black) }
        } else if w {
            Win::Road(Color::White)
        } else if b {
            Win::Road(Color::Black)
        } else if self.seat_empty(Color::White) || self.seat_empty(Color::Black) || self.board_full() {
            if self.top_flats(Color::White) > self.top_flats(Color::Black) {
                Win::Flat(Color::White)
            } else if self.top_flats(Color::Black) > self.top_flats(Color::White) {
                Win::Flat(Color::Black)
            } else {
                Win::Draw
            }
        } else {
            Win::Ongoing
        }
    }

    /// Whether every cell holds a stack.
    fn is_board_full(&self) -> (r: bool)
        requires
            self.wf(),
        ensures
            r == self.board_full(),
    {
        let n = self.analysis.board_size;
        let ghost ni = n as int;
        let mut y: usize = 0;
        while y < n
            invariant
                ni == self.size(),
                ni == n as int,
                self.wf(),
                y <= n,
                forall|i: int| 0 <= i < y * ni ==> #[trigger] self.cells()[i].len() > 0,
            decreases n - y,
        {
            let mut x: usize = 0;
            while x < n
                invariant
                    ni == self.size(),
                    ni == n as int,
                    self.wf(),
                    y < n,
                    x <= n,
                    forall|i: int| 0 <= i < y * ni + x ==> #[trigger] self.cells()[i].len() > 0,
                decreases n - x,
            {
                if self.height(x, y) == 0 {
                    proof {
                        lemma_cell_of(ni, x as int, y as int);
                    }
                    assert(self.cells()[y * ni + x].len() == 0);
                    return false;
                }
                proof {
                    lemma_cell_of(ni, x as int, y as int);
                }
                assert(self.cells()[y * ni + x].len() > 0);
                x = x + 1;
            }
            assert((y + 1) * ni == y * ni + ni) by (nonlinear_arith);
            y = y + 1;
        }
        true
    }

    /// Who, if anyone, has won.
    pub fn check_win(&self) -> (r: Win)
        requires
            self.wf(),
        ensures
            r == self.outcome(),
    {
        let n = self.analysis.board_size;
        let a = &self.analysis;
        proof {
            lemma_groups_span(a.p1_road_groups@, a.p1_road_pieces, n as int);
            lemma_groups_span(a.p2_road_groups@, a.p2_road_pieces, n as int);
        }
        let p1_has_road = any_group_spans(&a.p1_road_groups, n);
        let p2_has_road = any_group_spans(&a.p2_road_groups, n);
        if p1_has_road && p2_has_road {
            if self.ply_count % 2 == 1 {
                Win::Road(Color::White)
            } else {
                Win::Road(Color::Black)
            }
        } else if p1_has_road {
            Win::Road(Color::White)
        } else if p2_has_road {
            Win::Road(Color::Black)
        } else if self.p1.flatstone_count as u32 + self.p1.capstone_count as u32 == 0
            || self.p2.flatstone_count as u32 + self.p2.capstone_count as u32 == 0
            || self.is_board_full() {
            if a.p1_flatstone_count > a.p2_flatstone_count {
                Win::Flat(Color::White)
            } else if a.p2_flatstone_count > a.p1_flatstone_count {
                Win::Flat(Color::Black)
            } else {
                Win::Draw
            }
        } else {
            Win::Ongoing
        }
    }
}

} // verus!
