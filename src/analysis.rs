use vstd::prelude::*;

use crate::bitmap::{clear_bit, has_bit, set_bit, Bitmap};
use crate::piece::{Color, Piece};
use crate::roads::{partitions, road_groups};

verus! {

/// The top piece of a stack, if any.
pub open spec fn top_of(s: Seq<Piece>) -> Option<Piece> {
    if s.len() == 0 {
        None
    } else {
        Some(s.last())
    }
}

/// 1 where `t` is a flatstone of color `c`, else 0.
pub open spec fn flat_of(t: Option<Piece>, c: Color) -> int {
    if t == Some(Piece::Flatstone(c)) {
        1
    } else {
        0
    }
}

/// The number of cells below `k` whose top piece is a flatstone of color `c`.
pub open spec fn count_flats(board: Seq<Seq<Piece>>, c: Color, k: int) -> int
    decreases k,
{
    if k <= 0 {
        0
    } else {
        count_flats(board, c, k - 1) + flat_of(top_of(board[k - 1]), c)
    }
}

/// Whether bit `i` of a color's two maps agrees with a top piece `t`.
pub open spec fn tracks_color(pieces: Bitmap, road: Bitmap, i: int, t: Option<Piece>, c: Color) -> bool {
    &&& has_bit(pieces, i) == (t is Some && t->0.color() == c)
    &&& has_bit(road, i) == (t is Some && t->0.color() == c && t->0.is_road_piece())
}

/// Incrementally maintained facts about the tops of the stacks of a board: for
/// each color the cells it tops, the cells it tops with a road piece, the
/// partition of those into connected road groups, and its count of top
/// flatstones.
#[derive(Clone, Debug)]
pub struct StateAnalysis {
    pub board_size: usize,
    pub p1_pieces: Bitmap,
    pub p2_pieces: Bitmap,
    pub p1_road_pieces: Bitmap,
    pub p2_road_pieces: Bitmap,
    pub p1_flatstone_count: u8,
    pub p2_flatstone_count: u8,
    pub p1_road_groups: Vec<Bitmap>,
    pub p2_road_groups: Vec<Bitmap>,
}

impl StateAnalysis {
    /// Whether cell `i` is described as having top piece `t`.
    pub open spec fn tracks(&self, i: int, t: Option<Piece>) -> bool {
        &&& tracks_color(self.p1_pieces, self.p1_road_pieces, i, t, Color::White)
        &&& tracks_color(self.p2_pieces, self.p2_road_pieces, i, t, Color::Black)
    }

    pub open spec fn flat_count(&self, c: Color) -> int {
        match c {
            Color::White => self.p1_flatstone_count as int,
            Color::Black => self.p2_flatstone_count as int,
        }
    }

    /// The analysis describes the tops of the `n * n` stacks of `board`.
    pub open spec fn describes(&self, board: Seq<Seq<Piece>>) -> bool {
        let n = self.board_size as int;
        &&& board.len() == n * n
        &&& forall|i: int| 0 <= i < n * n ==> #[trigger] self.tracks(i, top_of(board[i]))
        &&& self.p1_flatstone_count == count_flats(board, Color::White, n * n)
        &&& self.p2_flatstone_count == count_flats(board, Color::Black, n * n)
    }

    /// `self` is `old` with the top of cell `i` changed from `t1` to `t2`.
    pub open spec fn retopped(&self, old: &StateAnalysis, i: int, t1: Option<Piece>, t2: Option<Piece>) -> bool {
        &&& self.board_size == old.board_size
        &&& self.p1_road_groups == old.p1_road_groups
        &&& self.p2_road_groups == old.p2_road_groups
        &&& forall|j: int| j != i ==> #[trigger] has_bit(self.p1_pieces, j) == has_bit(old.p1_pieces, j)
        &&& forall|j: int| j != i ==> #[trigger] has_bit(self.p2_pieces, j) == has_bit(old.p2_pieces, j)
        &&& forall|j: int| j != i ==> #[trigger] has_bit(self.p1_road_pieces, j) == has_bit(old.p1_road_pieces, j)
        &&& forall|j: int| j != i ==> #[trigger] has_bit(self.p2_road_pieces, j) == has_bit(old.p2_road_pieces, j)
        &&& self.tracks(i, t2)
        &&& self.p1_flatstone_count == old.p1_flatstone_count - flat_of(t1, Color::White) + flat_of(t2, Color::White)
        &&& self.p2_flatstone_count == old.p2_flatstone_count - flat_of(t1, Color::Black) + flat_of(t2, Color::Black)
    }

    /// An analysis of an empty board of size `board_size`.
    pub fn new(board_size: usize) -> (r: StateAnalysis)
        ensures
            r.board_size == board_size,
            r.p1_pieces == 0 && r.p2_pieces == 0,
            r.p1_road_pieces == 0 && r.p2_road_pieces == 0,
            r.p1_flatstone_count == 0 && r.p2_flatstone_count == 0,
            r.p1_road_groups@.len() == 0 && r.p2_road_groups@.len() == 0,
    {
        StateAnalysis {
            board_size,
            p1_pieces: 0,
            p2_pieces: 0,
            p1_road_pieces: 0,
            p2_road_pieces: 0,
            p1_flatstone_count: 0,
            p2_flatstone_count: 0,
            p1_road_groups: Vec::new(),
            p2_road_groups: Vec::new(),
        }
    }

    /// Sets or clears the bits of cell `i` for color `c`, and moves its flat count.
    fn mark(&mut self, c: Color, i: usize, occupied: bool, road: bool, flat_delta: i8)
        requires
            i < 64,
            flat_delta == 1 ==> old(self).flat_count(c) < 255,
            flat_delta == -1 ==> old(self).flat_count(c) > 0,
            -1 <= flat_delta <= 1,
        ensures
            final(self).board_size == old(self).board_size,
            final(self).p1_road_groups == old(self).p1_road_groups,
            final(self).p2_road_groups == old(self).p2_road_groups,
            c == Color::White ==> {
                &&& final(self).p2_pieces == old(self).p2_pieces
                &&& final(self).p2_road_pieces == old(self).p2_road_pieces
                &&& final(self).p2_flatstone_count == old(self).p2_flatstone_count
                &&& forall|j: int| #[trigger] has_bit(final(self).p1_pieces, j) == if j == i { occupied } else { has_bit(old(self).p1_pieces, j) }
                &&& forall|j: int| #[trigger] has_bit(final(self).p1_road_pieces, j) == if j == i { road } else { has_bit(old(self).p1_road_pieces, j) }
                &&& final(self).p1_flatstone_count == old(self).p1_flatstone_count + flat_delta
            },
            c == Color::Black ==> {
                &&& final(self).p1_pieces == old(self).p1_pieces
                &&& final(self).p1_road_pieces == old(self).p1_road_pieces
                &&& final(self).p1_flatstone_count == old(self).p1_flatstone_count
                &&& forall|j: int| #[trigger] has_bit(final(self).p2_pieces, j) == if j == i { occupied } else { has_bit(old(self).p2_pieces, j) }
                &&& forall|j: int| #[trigger] has_bit(final(self).p2_road_pieces, j) == if j == i { road } else { has_bit(old(self).p2_road_pieces, j) }
                &&& final(self).p2_flatstone_count == old(self).p2_flatstone_count + flat_delta
            },
    {
        let (pieces, road_pieces, count) = match c {
            Color::White => (self.p1_pieces, self.p1_road_pieces, self.p1_flatstone_count),
            Color::Black => (self.p2_pieces, self.p2_road_pieces, self.p2_flatstone_count),
        };
        let pieces = if occupied { set_bit(pieces, i) } else { clear_bit(pieces, i) };
        let road_pieces = if road { set_bit(road_pieces, i) } else { clear_bit(road_pieces, i) };
        let count = if flat_delta == 1 {
            count + 1
        } else if flat_delta == -1 {
            count - 1
        } else {
            count
        };
        match c {
            Color::White => {
                self.p1_pieces = pieces;
                self.p1_road_pieces = road_pieces;
                self.p1_flatstone_count = count;
            },
            Color::Black => {
                self.p2_pieces = pieces;
                self.p2_road_pieces = road_pieces;
                self.p2_flatstone_count = count;
            },
        }
    }

    /// A copy of the analysis.
    pub fn duplicate(&self) -> (r: StateAnalysis)
        ensures
            r.board_size == self.board_size,
            r.p1_pieces == self.p1_pieces,
            r.p2_pieces == self.p2_pieces,
            r.p1_road_pieces == self.p1_road_pieces,
            r.p2_road_pieces == self.p2_road_pieces,
            r.p1_flatstone_count == self.p1_flatstone_count,
            r.p2_flatstone_count == self.p2_flatstone_count,
            r.p1_road_groups@ == self.p1_road_groups@,
            r.p2_road_groups@ == self.p2_road_groups@,
    {
        StateAnalysis {
            board_size: self.board_size,
            p1_pieces: self.p1_pieces,
            p2_pieces: self.p2_pieces,
            p1_road_pieces: self.p1_road_pieces,
            p2_road_pieces: self.p2_road_pieces,
            p1_flatstone_count: self.p1_flatstone_count,
            p2_flatstone_count: self.p2_flatstone_count,
            p1_road_groups: copy_bitmaps(&self.p1_road_groups),
            p2_road_groups: copy_bitmaps(&self.p2_road_groups),
        }
    }

    /// Recomputes each color's road groups from the cells it tops with a road piece.
    pub fn calculate_road_groups(&mut self)
        requires
            old(self).board_size <= 8,
        ensures
            final(self).board_size == old(self).board_size,
            final(self).p1_pieces == old(self).p1_pieces,
            final(self).p2_pieces == old(self).p2_pieces,
            final(self).p1_road_pieces == old(self).p1_road_pieces,
            final(self).p2_road_pieces == old(self).p2_road_pieces,
            final(self).p1_flatstone_count == old(self).p1_flatstone_count,
            final(self).p2_flatstone_count == old(self).p2_flatstone_count,
            partitions(final(self).p1_road_groups@, final(self).p1_road_pieces, final(self).board_size as int),
            partitions(final(self).p2_road_groups@, final(self).p2_road_pieces, final(self).board_size as int),
            forall|b: Seq<Seq<Piece>>| old(self).describes(b) ==> #[trigger] final(self).describes(b),
    {
        self.p1_road_groups = road_groups(self.p1_road_pieces, self.board_size);
        self.p2_road_groups = road_groups(self.p2_road_pieces, self.board_size);
        assert forall|b: Seq<Seq<Piece>>| old(self).describes(b) implies #[trigger] self.describes(b) by {
            assert forall|i: int| 0 <= i < self.board_size * self.board_size implies #[trigger] self.tracks(i, top_of(b[i])) by {
                assert(old(self).tracks(i, top_of(b[i])));
            }
        }
    }

    /// Cell `(x, y)`, until now without a top, is topped by a flatstone of `color`.
    pub fn add_flatstone(&mut self, color: Color, x: usize, y: usize)
        requires
            x < old(self).board_size,
            y < old(self).board_size,
            old(self).board_size <= 8,
            old(self).tracks(y * old(self).board_size + x, None),
            old(self).flat_count(color) < 255,
        ensures
            final(self).retopped(old(self), y * old(self).board_size + x, None, Some(Piece::Flatstone(color))),
    {
        let i = cell(self.board_size, x, y);
        self.mark(color, i, true, true, 1);
    }

    /// Cell `(x, y)`, until now without a top, is topped by a flatstone of
    /// `color` that a piece above it no longer covers.
    pub fn reveal_flatstone(&mut self, color: Color, x: usize, y: usize)
        requires
            x < old(self).board_size,
            y < old(self).board_size,
            old(self).board_size <= 8,
            old(self).tracks(y * old(self).board_size + x, None),
            old(self).flat_count(color) < 255,
        ensures
            final(self).retopped(old(self), y * old(self).board_size + x, None, Some(Piece::Flatstone(color))),
    {
        self.add_flatstone(color, x, y);
    }

    /// Cell `(x, y)`, until now without a top, is topped by `piece`, a
    /// standing stone or a capstone.
    pub fn add_blocking_stone(&mut self, piece: Piece, x: usize, y: usize)
        requires
            x < old(self).board_size,
            y < old(self).board_size,
            old(self).board_size <= 8,
            old(self).tracks(y * old(self).board_size + x, None),
            !(piece is Flatstone),
        ensures
            final(self).retopped(old(self), y * old(self).board_size + x, None, Some(piece)),
    {
        let i = cell(self.board_size, x, y);
        match piece {
            Piece::Capstone(c) => self.mark(c, i, true, true, 0),
            Piece::StandingStone(c) => self.mark(c, i, true, false, 0),
            Piece::Flatstone(c) => {},
        }
    }

    /// The flatstone of `color` on top of cell `(x, y)` is taken away.
    pub fn remove_flatstone(&mut self, color: Color, x: usize, y: usize)
        requires
            x < old(self).board_size,
            y < old(self).board_size,
            old(self).board_size <= 8,
            old(self).tracks(y * old(self).board_size + x, Some(Piece::Flatstone(color))),
            old(self).flat_count(color) > 0,
        ensures
            final(self).retopped(old(self), y * old(self).board_size + x, Some(Piece::Flatstone(color)), None),
    {
        let i = cell(self.board_size, x, y);
        self.mark(color, i, false, false, -1);
    }

    /// The flatstone of `color` on top of cell `(x, y)` is covered by a piece
    /// about to be dropped on it.
    pub fn cover_flatstone(&mut self, color: Color, x: usize, y: usize)
        requires
            x < old(self).board_size,
            y < old(self).board_size,
            old(self).board_size <= 8,
            old(self).tracks(y * old(self).board_size + x, Some(Piece::Flatstone(color))),
            old(self).flat_count(color) > 0,
        ensures
            final(self).retopped(old(self), y * old(self).board_size + x, Some(Piece::Flatstone(color)), None),
    {
        self.remove_flatstone(color, x, y);
    }

    /// The standing stone or capstone `piece` on top of cell `(x, y)` is taken away.
    pub fn remove_blocking_stone(&mut self, piece: Piece, x: usize, y: usize)
        requires
            x < old(self).board_size,
            y < old(self).board_size,
            old(self).board_size <= 8,
            old(self).tracks(y * old(self).board_size + x, Some(piece)),
            !(piece is Flatstone),
        ensures
            final(self).retopped(old(self), y * old(self).board_size + x, Some(piece), None),
    {
        let i = cell(self.board_size, x, y);
        self.mark(piece.get_color(), i, false, false, 0);
    }
}

/// The bit index of cell `(x, y)` on a board of size `n`.
pub fn cell(n: usize, x: usize, y: usize) -> (r: usize)
    requires
        x < n,
        y < n,
        n <= 8,
    ensures
        r == y * n + x,
        r < n * n,
        r < 64,
{
    proof {
        assert(y * n + x < n * n) by (nonlinear_arith)
            requires
                x < n,
                y < n,
        ;
        assert(n * n <= 64) by (nonlinear_arith)
            requires
                n <= 8,
        ;
    }
    y * n + x
}

/// A copy of a list of bitmaps.
pub fn copy_bitmaps(v: &Vec<Bitmap>) -> (r: Vec<Bitmap>)
    ensures
        r@ == v@,
{
    let mut r: Vec<Bitmap> = Vec::new();
    let mut k: usize = 0;
    while k < v.len()
        invariant
            k <= v@.len(),
            r@ == v@.subrange(0, k as int),
        decreases v.len() - k,
    {
        r.push(v[k]);
        k = k + 1;
    }
    assert(r@ =~= v@);
    r
}

} // verus!
