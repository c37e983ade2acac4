use vstd::prelude::*;

use crate::analysis::top_of;
use crate::piece::{Color, Direction, Piece};
use crate::roads::on;
use crate::state::{drop_onto, pick_up, pieces_on_board, slide_outcome, walk, start_capstones, start_flatstones, sum_drops, GameError, State, Win};

verus! {

/// In every well-formed state, which `State::new` makes and
/// `State::execute_ply` keeps, each side's reserve plus its pieces on the board
/// equals what the board size starts it with.
pub proof fn lemma_reserve_conservation(s: State, c: Color)
    requires
        s.wf(),
    ensures
        s.seat(c).flatstone_count + s.seat(c).capstone_count + pieces_on_board(s.cells(), c, s.size() * s.size())
            == start_flatstones(s.size()) + start_capstones(s.size()),
{
}

/// A slide from a cell on the board that carries more pieces than the board
/// size, or starts from an empty cell, is rejected as illegal.
pub proof fn lemma_slide_rejected(cells: Seq<Seq<Piece>>, n: int, x: int, y: int, dir: Direction, drops: Seq<usize>)
    requires
        0 <= x < n,
        0 <= y < n,
        sum_drops(drops) > n || cells[y * n + x].len() == 0,
    ensures
        slide_outcome(cells, n, x, y, dir, drops) == Err::<Seq<Seq<Piece>>, GameError>(GameError::IllegalSlide),
{
}

/// A lone capstone moved onto a standing stone flattens it: the slide succeeds,
/// the standing stone becomes a flatstone of its own color under the capstone.
pub proof fn lemma_capstone_flattens(cells: Seq<Seq<Piece>>, n: int, x: int, y: int, dir: Direction, c: Color)
    requires
        cells.len() == n * n,
        0 <= x < n,
        0 <= y < n,
        0 <= x + dir.dx() < n,
        0 <= y + dir.dy() < n,
        n >= 1,
        cells[y * n + x].len() > 0,
        cells[y * n + x].last() is Capstone,
        cells[(y + dir.dy()) * n + x + dir.dx()].len() > 0,
        cells[(y + dir.dy()) * n + x + dir.dx()].last() == Piece::StandingStone(c),
    ensures
        slide_outcome(cells, n, x, y, dir, seq![1usize]) is Ok,
        ({
            let t = cells[(y + dir.dy()) * n + x + dir.dx()];
            let b = slide_outcome(cells, n, x, y, dir, seq![1usize])->Ok_0;
            &&& b[(y + dir.dy()) * n + x + dir.dx()] == t.update(t.len() - 1, Piece::Flatstone(c)).push(cells[y * n + x].last())
            &&& b[(y + dir.dy()) * n + x + dir.dx()][t.len() - 1] == Piece::Flatstone(c)
        }),
{
    let i = y * n + x;
    let j = (y + dir.dy()) * n + x + dir.dx();
    lemma_cell_in_range(n, x, y);
    lemma_cell_in_range(n, x + dir.dx(), y + dir.dy());
    if i == j {
        crate::bitmap::lemma_cell_injective(n, x, y, x + dir.dx(), y + dir.dy());
    }
    lemma_one_drop(cells, n, x, y, dir, 1);
    let src = cells[i];
    let carried = seq![src.last()];
    let cells2 = cells.update(i, src.drop_last());
    assert(cells2[j] == cells[j]);
    let t = cells[j];
    let t1 = t.update(t.len() - 1, Piece::Flatstone(c));
    assert(drop_onto(t1, carried, 1) == drop_onto(t1.push(src.last()), carried.drop_last(), 0));
    assert(carried.drop_last() =~= Seq::<Piece>::empty());
    assert(seq![1usize].drop_first() =~= Seq::<usize>::empty());
    let b = cells2.update(j, t1.push(src.last()));
    assert(walk(cells2, n, x, y, dir, seq![1usize], carried) == walk(b, n, x + dir.dx(), y + dir.dy(), dir, Seq::empty(), Seq::empty()));
}

/// The source cell of a one-step slide of `k` pieces, and what it carries.
proof fn lemma_one_drop(cells: Seq<Seq<Piece>>, n: int, x: int, y: int, dir: Direction, k: usize)
    requires
        cells.len() == n * n,
        0 <= x < n,
        0 <= y < n,
        0 < k <= n,
        0 < k <= cells[y * n + x].len(),
    ensures
        sum_drops(seq![k]) == k,
        k == 1 ==> pick_up(cells[y * n + x], Seq::empty(), k as nat) == (cells[y * n + x].drop_last(), seq![cells[y * n + x].last()]),
        pick_up(cells[y * n + x], Seq::empty(), k as nat).1.len() == k,
        pick_up(cells[y * n + x], Seq::empty(), k as nat).1[0] == cells[y * n + x].last(),
        slide_outcome(cells, n, x, y, dir, seq![k]) == walk(cells.update(y * n + x, pick_up(cells[y * n + x], Seq::empty(), k as nat).0), n, x, y, dir, seq![k], pick_up(cells[y * n + x], Seq::empty(), k as nat).1),
{
    assert(seq![k].drop_first() =~= Seq::<usize>::empty());
    assert(sum_drops(Seq::<usize>::empty()) == 0);
    lemma_cell_in_range(n, x, y);
    let src = cells[y * n + x];
    assert(pick_up(src, Seq::empty(), k as nat) == pick_up(src.drop_last(), seq![src.last()], (k - 1) as nat)) by {
        assert(Seq::<Piece>::empty().push(src.last()) =~= seq![src.last()]);
    }
    lemma_pick_up_len(src.drop_last(), seq![src.last()], (k - 1) as nat);
}

proof fn lemma_pick_up_len(src: Seq<Piece>, carried: Seq<Piece>, k: nat)
    requires
        k <= src.len(),
        carried.len() > 0,
    ensures
        pick_up(src, carried, k).1.len() == carried.len() + k,
        pick_up(src, carried, k).1[0] == carried[0],
    decreases k,
{
    if k > 0 {
        lemma_pick_up_len(src.drop_last(), carried.push(src.last()), (k - 1) as nat);
    }
}

/// A one-cell slide onto a standing stone of anything but a lone capstone is
/// rejected as illegal.
pub proof fn lemma_standing_blocks(cells: Seq<Seq<Piece>>, n: int, x: int, y: int, dir: Direction, k: usize)
    requires
        cells.len() == n * n,
        0 <= x < n,
        0 <= y < n,
        0 <= x + dir.dx() < n,
        0 <= y + dir.dy() < n,
        0 < k <= n,
        k <= cells[y * n + x].len(),
        !(k == 1 && cells[y * n + x].last() is Capstone),
        cells[(y + dir.dy()) * n + x + dir.dx()].len() > 0,
        cells[(y + dir.dy()) * n + x + dir.dx()].last() is StandingStone,
    ensures
        slide_outcome(cells, n, x, y, dir, seq![k]) == Err::<Seq<Seq<Piece>>, GameError>(GameError::IllegalSlide),
{
    let i = y * n + x;
    let j = (y + dir.dy()) * n + x + dir.dx();
    lemma_cell_in_range(n, x, y);
    lemma_cell_in_range(n, x + dir.dx(), y + dir.dy());
    if i == j {
        crate::bitmap::lemma_cell_injective(n, x, y, x + dir.dx(), y + dir.dy());
    }
    lemma_one_drop(cells, n, x, y, dir, k);
    let cells2 = cells.update(i, pick_up(cells[i], Seq::empty(), k as nat).0);
    assert(cells2[j] == cells[j]);
}

/// When neither side has a road and one side's reserve is empty, the game is
/// decided by the count of flatstones on top of the stacks, a tie being a draw.
pub proof fn lemma_flat_count_decides(s: State, c: Color)
    requires
        s.wf(),
        !s.has_road(Color::White),
        !s.has_road(Color::Black),
        s.seat_empty(c),
    ensures
        s.top_flats(Color::White) > s.top_flats(Color::Black) ==> s.outcome() == Win::Flat(Color::White),
        s.top_flats(Color::Black) > s.top_flats(Color::White) ==> s.outcome() == Win::Flat(Color::Black),
        s.top_flats(Color::White) == s.top_flats(Color::Black) ==> s.outcome() == Win::Draw,
{
}

/// When both sides have a road, the side that made the last move wins: White
/// moves on odd plies, Black on even ones.
pub proof fn lemma_double_road(s: State)
    requires
        s.has_road(Color::White),
        s.has_road(Color::Black),
    ensures
        s.outcome() == if s.ply_count % 2 == 1 { Win::Road(Color::White) } else { Win::Road(Color::Black) },
{
}

proof fn lemma_cell_in_range(n: int, x: int, y: int)
    requires
        0 <= x < n,
        0 <= y < n,
    ensures
        0 <= y * n + x < n * n,
{
    assert(0 <= y * n + x < n * n) by (nonlinear_arith)
        requires
            0 <= x < n,
            0 <= y < n,
    ;
}

/// The cells a side's roads run through are the stacks it tops with a
/// flatstone or a capstone.
pub proof fn lemma_road_cells(s: State, x: int, y: int)
    requires
        s.wf(),
        0 <= x < s.size(),
        0 <= y < s.size(),
    ensures
        on(s.analysis.p1_road_pieces, s.size(), (x, y)) == (s.stack_at(x, y).len() > 0
            && s.stack_at(x, y).last().color() == Color::White && !(s.stack_at(x, y).last() is StandingStone)),
        on(s.analysis.p2_road_pieces, s.size(), (x, y)) == (s.stack_at(x, y).len() > 0
            && s.stack_at(x, y).last().color() == Color::Black && !(s.stack_at(x, y).last() is StandingStone)),
{
    lemma_cell_in_range(s.size(), x, y);
    assert(s.analysis.tracks(y * s.size() + x, top_of(s.cells()[y * s.size() + x])));
}

} // verus!
