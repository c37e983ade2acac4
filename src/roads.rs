use vstd::prelude::*;

use crate::bitmap::{clear_bit, has_bit, lemma_empty_bitmap, set_bit, test_bit, Bitmap};

verus! {

/// A cell, as column and row.
pub type Cell = (int, int);

pub open spec fn in_board(n: int, c: Cell) -> bool {
    0 <= c.0 < n && 0 <= c.1 < n
}

/// Whether cell `c` of a board of size `n` is in `b`.
pub open spec fn on(b: Bitmap, n: int, c: Cell) -> bool {
    in_board(n, c) && has_bit(b, c.1 * n + c.0)
}

/// Cells that share an edge.
pub open spec fn adjacent(a: Cell, b: Cell) -> bool {
    (a.0 == b.0 && (a.1 - b.1 == 1 || b.1 - a.1 == 1)) || (a.1 == b.1 && (a.0 - b.0 == 1 || b.0
        - a.0 == 1))
}

/// A walk through cells of `road`, each step to an adjacent cell.
pub open spec fn is_path(road: Bitmap, n: int, p: Seq<Cell>) -> bool {
    &&& p.len() > 0
    &&& forall|k: int| 0 <= k < p.len() ==> on(road, n, #[trigger] p[k])
    &&& forall|k: int| 0 <= k < p.len() - 1 ==> adjacent(#[trigger] p[k], p[k + 1])
}

/// Cell `b` can be reached from cell `a` through adjacent cells of `road`.
pub open spec fn reaches(road: Bitmap, n: int, a: Cell, b: Cell) -> bool {
    exists|p: Seq<Cell>| #[trigger] is_path(road, n, p) && p[0] == a && p.last() == b
}

/// Some cell of `road` reaches both a northern and a southern edge cell, or
/// both a western and an eastern edge cell: a road spans the board.
pub open spec fn spans(road: Bitmap, n: int) -> bool {
    exists|s: Cell, a: Cell, b: Cell|
        #[trigger] reaches(road, n, s, a) && #[trigger] reaches(road, n, s, b) && ((a.1 == n - 1
            && b.1 == 0) || (a.0 == 0 && b.0 == n - 1))
}

/// A group touches the northern and southern edges, or the western and eastern ones.
pub open spec fn group_spans(g: Bitmap, n: int) -> bool {
    ((exists|x: int| #[trigger] on(g, n, (x, n - 1))) && (exists|x: int| #[trigger] on(g, n, (x, 0))))
        || ((exists|y: int| #[trigger] on(g, n, (0, y))) && (exists|y: int| #[trigger] on(g, n, (n - 1, y))))
}

/// Every cell of `g` that has a neighbour in `road` has that neighbour in `g` too.
pub open spec fn closed(g: Bitmap, road: Bitmap, n: int) -> bool {
    forall|a: Cell, b: Cell|
        #[trigger] on(g, n, a) && adjacent(a, b) && #[trigger] on(road, n, b) ==> on(g, n, b)
}

/// `g` is a connected set of cells of `road`, all reached from `s`.
pub open spec fn connected_from(g: Bitmap, road: Bitmap, n: int, s: Cell) -> bool {
    &&& on(g, n, s)
    &&& forall|c: Cell| #[trigger] on(g, n, c) ==> on(road, n, c) && reaches(road, n, s, c)
}

/// `g` is a connected set of cells of `road`.
pub open spec fn connected(g: Bitmap, road: Bitmap, n: int) -> bool {
    exists|s: Cell| #[trigger] connected_from(g, road, n, s)
}

/// `groups` are the connected components of the cells of `road`.
pub open spec fn partitions(groups: Seq<Bitmap>, road: Bitmap, n: int) -> bool {
    &&& forall|k: int|
        0 <= k < groups.len() ==> closed(#[trigger] groups[k], road, n) && connected(groups[k], road, n)
    &&& forall|k1: int, k2: int, c: Cell|
        0 <= k1 < groups.len() && 0 <= k2 < groups.len() && k1 != k2 && #[trigger] on(groups[k1], n, c)
            ==> !#[trigger] on(groups[k2], n, c)
    &&& forall|c: Cell| #[trigger] on(road, n, c) ==> exists|k: int| 0 <= k < groups.len() && #[trigger] on(groups[k], n, c)
}

/// The number of bits below `k` set in `avail` and not in `g`.
pub open spec fn pending(avail: Bitmap, g: Bitmap, k: int) -> nat
    decreases k,
{
    if k <= 0 {
        0
    } else {
        pending(avail, g, k - 1) + if has_bit(avail, k - 1) && !has_bit(g, k - 1) {
            1nat
        } else {
            0nat
        }
    }
}

proof fn lemma_pending_add(avail: Bitmap, g: Bitmap, g2: Bitmap, j: int, k: int)
    requires
        forall|i: int| has_bit(g2, i) <==> (i == j || has_bit(g, i)),
        has_bit(avail, j),
        !has_bit(g, j),
        0 <= j,
    ensures
        j < k ==> pending(avail, g2, k) + 1 == pending(avail, g, k),
        j >= k ==> pending(avail, g2, k) == pending(avail, g, k),
    decreases k,
{
    if k > 0 {
        lemma_pending_add(avail, g, g2, j, k - 1);
    }
}

proof fn lemma_reach_step(road: Bitmap, n: int, s: Cell, a: Cell, b: Cell)
    requires
        reaches(road, n, s, a),
        adjacent(a, b),
        on(road, n, b),
    ensures
        reaches(road, n, s, b),
{
    let p = choose|p: Seq<Cell>| #[trigger] is_path(road, n, p) && p[0] == s && p.last() == a;
    let q = p.push(b);
    assert forall|k: int| 0 <= k < q.len() - 1 implies adjacent(#[trigger] q[k], q[k + 1]) by {
        if k < p.len() - 1 {
            assert(q[k] == p[k] && q[k + 1] == p[k + 1]);
        }
    }
    assert forall|k: int| 0 <= k < q.len() implies on(road, n, #[trigger] q[k]) by {
        if k < p.len() {
            assert(q[k] == p[k]);
        }
    }
    assert(is_path(road, n, q));
}

proof fn lemma_reach_one(road: Bitmap, n: int, s: Cell)
    requires
        on(road, n, s),
    ensures
        reaches(road, n, s, s),
{
    let p = seq![s];
    assert(is_path(road, n, p));
}

proof fn lemma_reach_widen(small: Bitmap, road: Bitmap, n: int, s: Cell, c: Cell)
    requires
        reaches(small, n, s, c),
        forall|d: Cell| on(small, n, d) ==> on(road, n, d),
    ensures
        reaches(road, n, s, c),
{
    let p = choose|p: Seq<Cell>| #[trigger] is_path(small, n, p) && p[0] == s && p.last() == c;
    assert forall|k: int| 0 <= k < p.len() implies on(road, n, #[trigger] p[k]) by {
        assert(on(small, n, p[k]));
    }
    assert(is_path(road, n, p));
}

pub open spec fn cell_of(p: (usize, usize)) -> Cell {
    (p.0 as int, p.1 as int)
}

pub open spec fn in_stack(st: Seq<(usize, usize)>, a: Cell) -> bool {
    exists|k: int| 0 <= k < st.len() && #[trigger] cell_of(st[k]) == a
}

/// Every neighbour of `a` in `avail` is in `g`.
pub open spec fn done(g: Bitmap, avail: Bitmap, n: int, a: Cell) -> bool {
    forall|b: Cell| adjacent(a, b) && #[trigger] on(avail, n, b) ==> on(g, n, b)
}

/// What the flood fill keeps true between two steps.
pub open spec fn flood_inv(g: Bitmap, st: Seq<(usize, usize)>, avail: Bitmap, n: int, s: Cell) -> bool {
    &&& flood_base(g, st, avail, n, s)
    &&& forall|a: Cell| #[trigger] on(g, n, a) ==> in_stack(st, a) || done(g, avail, n, a)
}

/// The flood fill's facts other than its closure.
pub open spec fn flood_base(g: Bitmap, st: Seq<(usize, usize)>, avail: Bitmap, n: int, s: Cell) -> bool {
    &&& on(g, n, s)
    &&& forall|i: int| has_bit(g, i) ==> has_bit(avail, i)
    &&& forall|c: Cell| #[trigger] on(g, n, c) ==> reaches(avail, n, s, c)
    &&& forall|k: int| 0 <= k < st.len() ==> in_board(n, #[trigger] cell_of(st[k])) && on(g, n, cell_of(st[k]))
}

/// `(g, st)` extends `(g0, st0)`: cells are only added, each reached from
/// `s` and put on the stack, and the flood fill makes progress or stays put.
pub open spec fn grown(g0: Bitmap, st0: Seq<(usize, usize)>, g: Bitmap, st: Seq<(usize, usize)>, avail: Bitmap, n: int, s: Cell) -> bool {
    &&& forall|c: Cell| #[trigger] on(g0, n, c) ==> on(g, n, c)
    &&& forall|c: Cell| #[trigger] on(g, n, c) && !on(g0, n, c) ==> reaches(avail, n, s, c) && in_stack(st, c)
    &&& forall|i: int| #[trigger] has_bit(g, i) ==> has_bit(g0, i) || has_bit(avail, i)
    &&& st.len() >= st0.len()
    &&& forall|k: int| 0 <= k < st0.len() ==> #[trigger] st[k] == st0[k]
    &&& forall|k: int| st0.len() <= k < st.len() ==> in_board(n, #[trigger] cell_of(st[k])) && on(g, n, cell_of(st[k]))
    &&& pending(avail, g, 64) < pending(avail, g0, 64) || (g == g0 && st == st0)
}

/// Adds cell `(x, y)` to the group and to the work stack if it is available and new.
fn visit(avail: Bitmap, n: usize, g: &mut Bitmap, stack: &mut Vec<(usize, usize)>, x: usize, y: usize, Ghost(s): Ghost<Cell>, Ghost(from): Ghost<Cell>)
    requires
        x < n,
        y < n,
        n <= 8,
        adjacent(from, (x as int, y as int)),
        reaches(avail, n as int, s, from),
    ensures
        on(*final(g), n as int, (x as int, y as int)) || !on(avail, n as int, (x as int, y as int)),
        grown(*old(g), old(stack)@, *final(g), final(stack)@, avail, n as int, s),
{
    let i = crate::analysis::cell(n, x, y);
    if test_bit(avail, i) && !test_bit(*g, i) {
        proof {
            lemma_reach_step(avail, n as int, s, from, (x as int, y as int));
        }
        let ghost g0 = *g;
        let ghost st0 = stack@;
        let ng = set_bit(*g, i);
        proof {
            lemma_pending_add(avail, g0, ng, i as int, 64);
        }
        *g = ng;
        stack.push((x, y));
        assert(cell_of(stack@[st0.len() as int]) == (x as int, y as int));
        assert forall|c: Cell| #[trigger] on(ng, n as int, c) && !on(g0, n as int, c) implies c == (x as int, y as int) by {
            crate::bitmap::lemma_cell_injective(n as int, c.0, c.1, x as int, y as int);
        }
        assert forall|k: int| st0.len() <= k < stack@.len() implies in_board(n as int, #[trigger] cell_of(stack@[k])) && on(ng, n as int, cell_of(stack@[k])) by {
            assert(k == st0.len());
        }
    }
}

/// Adds to the group the neighbours in `avail` of cell `(cx, cy)`.
fn expand(avail: Bitmap, n: usize, g: &mut Bitmap, stack: &mut Vec<(usize, usize)>, cx: usize, cy: usize, Ghost(s): Ghost<Cell>)
    requires
        cx < n,
        cy < n,
        n <= 8,
        flood_base(*old(g), old(stack)@, avail, n as int, s),
        on(*old(g), n as int, (cx as int, cy as int)),
        forall|a: Cell| #[trigger] on(*old(g), n as int, a) && a != (cx as int, cy as int) ==> in_stack(old(stack)@, a) || done(*old(g), avail, n as int, a),
    ensures
        flood_inv(*final(g), final(stack)@, avail, n as int, s),
        pending(avail, *final(g), 64) < pending(avail, *old(g), 64) || (*final(g) == *old(g) && final(stack)@ == old(stack)@),
{
    let ghost from: Cell = (cx as int, cy as int);
    let ghost ni = n as int;
    let ghost g0 = *g;
    let ghost st0 = stack@;
    if cx + 1 < n {
        visit(avail, n, g, stack, cx + 1, cy, Ghost(s), Ghost(from));
    }
    let ghost g1 = *g;
    let ghost st1 = stack@;
    if cx > 0 {
        visit(avail, n, g, stack, cx - 1, cy, Ghost(s), Ghost(from));
    }
    let ghost g2 = *g;
    let ghost st2 = stack@;
    assert(grown(g0, st0, g2, st2, avail, ni, s)) by {
        assert forall|c: Cell| #[trigger] on(g2, ni, c) && !on(g0, ni, c) implies reaches(avail, ni, s, c) && in_stack(st2, c) by {
            if on(g1, ni, c) {
                let k = choose|k: int| 0 <= k < st1.len() && #[trigger] cell_of(st1[k]) == c;
                assert(cell_of(st2[k]) == c);
            }
        }
    }
    if cy + 1 < n {
        visit(avail, n, g, stack, cx, cy + 1, Ghost(s), Ghost(from));
    }
    let ghost g3 = *g;
    let ghost st3 = stack@;
    if cy > 0 {
        visit(avail, n, g, stack, cx, cy - 1, Ghost(s), Ghost(from));
    }
    let ghost g4 = *g;
    let ghost st4 = stack@;
    assert(grown(g2, st2, g4, st4, avail, ni, s)) by {
        assert forall|c: Cell| #[trigger] on(g4, ni, c) && !on(g2, ni, c) implies reaches(avail, ni, s, c) && in_stack(st4, c) by {
            if on(g3, ni, c) {
                let k = choose|k: int| 0 <= k < st3.len() && #[trigger] cell_of(st3[k]) == c;
                assert(cell_of(st4[k]) == c);
            }
        }
    }
    assert(grown(g0, st0, g4, st4, avail, ni, s)) by {
        assert forall|c: Cell| #[trigger] on(g4, ni, c) && !on(g0, ni, c) implies reaches(avail, ni, s, c) && in_stack(st4, c) by {
            if on(g2, ni, c) {
                let k = choose|k: int| 0 <= k < st2.len() && #[trigger] cell_of(st2[k]) == c;
                assert(cell_of(st4[k]) == c);
            }
        }
    }
    assert(done(g4, avail, ni, from));
    assert forall|a: Cell| #[trigger] on(g4, ni, a) implies in_stack(st4, a) || done(g4, avail, ni, a) by {
        if on(g0, ni, a) && a != from {
            if in_stack(st0, a) {
                let k = choose|k: int| 0 <= k < st0.len() && #[trigger] cell_of(st0[k]) == a;
                assert(cell_of(st4[k]) == a);
            }
        }
    }
}

/// The connected group of cells of `avail` that holds `(sx, sy)`.
fn flood(avail: Bitmap, n: usize, sx: usize, sy: usize) -> (g: Bitmap)
    requires
        sx < n,
        sy < n,
        n <= 8,
        on(avail, n as int, (sx as int, sy as int)),
    ensures
        closed(g, avail, n as int),
        connected_from(g, avail, n as int, (sx as int, sy as int)),
        forall|i: int| has_bit(g, i) ==> has_bit(avail, i),
{
    let ghost s: Cell = (sx as int, sy as int);
    let ghost ni = n as int;
    proof {
        lemma_empty_bitmap();
        lemma_reach_one(avail, ni, s);
    }
    let mut g = set_bit(0, crate::analysis::cell(n, sx, sy));
    assert forall|c: Cell| #[trigger] on(g, ni, c) implies c == s by {
        crate::bitmap::lemma_cell_injective(ni, c.0, c.1, s.0, s.1);
    }
    let mut stack: Vec<(usize, usize)> = Vec::new();
    stack.push((sx, sy));
    assert(cell_of(stack@[0]) == s);
    while stack.len() > 0
        invariant
            n <= 8,
            ni == n as int,
            flood_inv(g, stack@, avail, ni, s),
        decreases pending(avail, g, 64), stack@.len(),
    {
        let ghost st0 = stack@;
        let (cx, cy) = stack.pop().unwrap();
        assert(cell_of(st0[st0.len() - 1]) == (cx as int, cy as int));
        assert forall|a: Cell| #[trigger] on(g, ni, a) && a != (cx as int, cy as int) implies in_stack(stack@, a) || done(g, avail, ni, a) by {
            if in_stack(st0, a) {
                let k = choose|k: int| 0 <= k < st0.len() && #[trigger] cell_of(st0[k]) == a;
                assert(cell_of(stack@[k]) == a);
            }
        }
        assert forall|k: int| 0 <= k < stack@.len() implies in_board(ni, #[trigger] cell_of(stack@[k])) && on(g, ni, cell_of(stack@[k])) by {
            assert(stack@[k] == st0[k]);
        }
        expand(avail, n, &mut g, &mut stack, cx, cy, Ghost(s));
    }
    proof {
        assert forall|a: Cell, b: Cell| #[trigger] on(g, ni, a) && adjacent(a, b) && #[trigger] on(avail, ni, b) implies on(g, ni, b) by {
            assert(!in_stack(stack@, a));
        }
    }
    g
}

/// Cells before `(x, y)` in row-major order.
pub open spec fn scanned(c: Cell, x: int, y: int) -> bool {
    c.1 < y || (c.1 == y && c.0 < x)
}

/// What the partition loop keeps true.
pub open spec fn partition_inv(groups: Seq<Bitmap>, remaining: Bitmap, road: Bitmap, n: int, x: int, y: int) -> bool {
    &&& forall|k: int|
        0 <= k < groups.len() ==> closed(#[trigger] groups[k], road, n) && connected(groups[k], road, n)
    &&& forall|k1: int, k2: int, c: Cell|
        0 <= k1 < groups.len() && 0 <= k2 < groups.len() && k1 != k2 && #[trigger] on(groups[k1], n, c)
            ==> !#[trigger] on(groups[k2], n, c)
    &&& forall|c: Cell| #[trigger] on(remaining, n, c) <==> (on(road, n, c) && forall|k: int| 0 <= k < groups.len() ==> !#[trigger] on(groups[k], n, c))
    &&& forall|c: Cell| #[trigger] on(road, n, c) && scanned(c, x, y) ==> exists|k: int| 0 <= k < groups.len() && #[trigger] on(groups[k], n, c)
}

/// Takes the group of `(x, y)` out of `remaining` and adds it to `groups`.
fn take_group(road: Bitmap, n: usize, groups: &mut Vec<Bitmap>, remaining: &mut Bitmap, x: usize, y: usize)
    requires
        x < n,
        y < n,
        n <= 8,
        partition_inv(old(groups)@, *old(remaining), road, n as int, x as int, y as int),
    ensures
        partition_inv(final(groups)@, *final(remaining), road, n as int, x as int + 1, y as int),
{
    let ghost ni = n as int;
    let ghost c0: Cell = (x as int, y as int);
    let ghost gs0 = groups@;
    let i = crate::analysis::cell(n, x, y);
    if test_bit(*remaining, i) {
        let g = flood(*remaining, n, x, y);
        let ghost rem = *remaining;
        assert forall|a: Cell, b: Cell| #[trigger] on(g, ni, a) && adjacent(a, b) && #[trigger] on(road, ni, b) implies on(g, ni, b) by {
            if !on(rem, ni, b) {
                let k = choose|k: int| 0 <= k < gs0.len() && #[trigger] on(gs0[k], ni, b);
                assert(closed(gs0[k], road, ni));
                assert(on(road, ni, a));
                assert(adjacent(b, a));
                assert(on(gs0[k], ni, a));
            }
        }
        assert forall|c: Cell| #[trigger] on(g, ni, c) implies on(road, ni, c) && reaches(road, ni, c0, c) by {
            lemma_reach_widen(rem, road, ni, c0, c);
        }
        assert(connected_from(g, road, ni, c0));
        *remaining = crate::bitmap::difference(*remaining, g);
        groups.push(g);
        let ghost gs = groups@;
        assert(gs[gs.len() - 1] == g);
        assert forall|k: int| 0 <= k < gs.len() implies closed(#[trigger] gs[k], road, ni) && connected(gs[k], road, ni) by {
            if k < gs0.len() {
                assert(gs[k] == gs0[k]);
            }
        }
        assert forall|k1: int, k2: int, c: Cell|
            0 <= k1 < gs.len() && 0 <= k2 < gs.len() && k1 != k2 && #[trigger] on(gs[k1], ni, c)
                implies !#[trigger] on(gs[k2], ni, c) by {
            if k1 < gs0.len() {
                assert(gs[k1] == gs0[k1]);
            }
            if k2 < gs0.len() {
                assert(gs[k2] == gs0[k2]);
            }
        }
        assert forall|c: Cell| #[trigger] on(*remaining, ni, c) <==> (on(road, ni, c) && forall|k: int| 0 <= k < gs.len() ==> !#[trigger] on(gs[k], ni, c)) by {
            if on(road, ni, c) && !on(*remaining, ni, c) && !on(g, ni, c) {
                assert(!on(rem, ni, c));
                assert(exists|k: int| 0 <= k < gs0.len() && #[trigger] on(gs0[k], ni, c));
                let k = choose|k: int| 0 <= k < gs0.len() && #[trigger] on(gs0[k], ni, c);
                assert(gs[k] == gs0[k]);
            }
            if on(*remaining, ni, c) {
                assert(on(rem, ni, c) && !on(g, ni, c));
                assert forall|k: int| 0 <= k < gs.len() implies !#[trigger] on(gs[k], ni, c) by {
                    if k < gs0.len() {
                        assert(gs[k] == gs0[k]);
                    } else {
                        assert(gs[k] == g);
                    }
                }
            }
        }
        assert forall|c: Cell| #[trigger] on(road, ni, c) && scanned(c, x as int + 1, y as int) implies exists|k: int| 0 <= k < gs.len() && #[trigger] on(gs[k], ni, c) by {
            if c == c0 {
                assert(on(gs[gs.len() - 1], ni, c));
            } else {
                let k = choose|k: int| 0 <= k < gs0.len() && #[trigger] on(gs0[k], ni, c);
                assert(gs[k] == gs0[k]);
            }
        }
    } else {
        assert forall|c: Cell| #[trigger] on(road, ni, c) && scanned(c, x as int + 1, y as int) implies exists|k: int| 0 <= k < gs0.len() && #[trigger] on(gs0[k], ni, c) by {
            if c == c0 {
                assert(!on(*remaining, ni, c));
            }
        }
    }
}

/// The connected components of the cells of `road` on a board of size `n`.
pub fn road_groups(road: Bitmap, n: usize) -> (groups: Vec<Bitmap>)
    requires
        n <= 8,
    ensures
        partitions(groups@, road, n as int),
{
    let ghost ni = n as int;
    let mut groups: Vec<Bitmap> = Vec::new();
    let mut remaining = road;
    let mut y: usize = 0;
    while y < n
        invariant
            n <= 8,
            ni == n as int,
            y <= n,
            partition_inv(groups@, remaining, road, ni, 0, y as int),
        decreases n - y,
    {
        let mut x: usize = 0;
        while x < n
            invariant
                n <= 8,
                ni == n as int,
                y < n,
                x <= n,
                partition_inv(groups@, remaining, road, ni, x as int, y as int),
            decreases n - x,
        {
            take_group(road, n, &mut groups, &mut remaining, x, y);
            x = x + 1;
        }
        assert forall|c: Cell| #[trigger] on(road, ni, c) && scanned(c, 0, y as int + 1) implies exists|k: int| 0 <= k < groups@.len() && #[trigger] on(groups@[k], ni, c) by {
            assert(scanned(c, n as int, y as int));
        }
        y = y + 1;
    }
    assert forall|c: Cell| #[trigger] on(road, ni, c) implies exists|k: int| 0 <= k < groups@.len() && #[trigger] on(groups@[k], ni, c) by {
        assert(scanned(c, 0, n as int));
    }
    groups
}

proof fn lemma_path_stays(g: Bitmap, road: Bitmap, n: int, p: Seq<Cell>, k: int)
    requires
        closed(g, road, n),
        is_path(road, n, p),
        on(g, n, p[0]),
        0 <= k < p.len(),
    ensures
        on(g, n, p[k]),
    decreases k,
{
    if k > 0 {
        lemma_path_stays(g, road, n, p, k - 1);
        assert(adjacent(p[k - 1], p[k]));
        assert(on(road, n, p[k]));
    }
}

/// Some group of `groups` spans the board.
pub open spec fn any_spans(groups: Seq<Bitmap>, n: int) -> bool {
    exists|k: int| 0 <= k < groups.len() && group_spans(#[trigger] groups[k], n)
}

/// When `groups` are the components of `road`, a group spans the board
/// exactly when a road does.
pub proof fn lemma_groups_span(groups: Seq<Bitmap>, road: Bitmap, n: int)
    requires
        partitions(groups, road, n),
    ensures
        any_spans(groups, n) == spans(road, n),
{
    if any_spans(groups, n) {
        let k = choose|k: int| 0 <= k < groups.len() && group_spans(#[trigger] groups[k], n);
        let g = groups[k];
        assert(connected(g, road, n));
        let s = choose|s: Cell| #[trigger] connected_from(g, road, n, s);
        if (exists|x: int| #[trigger] on(g, n, (x, n - 1))) && (exists|x: int| #[trigger] on(g, n, (x, 0))) {
            let xa = choose|x: int| #[trigger] on(g, n, (x, n - 1));
            let xb = choose|x: int| #[trigger] on(g, n, (x, 0));
            assert(reaches(road, n, s, (xa, n - 1)) && reaches(road, n, s, (xb, 0)));
        } else {
            let ya = choose|y: int| #[trigger] on(g, n, (0, y));
            let yb = choose|y: int| #[trigger] on(g, n, (n - 1, y));
            assert(reaches(road, n, s, (0, ya)) && reaches(road, n, s, (n - 1, yb)));
        }
    }
    if spans(road, n) {
        let (s, a, b) = choose|s: Cell, a: Cell, b: Cell|
            #[trigger] reaches(road, n, s, a) && #[trigger] reaches(road, n, s, b) && ((a.1 == n - 1
                && b.1 == 0) || (a.0 == 0 && b.0 == n - 1));
        let pa = choose|p: Seq<Cell>| #[trigger] is_path(road, n, p) && p[0] == s && p.last() == a;
        let pb = choose|p: Seq<Cell>| #[trigger] is_path(road, n, p) && p[0] == s && p.last() == b;
        assert(on(road, n, pa[0]));
        let k = choose|k: int| 0 <= k < groups.len() && #[trigger] on(groups[k], n, s);
        assert(closed(groups[k], road, n));
        lemma_path_stays(groups[k], road, n, pa, pa.len() - 1);
        lemma_path_stays(groups[k], road, n, pb, pb.len() - 1);
        assert(on(groups[k], n, a) && on(groups[k], n, b));
        if a.1 == n - 1 && b.1 == 0 {
            assert(on(groups[k], n, (a.0, n - 1)));
            assert(on(groups[k], n, (b.0, 0)));
        } else {
            assert(on(groups[k], n, (0, a.1)));
            assert(on(groups[k], n, (n - 1, b.1)));
        }
        assert(group_spans(groups[k], n));
    }
}

/// Whether group `g` touches two opposite edges of a board of size `n`.
pub fn spans_board(g: Bitmap, n: usize) -> (r: bool)
    requires
        1 <= n <= 8,
    ensures
        r == group_spans(g, n as int),
{
    let ghost ni = n as int;
    let mut north = false;
    let mut south = false;
    let mut west = false;
    let mut east = false;
    let mut k: usize = 0;
    while k < n
        invariant
            1 <= n <= 8,
            ni == n as int,
            k <= n,
            north == exists|x: int| 0 <= x < k && #[trigger] on(g, ni, (x, ni - 1)),
            south == exists|x: int| 0 <= x < k && #[trigger] on(g, ni, (x, 0)),
            west == exists|y: int| 0 <= y < k && #[trigger] on(g, ni, (0, y)),
            east == exists|y: int| 0 <= y < k && #[trigger] on(g, ni, (ni - 1, y)),
        decreases n - k,
    {
        let bn = test_bit(g, crate::analysis::cell(n, k, n - 1));
        let bs = test_bit(g, crate::analysis::cell(n, k, 0));
        let bw = test_bit(g, crate::analysis::cell(n, 0, k));
        let be = test_bit(g, crate::analysis::cell(n, n - 1, k));
        let ghost ki = k as int;
        assert(bn == on(g, ni, (ki, ni - 1)));
        assert(bs == on(g, ni, (ki, 0)));
        assert(bw == on(g, ni, (0, ki)));
        assert(be == on(g, ni, (ni - 1, ki)));
        north = north || bn;
        south = south || bs;
        west = west || bw;
        east = east || be;
        k = k + 1;
    }
    (north && south) || (west && east)
}

/// Whether some group of `groups` touches two opposite edges.
pub fn any_group_spans(groups: &Vec<Bitmap>, n: usize) -> (r: bool)
    requires
        1 <= n <= 8,
    ensures
        r == any_spans(groups@, n as int),
{
    let mut k: usize = 0;
    while k < groups.len()
        invariant
            1 <= n <= 8,
            k <= groups@.len(),
            forall|j: int| 0 <= j < k ==> !group_spans(#[trigger] groups@[j], n as int),
        decreases groups.len() - k,
    {
        if spans_board(groups[k], n) {
            return true;
        }
        k = k + 1;
    }
    false
}

/// Partitions depend on the cells of the road only.
pub proof fn lemma_partitions_same_cells(groups: Seq<Bitmap>, r1: Bitmap, r2: Bitmap, n: int)
    requires
        partitions(groups, r1, n),
        forall|i: int| #[trigger] has_bit(r1, i) == has_bit(r2, i),
    ensures
        partitions(groups, r2, n),
{
    assert forall|c: Cell| #[trigger] on(r1, n, c) == on(r2, n, c) by {}
    assert forall|k: int| 0 <= k < groups.len() implies closed(#[trigger] groups[k], r2, n) && connected(groups[k], r2, n) by {
        assert(closed(groups[k], r1, n) && connected(groups[k], r1, n));
        assert forall|a: Cell, b: Cell| #[trigger] on(groups[k], n, a) && adjacent(a, b) && #[trigger] on(r2, n, b) implies on(groups[k], n, b) by {
            assert(on(r1, n, b));
        }
        let s = choose|s: Cell| #[trigger] connected_from(groups[k], r1, n, s);
        assert forall|c: Cell| #[trigger] on(groups[k], n, c) implies on(r2, n, c) && reaches(r2, n, s, c) by {
            lemma_reach_widen(r1, r2, n, s, c);
        }
        assert(connected_from(groups[k], r2, n, s));
    }
    assert forall|c: Cell| #[trigger] on(r2, n, c) implies exists|k: int| 0 <= k < groups.len() && #[trigger] on(groups[k], n, c) by {
        assert(on(r1, n, c));
    }
}

} // verus!
