use vstd::prelude::*;

use crate::piece::{Color, Direction, Piece};

verus! {

/// A move: a new piece placed on an empty cell, or the top of a stack carried
/// in one direction and dropped `drops[k]` pieces on the `k`-th cell stepped to.
#[derive(Clone, Debug)]
pub enum Ply {
    Place { x: usize, y: usize, piece: Piece },
    Slide { x: usize, y: usize, direction: Direction, drops: Vec<usize> },
}

/// A move as a mathematical value.
pub ghost enum PlyView {
    Place { x: usize, y: usize, piece: Piece },
    Slide { x: usize, y: usize, direction: Direction, drops: Seq<usize> },
}

impl View for Ply {
    type V = PlyView;

    open spec fn view(&self) -> PlyView {
        match *self {
            Ply::Place { x, y, piece } => PlyView::Place { x, y, piece },
            Ply::Slide { x, y, direction, drops } => PlyView::Slide { x, y, direction, drops: drops@ },
        }
    }
}

pub open spec fn is_digit(c: char) -> bool {
    '0' <= c <= '9'
}

pub open spec fn digit_value(c: char) -> usize {
    (c as u32 - '0' as u32) as usize
}

/// The direction a symbol stands for.
pub open spec fn direction_of(c: char) -> Option<Direction> {
    if c == '+' {
        Some(Direction::North)
    } else if c == '>' {
        Some(Direction::East)
    } else if c == '-' {
        Some(Direction::South)
    } else if c == '<' {
        Some(Direction::West)
    } else {
        None
    }
}

pub open spec fn sum_digits(d: Seq<usize>) -> int
    decreases d.len(),
{
    if d.len() == 0 {
        0
    } else {
        sum_digits(d.drop_last()) + d.last()
    }
}

/// The move that notation `s` stands for, for the side `color`: an optional
/// piece letter (`S` standing stone, `C` capstone), an optional carry count
/// `1`-`9`, a column `a`-`z` and a row `1`-`9`, then for a slide a direction
/// symbol and optional drop digits.
pub open spec fn parse_spec(s: Seq<char>, color: Color) -> Option<PlyView> {
    let kind: Option<Piece> = if s.len() > 0 && s[0] == 'S' {
        Some(Piece::StandingStone(color))
    } else if s.len() > 0 && s[0] == 'C' {
        Some(Piece::Capstone(color))
    } else {
        None
    };
    let p0: int = if kind is Some { 1 } else { 0 };
    let grab: Option<usize> = if s.len() > p0 && '1' <= s[p0] <= '9' {
        Some(digit_value(s[p0]))
    } else {
        None
    };
    let p1: int = if grab is Some { p0 + 1 } else { p0 };
    if !(s.len() >= p1 + 2 && 'a' <= s[p1] <= 'z' && '1' <= s[p1 + 1] <= '9') {
        None
    } else {
        let x = (s[p1] as u32 - 'a' as u32) as usize;
        let y = (s[p1 + 1] as u32 - '1' as u32) as usize;
        let p2 = p1 + 2;
        if s.len() == p2 {
            if grab is Some {
                None
            } else {
                Some(PlyView::Place { x, y, piece: if kind is Some { kind->0 } else { Piece::Flatstone(color) } })
            }
        } else if direction_of(s[p2]) is None || kind is Some {
            None
        } else {
            slide_tail(s.subrange(p2 + 1, s.len() as int), grab, x, y, direction_of(s[p2])->0)
        }
    }
}

/// The slide whose drop digits are `rest`, once its carry count, cell and
/// direction are read.
pub open spec fn slide_tail(rest: Seq<char>, grab: Option<usize>, x: usize, y: usize, direction: Direction) -> Option<PlyView> {
    if !(forall|k: int| 0 <= k < rest.len() ==> is_digit(#[trigger] rest[k])) {
        None
    } else {
        let drops = rest.map_values(|c: char| digit_value(c));
        if drops.len() == 0 {
            Some(PlyView::Slide { x, y, direction, drops: seq![if grab is Some { grab->0 } else { 1 }] })
        } else if grab is None || grab->0 != sum_digits(drops) {
            None
        } else {
            Some(PlyView::Slide { x, y, direction, drops })
        }
    }
}

/// The characters of `s`.
pub(crate) fn chars_of(s: &str) -> (r: Vec<char>)
    ensures
        r@ == s@,
{
    let len = s.unicode_len();
    let mut r: Vec<char> = Vec::new();
    let mut k: usize = 0;
    while k < len
        invariant
            len == s@.len(),
            k <= len,
            r@ == s@.subrange(0, k as int),
        decreases len - k,
    {
        r.push(s.get_char(k));
        k = k + 1;
    }
    assert(r@ =~= s@);
    r
}

impl Ply {
    /// The move that notation `ptn` stands for, for the side `color`, or
    /// `None` where `ptn` is not valid notation.
    pub fn from_ptn(ptn: &str, color: Color) -> (r: Option<Ply>)
        ensures
            r is Some <==> parse_spec(ptn@, color) is Some,
            r is Some ==> r->0@ == parse_spec(ptn@, color)->0,
    {
        let s = chars_of(ptn);
        let len = s.len();
        let mut p: usize = 0;
        let mut kind: Option<Piece> = None;
        if len > 0 && s[0] == 'S' {
            kind = Some(Piece::StandingStone(color));
            p = 1;
        } else if len > 0 && s[0] == 'C' {
            kind = Some(Piece::Capstone(color));
            p = 1;
        }
        let mut grab: Option<usize> = None;
        if len > p && '1' <= s[p] && s[p] <= '9' {
            grab = Some((s[p] as u32 - '0' as u32) as usize);
            p = p + 1;
        }
        if !(len >= p + 2 && 'a' <= s[p] && s[p] <= 'z' && '1' <= s[p + 1] && s[p + 1] <= '9') {
            return None;
        }
        let x = (s[p] as u32 - 'a' as u32) as usize;
        let y = (s[p + 1] as u32 - '1' as u32) as usize;
        p = p + 2;
        if len == p {
            if grab.is_some() {
                return None;
            }
            let piece = match kind {
                Some(k) => k,
                None => Piece::Flatstone(color),
            };
            return Some(Ply::Place { x, y, piece });
        }
        let direction = match s[p] {
            '+' => Direction::North,
            '>' => Direction::East,
            '-' => Direction::South,
            '<' => Direction::West,
            _ => {
                return None;
            },
        };
        if kind.is_some() {
            return None;
        }
        let ghost rest = s@.subrange(p + 1, len as int);
        let ghost target = parse_spec(ptn@, color);
        assert(target == slide_tail(rest, grab, x, y, direction));
        let mut drops: Vec<usize> = Vec::new();
        let mut total: usize = 0;
        let mut k: usize = p + 1;
        while k < len
            invariant
                p + 1 <= k <= len,
                len == s@.len(),
                rest == s@.subrange(p + 1, len as int),
                target == parse_spec(ptn@, color),
                target == slide_tail(rest, grab, x, y, direction),
                forall|j: int| 0 <= j < k - (p + 1) ==> is_digit(#[trigger] rest[j]),
                drops@ == rest.subrange(0, k - (p + 1)).map_values(|c: char| digit_value(c)),
                total == if sum_digits(drops@) > 9 { 10 } else { sum_digits(drops@) },
                drops@.len() == k - (p + 1),
            decreases len - k,
        {
            let c = s[k];
            if !('0' <= c && c <= '9') {
                assert(!is_digit(rest[k - (p + 1)]));
                return None;
            }
            let d = (c as u32 - '0' as u32) as usize;
            let ghost before = drops@;
            drops.push(d);
            total = if total + d > 9 { 10 } else { total + d };
            assert(drops@.drop_last() == before);
            assert(rest.subrange(0, k + 1 - (p + 1)) =~= rest.subrange(0, k - (p + 1)).push(rest[k - (p + 1)]));
            assert(drops@ =~= rest.subrange(0, k + 1 - (p + 1)).map_values(|c: char| digit_value(c)));
            k = k + 1;
        }
        assert(rest.subrange(0, rest.len() as int) =~= rest);
        if drops.len() == 0 {
            let g = match grab {
                Some(g) => g,
                None => 1,
            };
            drops.push(g);
            assert(drops@ =~= seq![g]);
        } else {
            match grab {
                None => {
                    return None;
                },
                Some(g) => {
                    if g != total {
                        return None;
                    }
                },
            }
        }
        Some(Ply::Slide { x, y, direction, drops })
    }
}

pub open spec fn col_char(x: usize) -> char {
    ('a' as u32 + x) as u32 as char
}

pub open spec fn row_char(y: usize) -> char {
    ('1' as u32 + y) as u32 as char
}

pub open spec fn digit_char(d: usize) -> char {
    ('0' as u32 + d) as u32 as char
}

pub open spec fn direction_char(d: Direction) -> char {
    match d {
        Direction::North => '+',
        Direction::East => '>',
        Direction::South => '-',
        Direction::West => '<',
    }
}

/// The notation of a move: piece letter, column and row for a placement;
/// carry count, column, row, direction and drop digits for a slide.
pub open spec fn notation(p: PlyView) -> Seq<char> {
    match p {
        PlyView::Place { x, y, piece } => {
            let prefix: Seq<char> = match piece {
                Piece::Flatstone(_) => Seq::empty(),
                Piece::StandingStone(_) => seq!['S'],
                Piece::Capstone(_) => seq!['C'],
            };
            prefix + seq![col_char(x), row_char(y)]
        },
        PlyView::Slide { x, y, direction, drops } => seq![
            digit_char(sum_digits(drops) as usize),
            col_char(x),
            row_char(y),
            direction_char(direction),
        ] + drops.map_values(|d: usize| digit_char(d)),
    }
}

/// The moves that notation can spell for the side `color`: columns `a`-`z`,
/// rows `1`-`9`, a placed piece of that side, and slides of one to nine
/// pieces with at least one drop, each of at most nine.
pub open spec fn writable(p: PlyView, color: Color) -> bool {
    match p {
        PlyView::Place { x, y, piece } => x < 26 && y < 9 && piece.color() == color,
        PlyView::Slide { x, y, direction, drops } => {
            &&& x < 26
            &&& y < 9
            &&& drops.len() >= 1
            &&& forall|k: int| 0 <= k < drops.len() ==> #[trigger] drops[k] <= 9
            &&& 1 <= sum_digits(drops) <= 9
        },
    }
}

/// Every move that notation can spell is read back from its notation unchanged.
pub proof fn lemma_notation_round_trip(p: PlyView, color: Color)
    requires
        writable(p, color),
    ensures
        parse_spec(notation(p), color) == Some(p),
{
    let s = notation(p);
    match p {
        PlyView::Place { x, y, piece } => {
            match piece {
                Piece::Flatstone(_) => {
                    assert(s =~= seq![col_char(x), row_char(y)]);
                },
                Piece::StandingStone(_) => {
                    assert(s =~= seq!['S', col_char(x), row_char(y)]);
                },
                Piece::Capstone(_) => {
                    assert(s =~= seq!['C', col_char(x), row_char(y)]);
                },
            }
        },
        PlyView::Slide { x, y, direction, drops } => {
            let digits = drops.map_values(|d: usize| digit_char(d));
            assert(s.subrange(4, s.len() as int) =~= digits);
            assert(s[0] == digit_char(sum_digits(drops) as usize));
            assert(s[1] == col_char(x));
            assert(s[2] == row_char(y));
            assert(s[3] == direction_char(direction));
            assert forall|k: int| 0 <= k < digits.len() implies is_digit(#[trigger] digits[k]) by {
                assert(drops[k] <= 9);
            }
            assert(digits.map_values(|c: char| digit_value(c)) =~= drops);
        },
    }
}

} // verus!
