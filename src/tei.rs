use vstd::prelude::*;

use crate::piece::Color;

verus! {

/// A command of the engine-control protocol, as the front end hands it on.
#[derive(Debug)]
pub enum TeiCommand {
    Stop,
    Quit,
    Go(String),
    Position(String),
    NewGame(usize),
}

/// The characters that `char::is_whitespace` accepts: Unicode White_Space.
pub open spec fn is_space(c: char) -> bool {
    ('\u{9}' <= c <= '\u{d}') || c == ' ' || c == '\u{85}' || c == '\u{a0}' || c == '\u{1680}'
        || ('\u{2000}' <= c <= '\u{200a}') || c == '\u{2028}' || c == '\u{2029}' || c == '\u{202f}'
        || c == '\u{205f}' || c == '\u{3000}'
}

/// The whitespace-separated words of `s`.
pub open spec fn words(s: Seq<char>) -> Seq<Seq<char>>
    decreases s.len(),
{
    if s.len() == 0 {
        Seq::empty()
    } else {
        let w = words(s.drop_last());
        let c = s.last();
        if is_space(c) {
            w
        } else if s.len() >= 2 && !is_space(s[s.len() - 2]) {
            w.update(w.len() - 1, w.last().push(c))
        } else {
            w.push(seq![c])
        }
    }
}

/// The value of a run of decimal digits.
pub open spec fn digits_value(d: Seq<char>) -> int
    decreases d.len(),
{
    if d.len() == 0 {
        0
    } else {
        digits_value(d.drop_last()) * 10 + (d.last() as u32 - '0' as u32)
    }
}

pub open spec fn all_digits(d: Seq<char>) -> bool {
    forall|k: int| 0 <= k < d.len() ==> '0' <= #[trigger] d[k] <= '9'
}

/// The `u64` that `w` spells, as `str::parse` reads it: an optional `+` and at
/// least one decimal digit, the value in range.
pub open spec fn parse_u64(w: Seq<char>) -> Option<u64> {
    let d = if w.len() > 0 && w[0] == '+' { w.drop_first() } else { w };
    if d.len() > 0 && all_digits(d) && digits_value(d) <= u64::MAX {
        Some(digits_value(d) as u64)
    } else {
        None
    }
}

/// The time each side has left and gains per move, in milliseconds.
#[derive(Clone, Copy, Debug, PartialEq, Eq, Structural)]
pub struct TimeLeft {
    pub wtime: u64,
    pub btime: u64,
    pub winc: u64,
    pub binc: u64,
}

/// `t` after reading the field name `field` followed by `val`.
pub open spec fn read_pair(t: TimeLeft, field: Seq<char>, val: Seq<char>) -> TimeLeft {
    match parse_u64(val) {
        None => t,
        Some(v) => if field == seq!['w', 't', 'i', 'm', 'e'] {
            TimeLeft { wtime: v, ..t }
        } else if field == seq!['b', 't', 'i', 'm', 'e'] {
            TimeLeft { btime: v, ..t }
        } else if field == seq!['w', 'i', 'n', 'c'] {
            TimeLeft { winc: v, ..t }
        } else if field == seq!['b', 'i', 'n', 'c'] {
            TimeLeft { binc: v, ..t }
        } else {
            t
        },
    }
}

/// The times after reading each pair of neighbouring words `ws[i]`, `ws[i + 1]`
/// for `i < k`, starting from one second each and no increment.
pub open spec fn read_pairs(ws: Seq<Seq<char>>, k: int) -> TimeLeft
    decreases k,
{
    if k <= 0 {
        TimeLeft { wtime: 1000, btime: 1000, winc: 0, binc: 0 }
    } else {
        read_pair(read_pairs(ws, k - 1), ws[k - 1], ws[k])
    }
}

/// The words of `s`.
fn split_words(s: &Vec<char>) -> (r: Vec<Vec<char>>)
    ensures
        r@.len() == words(s@).len(),
        forall|k: int| 0 <= k < r@.len() ==> #[trigger] r@[k]@ == words(s@)[k],
{
    let mut r: Vec<Vec<char>> = Vec::new();
    let mut cur: Vec<char> = Vec::new();
    let mut k: usize = 0;
    while k < s.len()
        invariant
            k <= s@.len(),
            r@.len() + (if cur@.len() > 0 { 1int } else { 0 }) == words(s@.subrange(0, k as int)).len(),
            forall|j: int| 0 <= j < r@.len() ==> #[trigger] r@[j]@ == words(s@.subrange(0, k as int))[j],
            cur@.len() > 0 ==> cur@ == words(s@.subrange(0, k as int)).last(),
            cur@.len() > 0 <==> (k > 0 && !is_space(s@[k - 1])),
        decreases s.len() - k,
    {
        let c = s[k];
        let ghost pre = s@.subrange(0, k as int);
        assert(s@.subrange(0, k + 1).drop_last() =~= pre);
        if char_is_space(c) {
            if cur.len() > 0 {
                r.push(cur);
                cur = Vec::new();
            }
        } else {
            cur.push(c);
        }
        k = k + 1;
    }
    if cur.len() > 0 {
        r.push(cur);
    }
    assert(s@.subrange(0, s@.len() as int) =~= s@);
    r
}

/// Whether `c` is whitespace.
fn char_is_space(c: char) -> (r: bool)
    ensures
        r == is_space(c),
{
    ('\u{9}' <= c && c <= '\u{d}') || c == ' ' || c == '\u{85}' || c == '\u{a0}' || c == '\u{1680}'
        || ('\u{2000}' <= c && c <= '\u{200a}') || c == '\u{2028}' || c == '\u{2029}' || c == '\u{202f}'
        || c == '\u{205f}' || c == '\u{3000}'
}

proof fn lemma_digits_grow(d: Seq<char>, k: int)
    requires
        all_digits(d),
        0 <= k <= d.len(),
    ensures
        digits_value(d.subrange(0, k)) <= digits_value(d),
    decreases d.len() - k,
{
    if k < d.len() {
        lemma_digits_grow(d, k + 1);
        assert(d.subrange(0, k + 1).drop_last() =~= d.subrange(0, k));
        lemma_digits_nonneg(d.subrange(0, k));
    } else {
        assert(d.subrange(0, k) =~= d);
    }
}

proof fn lemma_digits_nonneg(d: Seq<char>)
    requires
        all_digits(d),
    ensures
        digits_value(d) >= 0,
    decreases d.len(),
{
    if d.len() > 0 {
        lemma_digits_nonneg(d.drop_last());
    }
}

/// The `u64` that `w` spells, if any.
fn parse_word(w: &Vec<char>) -> (r: Option<u64>)
    ensures
        r == parse_u64(w@),
{
    let start: usize = if w.len() > 0 && w[0] == '+' { 1 } else { 0 };
    let ghost d = if w@.len() > 0 && w@[0] == '+' { w@.drop_first() } else { w@ };
    assert(d =~= w@.subrange(start as int, w@.len() as int));
    if start >= w.len() {
        return None;
    }
    let mut v: u64 = 0;
    let mut k: usize = start;
    while k < w.len()
        invariant
            start <= k <= w@.len(),
            d == w@.subrange(start as int, w@.len() as int),
            d == (if w@.len() > 0 && w@[0] == '+' { w@.drop_first() } else { w@ }),
            d.len() > 0,
            all_digits(d.subrange(0, k - start)),
            v == digits_value(d.subrange(0, k - start)),
        decreases w.len() - k,
    {
        let c = w[k];
        let ghost j = k - start;
        assert(d[j] == c);
        if !('0' <= c && c <= '9') {
            assert(!('0' <= d[j] <= '9'));
            assert(!all_digits(d));
            return None;
        }
        let digit = (c as u32 - '0' as u32) as u64;
        assert(d.subrange(0, j + 1).drop_last() =~= d.subrange(0, j));
        assert(all_digits(d.subrange(0, j + 1)));
        if v > (u64::MAX - digit) / 10 {
            proof {
                let m = u64::MAX as int;
                let q = (m - digit) / 10;
                assert(v * 10 + digit > m) by (nonlinear_arith)
                    requires
                        v > q,
                        q == (m - digit) / 10,
                        0 <= digit <= 9,
                        m > 9,
                ;
                assert(digits_value(d.subrange(0, j + 1)) == v * 10 + digit);
                if all_digits(d) {
                    lemma_digits_grow(d, j + 1);
                }
            }
            return None;
        }
        v = v * 10 + digit;
        k = k + 1;
    }
    assert(d.subrange(0, d.len() as int) =~= d);
    Some(v)
}

/// Whether `w` is the word spelled by `lit`.
fn word_is(w: &Vec<char>, lit: &Vec<char>) -> (r: bool)
    ensures
        r == (w@ == lit@),
{
    if w.len() != lit.len() {
        return false;
    }
    let mut k: usize = 0;
    while k < w.len()
        invariant
            k <= w@.len(),
            w@.len() == lit@.len(),
            forall|j: int| 0 <= j < k ==> w@[j] == lit@[j],
        decreases w.len() - k,
    {
        if w[k] != lit[k] {
            return false;
        }
        k = k + 1;
    }
    assert(w@ =~= lit@);
    true
}

impl TimeLeft {
    /// The times named in a `go` line: each field name (`wtime`, `btime`,
    /// `winc`, `binc`) followed by a number sets that field; everything else is
    /// passed over. Unset fields are one second each and no increment.
    pub fn new(tei_str: &str) -> (r: TimeLeft)
        ensures
            r == read_pairs(words(tei_str@), if words(tei_str@).len() > 0 { words(tei_str@).len() - 1 } else { 0 }),
    {
        let chars = crate::ply::chars_of(tei_str);
        let ws = split_words(&chars);
        let wtime = vec!['w', 't', 'i', 'm', 'e'];
        let btime = vec!['b', 't', 'i', 'm', 'e'];
        let winc = vec!['w', 'i', 'n', 'c'];
        let binc = vec!['b', 'i', 'n', 'c'];
        assert(wtime@ =~= seq!['w', 't', 'i', 'm', 'e']);
        assert(btime@ =~= seq!['b', 't', 'i', 'm', 'e']);
        assert(winc@ =~= seq!['w', 'i', 'n', 'c']);
        assert(binc@ =~= seq!['b', 'i', 'n', 'c']);
        let ghost wv = words(tei_str@);
        let mut ret = TimeLeft { wtime: 1000, btime: 1000, winc: 0, binc: 0 };
        let pairs: usize = if ws.len() > 0 { ws.len() - 1 } else { 0 };
        let mut k: usize = 0;
        while k < pairs
            invariant
                k <= pairs,
                pairs == if wv.len() > 0 { wv.len() - 1 } else { 0 },
                ws@.len() == wv.len(),
                forall|j: int| 0 <= j < ws@.len() ==> #[trigger] ws@[j]@ == wv[j],
                wtime@ == seq!['w', 't', 'i', 'm', 'e'],
                btime@ == seq!['b', 't', 'i', 'm', 'e'],
                winc@ == seq!['w', 'i', 'n', 'c'],
                binc@ == seq!['b', 'i', 'n', 'c'],
                ret == read_pairs(wv, k as int),
            decreases pairs - k,
        {
            let field = &ws[k];
            let val = &ws[k + 1];
            assert(field@ == wv[k as int] && val@ == wv[k + 1]);
            match parse_word(val) {
                None => {},
                Some(v) => {
                    if word_is(field, &wtime) {
                        ret.wtime = v;
                    } else if word_is(field, &btime) {
                        ret.btime = v;
                    } else if word_is(field, &winc) {
                        ret.winc = v;
                    } else if word_is(field, &binc) {
                        ret.binc = v;
                    }
                },
            }
            k = k + 1;
        }
        ret
    }

    /// The seconds to spend on a move: an even share of the side's remaining
    /// time over `est_plies + 2` plies, plus its increment.
    pub fn use_time(&self, est_plies: usize, side_to_move: Color) -> (r: u64)
        requires
            est_plies < usize::MAX - 1,
        ensures
            r == match side_to_move {
                Color::White => self.wtime / ((est_plies + 2) as u64) / 1000 + self.winc / 1000,
                Color::Black => self.btime / ((est_plies + 2) as u64) / 1000 + self.binc / 1000,
            },
    {
        let (time_bank, inc) = match side_to_move {
            Color::White => (self.wtime, self.winc),
            Color::Black => (self.btime, self.binc),
        };
        let use_bank = time_bank / (est_plies + 2) as u64 / 1000;
        use_bank + inc / 1000
    }
}

} // verus!
