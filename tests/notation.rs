use takkerus::piece::{Color, Direction, Piece};
use takkerus::ply::Ply;
use takkerus::tei::{TeiCommand, TimeLeft};

fn place(ptn: &str, color: Color) -> (usize, usize, Piece) {
    match Ply::from_ptn(ptn, color) {
        Some(Ply::Place { x, y, piece }) => (x, y, piece),
        other => panic!("expected a placement, got {:?}", other),
    }
}

fn slide(ptn: &str) -> (usize, usize, Direction, Vec<usize>) {
    match Ply::from_ptn(ptn, Color::White) {
        Some(Ply::Slide { x, y, direction, drops }) => (x, y, direction, drops),
        other => panic!("expected a slide, got {:?}", other),
    }
}

#[test]
fn parses_placements() {
    assert_eq!(place("a1", Color::White), (0, 0, Piece::Flatstone(Color::White)));
    assert_eq!(place("Sc4", Color::Black), (2, 3, Piece::StandingStone(Color::Black)));
    assert_eq!(place("Ch8", Color::White), (7, 7, Piece::Capstone(Color::White)));
    assert_eq!(place("z9", Color::Black), (25, 8, Piece::Flatstone(Color::Black)));
}

#[test]
fn parses_slides() {
    assert_eq!(slide("a1+"), (0, 0, Direction::North, vec![1]));
    assert_eq!(slide("3c3>"), (2, 2, Direction::East, vec![3]));
    assert_eq!(slide("3c3<12"), (2, 2, Direction::West, vec![1, 2]));
    assert_eq!(slide("4b5-211"), (1, 4, Direction::South, vec![2, 1, 1]));
    assert_eq!(slide("1c3-01"), (2, 2, Direction::South, vec![0, 1]));
}

#[test]
fn rejects_malformed_notation() {
    for bad in ["", "a", "1", "A1", "a0", "ab", "1a1", "Sa1+", "Ca1>", "a1x", "a1+1", "3c3>13", "2c3>3",
                "Fa1", "0a1+", "a1 ", " a1", "a1+1a", "S", "9"] {
        assert!(Ply::from_ptn(bad, Color::White).is_none(), "{} should not parse", bad);
    }
}

#[test]
fn notation_round_trips() {
    let cases = [
        ("b2", Color::White),
        ("Sd1", Color::Black),
        ("Ce5", Color::White),
    ];
    for (ptn, color) in cases {
        let (x, y, piece) = place(ptn, color);
        let letter = match piece {
            Piece::Flatstone(_) => "",
            Piece::StandingStone(_) => "S",
            Piece::Capstone(_) => "C",
        };
        let text = format!("{}{}{}", letter, (b'a' + x as u8) as char, y + 1);
        assert_eq!(place(&text, color), (x, y, piece));
    }
    let (x, y, direction, drops) = slide("5a1>221");
    let symbol = match direction {
        Direction::North => '+',
        Direction::East => '>',
        Direction::South => '-',
        Direction::West => '<',
    };
    let digits: String = drops.iter().map(|d| d.to_string()).collect();
    let total: usize = drops.iter().sum();
    let text = format!("{}{}{}{}{}", total, (b'a' + x as u8) as char, y + 1, symbol, digits);
    assert_eq!(slide(&text), (x, y, direction, drops));
}

#[test]
fn time_left_reads_fields() {
    let t = TimeLeft::new("go wtime 5000 btime 4000 winc 100 binc 50");
    assert_eq!(t, TimeLeft { wtime: 5000, btime: 4000, winc: 100, binc: 50 });
}

#[test]
fn time_left_defaults_and_ignores_junk() {
    let t = TimeLeft::new("go");
    assert_eq!(t, TimeLeft { wtime: 1000, btime: 1000, winc: 0, binc: 0 });
    let t = TimeLeft::new("");
    assert_eq!(t, TimeLeft { wtime: 1000, btime: 1000, winc: 0, binc: 0 });
    let t = TimeLeft::new("go wtime -5 btime 18446744073709551616 winc +7 binc\t 9 wtime");
    assert_eq!(t, TimeLeft { wtime: 1000, btime: 1000, winc: 7, binc: 9 });
    let t = TimeLeft::new("  btime   300  btime 200 ");
    assert_eq!(t.btime, 200);
    let t = TimeLeft::new("wtime 18446744073709551615");
    assert_eq!(t.wtime, u64::MAX);
}

#[test]
fn time_left_share() {
    let t = TimeLeft { wtime: 60000, btime: 30000, winc: 2000, binc: 1500 };
    assert_eq!(t.use_time(10, Color::White), 60000 / 12 / 1000 + 2);
    assert_eq!(t.use_time(10, Color::White), 7);
    assert_eq!(t.use_time(0, Color::Black), 30000 / 2 / 1000 + 1);
    assert_eq!(t.use_time(0, Color::Black), 16);
}

#[test]
fn tei_command_debug() {
    let c = TeiCommand::NewGame(5);
    assert_eq!(format!("{:?}", c), "NewGame(5)");
    let g = TeiCommand::Go(String::from("go wtime 1"));
    assert!(matches!(g, TeiCommand::Go(_)));
}
