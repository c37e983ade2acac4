use takkerus::piece::{Color, Direction, Piece};
use takkerus::ply::Ply;
use takkerus::state::{GameError, State, Win};

fn play(state: &State, ptn: &str, color: Color) -> State {
    let ply = Ply::from_ptn(ptn, color).expect("valid notation");
    state.execute_ply(&ply).expect("legal ply")
}

fn stack(state: &State, x: usize, y: usize) -> Vec<Piece> {
    state.board[x][y].clone()
}

#[test]
fn new_state_reserves_by_size() {
    let expected = [(3, 10, 0), (4, 15, 0), (5, 21, 1), (6, 30, 1), (7, 40, 1), (8, 50, 2)];
    for (size, flats, caps) in expected {
        let s = State::new(size);
        assert_eq!(s.board.len(), size);
        assert!(s.board.iter().all(|column| column.len() == size));
        assert!(s.board.iter().flatten().all(|c| c.is_empty()));
        assert_eq!(s.p1.flatstone_count, flats);
        assert_eq!(s.p1.capstone_count, caps);
        assert_eq!(s.p2.flatstone_count, flats);
        assert_eq!(s.p2.capstone_count, caps);
        assert_eq!(s.ply_count, 0);
        assert_eq!(s.check_win(), Win::Ongoing);
    }
}

#[test]
fn place_decrements_reserve_and_counts_ply() {
    let s = State::new(5);
    let s = play(&s, "c3", Color::White);
    assert_eq!(s.p1.flatstone_count, 20);
    assert_eq!(s.p2.flatstone_count, 21);
    assert_eq!(s.ply_count, 1);
    assert_eq!(stack(&s, 2, 2), vec![Piece::Flatstone(Color::White)]);
    let s = play(&s, "Cd4", Color::Black);
    assert_eq!(s.p2.capstone_count, 0);
    assert_eq!(s.p2.flatstone_count, 21);
    let s = play(&s, "Sa1", Color::White);
    assert_eq!(s.p1.flatstone_count, 19);
    assert_eq!(stack(&s, 0, 0), vec![Piece::StandingStone(Color::White)]);
    assert_eq!(s.ply_count, 3);
    assert_eq!(s.analysis.p1_flatstone_count, 1);
}

#[test]
fn place_on_occupied_cell_is_illegal() {
    let s = State::new(4);
    let s = play(&s, "b2", Color::White);
    let again = Ply::Place { x: 1, y: 1, piece: Piece::Flatstone(Color::Black) };
    assert_eq!(s.execute_ply(&again).unwrap_err(), GameError::IllegalPlacement);
    assert_eq!(s.p2.flatstone_count, 15);
    assert_eq!(s.p1.flatstone_count, 14);
}

#[test]
fn capstone_without_reserve_is_insufficient() {
    let s = State::new(3);
    let ply = Ply::from_ptn("Ca1", Color::White).unwrap();
    assert_eq!(s.execute_ply(&ply).unwrap_err(), GameError::InsufficientPieces);
}

#[test]
fn flatstone_reserve_exhaustion() {
    let mut s = State::new(3);
    for _ in 0..10 {
        s = play(&s, "a1", Color::White);
        s = play(&s, "a1>", Color::White);
    }
    assert_eq!(s.p1.flatstone_count, 0);
    assert_eq!(stack(&s, 1, 0).len(), 10);
    let ply = Ply::from_ptn("a1", Color::White).unwrap();
    assert_eq!(s.execute_ply(&ply).unwrap_err(), GameError::InsufficientPieces);
    let standing = Ply::from_ptn("Sc3", Color::White).unwrap();
    assert_eq!(s.execute_ply(&standing).unwrap_err(), GameError::InsufficientPieces);
    let black = Ply::from_ptn("a1", Color::Black).unwrap();
    assert_eq!(s.check_win(), Win::Flat(Color::White));
    let tied = s.execute_ply(&black).unwrap();
    assert_eq!(tied.check_win(), Win::Draw);
}

fn on_board(state: &State, color: Color) -> usize {
    state.board.iter().flatten().flatten().filter(|p| p.get_color() == color).count()
}

#[test]
fn reserves_plus_board_are_conserved() {
    let mut s = State::new(5);
    let plies = [
        ("a1", Color::White), ("b1", Color::Black), ("Ca2", Color::White), ("Sb2", Color::Black),
        ("a2-", Color::White), ("b1<", Color::Black), ("2a1>", Color::White), ("Cc3", Color::Black),
        ("c3-", Color::Black), ("2b1+11", Color::White),
    ];
    for (ptn, color) in plies {
        let ply = Ply::from_ptn(ptn, color).unwrap();
        if let Ok(next) = s.execute_ply(&ply) {
            s = next;
        }
        for (seat, color) in [(&s.p1, Color::White), (&s.p2, Color::Black)] {
            let total = seat.flatstone_count as usize + seat.capstone_count as usize + on_board(&s, color);
            assert_eq!(total, 22);
        }
    }
    assert!(s.ply_count >= 8);
}

#[test]
fn place_off_board_is_out_of_bounds() {
    let s = State::new(3);
    let ply = Ply::Place { x: 3, y: 0, piece: Piece::Flatstone(Color::White) };
    assert_eq!(s.execute_ply(&ply).unwrap_err(), GameError::OutOfBounds);
}

#[test]
fn slide_grab_over_size_is_illegal() {
    let s = State::new(3);
    let s = play(&s, "a1", Color::White);
    let ply = Ply::Slide { x: 0, y: 0, direction: Direction::North, drops: vec![4] };
    assert_eq!(s.execute_ply(&ply).unwrap_err(), GameError::IllegalSlide);
}

#[test]
fn slide_from_empty_cell_is_illegal() {
    let s = State::new(3);
    let ply = Ply::from_ptn("b2+", Color::White).unwrap();
    assert_eq!(s.execute_ply(&ply).unwrap_err(), GameError::IllegalSlide);
}

#[test]
fn slide_off_board_is_out_of_bounds() {
    let s = State::new(3);
    let s = play(&s, "a1", Color::White);
    let ply = Ply::from_ptn("a1<", Color::White).unwrap();
    assert_eq!(s.execute_ply(&ply).unwrap_err(), GameError::OutOfBounds);
}

#[test]
fn slide_onto_capstone_is_illegal() {
    let s = State::new(5);
    let s = play(&s, "a1", Color::White);
    let s = play(&s, "Cb1", Color::Black);
    let ply = Ply::from_ptn("a1>", Color::White).unwrap();
    assert_eq!(s.execute_ply(&ply).unwrap_err(), GameError::IllegalSlide);
}

#[test]
fn slide_spreads_stack_in_order() {
    let s = State::new(5);
    let s = play(&s, "a1", Color::White);
    let s = play(&s, "a2", Color::Black);
    let s = play(&s, "a1+", Color::White);
    assert_eq!(stack(&s, 0, 1), vec![Piece::Flatstone(Color::Black), Piece::Flatstone(Color::White)]);
    let s = play(&s, "Ca3", Color::White);
    let s = play(&s, "a3-", Color::White);
    assert_eq!(
        stack(&s, 0, 1),
        vec![Piece::Flatstone(Color::Black), Piece::Flatstone(Color::White), Piece::Capstone(Color::White)]
    );
    let s = play(&s, "3a2+12", Color::White);
    assert!(stack(&s, 0, 1).is_empty());
    assert_eq!(stack(&s, 0, 2), vec![Piece::Flatstone(Color::Black)]);
    assert_eq!(stack(&s, 0, 3), vec![Piece::Flatstone(Color::White), Piece::Capstone(Color::White)]);
    assert_eq!(s.p1.flatstone_count, 20);
    assert_eq!(s.p2.flatstone_count, 20);
    assert_eq!(s.p1.capstone_count, 0);
    assert_eq!(s.ply_count, 6);
    assert_eq!(s.analysis.p1_flatstone_count, 0);
    assert_eq!(s.analysis.p2_flatstone_count, 1);
}

#[test]
fn capstone_flattens_standing_stone() {
    let s = State::new(5);
    let s = play(&s, "Cc3", Color::White);
    let s = play(&s, "Sd3", Color::Black);
    let s = play(&s, "c3>", Color::White);
    assert_eq!(stack(&s, 3, 2), vec![Piece::Flatstone(Color::Black), Piece::Capstone(Color::White)]);
    assert!(stack(&s, 2, 2).is_empty());
    assert_eq!(s.analysis.p2_flatstone_count, 0);
}

#[test]
fn flatstone_cannot_move_onto_standing_stone() {
    let s = State::new(5);
    let s = play(&s, "c3", Color::White);
    let s = play(&s, "Sd3", Color::Black);
    let ply = Ply::from_ptn("c3>", Color::White).unwrap();
    assert_eq!(s.execute_ply(&ply).unwrap_err(), GameError::IllegalSlide);
}

#[test]
fn capstone_with_escort_cannot_flatten() {
    let s = State::new(5);
    let s = play(&s, "c3", Color::White);
    let s = play(&s, "Cb3", Color::White);
    let s = play(&s, "b3>", Color::White);
    let s = play(&s, "Sd3", Color::Black);
    let ply = Ply::from_ptn("2c3>", Color::White).unwrap();
    assert_eq!(s.execute_ply(&ply).unwrap_err(), GameError::IllegalSlide);
}

#[test]
fn road_on_five_board() {
    let mut s = State::new(5);
    let white = ["a1", "a2", "a3", "a4", "a5"];
    let black = ["c1", "c2", "c3", "c4"];
    for k in 0..5 {
        s = play(&s, white[k], Color::White);
        if k < 4 {
            assert_eq!(s.check_win(), Win::Ongoing);
            s = play(&s, black[k], Color::Black);
            assert_eq!(s.check_win(), Win::Ongoing);
        }
    }
    assert_eq!(s.check_win(), Win::Road(Color::White));
}

#[test]
fn standing_stone_breaks_road() {
    let mut s = State::new(3);
    s = play(&s, "a1", Color::White);
    s = play(&s, "Sa2", Color::White);
    s = play(&s, "a3", Color::White);
    assert_eq!(s.check_win(), Win::Ongoing);
    s = play(&s, "b2", Color::White);
    s = play(&s, "b3", Color::White);
    s = play(&s, "b1", Color::White);
    assert_eq!(s.check_win(), Win::Road(Color::White));
}

#[test]
fn full_board_tie_is_draw() {
    let mut s = State::new(3);
    for (ptn, color) in [
        ("a1", Color::White), ("b1", Color::Black), ("c1", Color::White),
        ("a2", Color::Black), ("Sb2", Color::White), ("c2", Color::Black),
        ("a3", Color::White), ("b3", Color::Black), ("c3", Color::White),
    ] {
        assert_eq!(s.check_win(), Win::Ongoing);
        s = play(&s, ptn, color);
    }
    assert_eq!(s.check_win(), Win::Draw);
}

#[test]
fn full_board_more_flats_wins() {
    let mut s = State::new(3);
    for (ptn, color) in [
        ("a1", Color::White), ("b1", Color::Black), ("c1", Color::White),
        ("a2", Color::Black), ("b2", Color::White), ("c2", Color::Black),
        ("a3", Color::White), ("b3", Color::Black), ("c3", Color::White),
    ] {
        s = play(&s, ptn, color);
    }
    assert_eq!(s.check_win(), Win::Flat(Color::White));
}

#[test]
fn double_road_goes_to_mover_by_parity() {
    let setup = [
        ("a1", Color::White), ("c3", Color::Black), ("c2", Color::White),
        ("c2+", Color::White), ("b1", Color::White), ("a3", Color::Black),
        ("b3", Color::Black),
    ];
    let mut s = State::new(3);
    for (ptn, color) in setup {
        s = play(&s, ptn, color);
        assert_eq!(s.check_win(), Win::Ongoing);
    }
    let last = play(&s, "1c3-01", Color::White);
    assert_eq!(last.ply_count, 8);
    assert_eq!(last.check_win(), Win::Road(Color::Black));
    let mut odd = State::new(3);
    odd = play(&odd, "b2", Color::White);
    for (ptn, color) in setup {
        odd = play(&odd, ptn, color);
    }
    assert_eq!(odd.check_win(), Win::Ongoing);
    let last = play(&odd, "1c3-01", Color::White);
    assert_eq!(last.ply_count, 9);
    assert_eq!(last.check_win(), Win::Road(Color::White));
}

#[test]
fn original_state_is_untouched_by_execution() {
    let s = State::new(4);
    let t = play(&s, "a1", Color::White);
    assert!(s.board.iter().flatten().all(|c| c.is_empty()));
    assert_eq!(s.ply_count, 0);
    assert_eq!(t.ply_count, 1);
}
