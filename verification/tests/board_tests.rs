use mnk_mcts::board::{Action, Board, GameError, Outcome, Player, SquareState};

fn play(board: &mut Board, moves: &[&str]) {
    for m in moves {
        let action = board
            .parse_string_to_action(&String::from(*m))
            .expect("move label should parse");
        board.make_action(action).expect("move should be legal");
    }
}

fn expect_configuration_error(result: Result<Board, GameError>) {
    match result {
        Ok(_) => panic!("expected a configuration error"),
        Err(e) => assert_eq!(e, GameError::ConfigurationError),
    }
}

#[test]
fn configuration_bounds() {
    assert!(Board::new(3, 3).is_ok());
    assert!(Board::new(15, 5).is_ok());
    assert!(Board::new(26, 26).is_ok());
    expect_configuration_error(Board::new(27, 5));
    expect_configuration_error(Board::new(3, 4));
    expect_configuration_error(Board::new(3, 1));
    expect_configuration_error(Board::new(0, 0));
}

#[test]
fn initial_state() {
    let board = Board::new(3, 3).unwrap();
    assert_eq!(board.size, 3);
    assert_eq!(board.n_in_a_row, 3);
    assert_eq!(board.turn, Player::Black);
    assert_eq!(board.outcome, None);
    assert_eq!(board.num_stones_placed, 0);
    assert!(!board.is_game_over());
    assert_eq!(board.legal_moves_as_strings().len(), 9);
}

#[test]
fn player_operations() {
    assert_eq!(Player::Black.opposite(), Player::White);
    assert_eq!(Player::White.opposite(), Player::Black);
    assert!(Player::Black.to_bool());
    assert!(!Player::White.to_bool());
}

#[test]
fn legal_actions_complement_stones() {
    // The legal-action set always counts size^2 minus the stones placed and
    // never holds an occupied square.
    let mut board = Board::new(3, 3).unwrap();
    let moves = ["B2", "A2", "C3", "A1", "A3"];
    for (i, m) in moves.iter().enumerate() {
        assert_eq!(board.legal_moves_as_strings().len(), 9 - i);
        assert_eq!(board.num_stones_placed, i);
        let action = board.parse_string_to_action(&String::from(*m)).unwrap();
        board.make_action(action).unwrap();
        let remaining = board.legal_moves_as_strings();
        assert_eq!(remaining.len(), 9 - i - 1);
        assert!(!remaining.contains(&String::from(*m)));
    }
}

#[test]
fn occupied_square_is_invalid_and_board_unchanged() {
    let mut board = Board::new(3, 3).unwrap();
    let b2 = board.parse_string_to_action(&String::from("B2")).unwrap();
    board.make_action(b2).unwrap();
    let turn_before = board.turn;
    let stones_before = board.num_stones_placed;
    assert_eq!(board.make_action(b2).unwrap_err(), GameError::InvalidMove);
    assert_eq!(board.turn, turn_before);
    assert_eq!(board.num_stones_placed, stones_before);
}

#[test]
fn out_of_range_action_is_invalid() {
    let mut board = Board::new(3, 3).unwrap();
    assert_eq!(board.make_action((3, 0)).unwrap_err(), GameError::InvalidMove);
    assert_eq!(board.make_action((0, 3)).unwrap_err(), GameError::InvalidMove);
    assert_eq!(board.make_action((100, 100)).unwrap_err(), GameError::InvalidMove);
    assert_eq!(board.num_stones_placed, 0);
}

#[test]
fn parse_move_labels() {
    let board = Board::new(3, 3).unwrap();
    // Row 1 is the bottom row, at row index size - 1.
    assert_eq!(board.parse_string_to_action(&String::from("A1")).unwrap(), (2, 0));
    assert_eq!(board.parse_string_to_action(&String::from("B2")).unwrap(), (1, 1));
    assert_eq!(board.parse_string_to_action(&String::from("C3")).unwrap(), (0, 2));
    // Case-insensitive columns.
    assert_eq!(board.parse_string_to_action(&String::from("b2")).unwrap(), (1, 1));
    assert_eq!(board.parse_string_to_action(&String::from("c1")).unwrap(), (2, 2));
}

#[test]
fn parse_rejects_malformed_labels() {
    let board = Board::new(3, 3).unwrap();
    for bad in ["", "B", "2", "22", "D1", "A0", "A4", "A01", "A10", "B-1", "??", "B2x", "1B"] {
        assert_eq!(
            board.parse_string_to_action(&String::from(bad)).unwrap_err(),
            GameError::InvalidMove,
            "{bad} should be rejected"
        );
    }
}

#[test]
fn parse_two_digit_rows() {
    let board = Board::new(26, 2).unwrap();
    assert_eq!(board.parse_string_to_action(&String::from("Z26")).unwrap(), (0, 25));
    assert_eq!(board.parse_string_to_action(&String::from("A1")).unwrap(), (25, 0));
    assert_eq!(board.parse_string_to_action(&String::from("m13")).unwrap(), (13, 12));
    assert_eq!(
        board.parse_string_to_action(&String::from("A27")).unwrap_err(),
        GameError::InvalidMove
    );
}

#[test]
fn format_round_trips_every_label() {
    // For every syntactically valid move string, formatting the parsed
    // action reproduces its normalized form.
    let board = Board::new(26, 3).unwrap();
    for col in 0..26u8 {
        for row in 1..=26usize {
            let upper = format!("{}{}", (b'A' + col) as char, row);
            let lower = format!("{}{}", (b'a' + col) as char, row);
            let parsed = board.parse_string_to_action(&upper).unwrap();
            assert_eq!(board.action_to_string(parsed), upper);
            let parsed_lower = board.parse_string_to_action(&lower).unwrap();
            assert_eq!(parsed_lower, parsed);
            assert_eq!(board.action_to_string(parsed_lower), upper);
        }
    }
}

#[test]
fn diagonal_win_for_first_mover() {
    // After the six alternating moves the game is still open; the first
    // mover's C1 then completes the A3-B2-C1 diagonal.
    let mut board = Board::new(3, 3).unwrap();
    play(&mut board, &["B2", "A2", "C3", "A1", "A3", "B3"]);
    assert_eq!(board.outcome, None);
    play(&mut board, &["C1"]);
    assert_eq!(board.outcome, Some(Outcome::Winner(Player::Black)));
    assert!(board.is_game_over());
    // The winner stays the player to move once the game has ended.
    assert_eq!(board.turn, Player::Black);
}

#[test]
fn column_win_for_second_mover() {
    // After five plies the game is open; the second mover's B3 then
    // completes the B1-B2-B3 column.
    let mut board = Board::new(3, 3).unwrap();
    play(&mut board, &["A1", "B1", "A2", "B2", "C1"]);
    assert_eq!(board.outcome, None);
    play(&mut board, &["B3"]);
    assert_eq!(board.outcome, Some(Outcome::Winner(Player::White)));
}

#[test]
fn horizontal_and_vertical_wins() {
    let mut board = Board::new(4, 3).unwrap();
    // Black builds row 1: A1 B1 C1, White elsewhere.
    play(&mut board, &["A1", "A4", "B1", "B4", "C1"]);
    assert_eq!(board.outcome, Some(Outcome::Winner(Player::Black)));

    let mut board = Board::new(4, 3).unwrap();
    // White builds column D: D1 D2 D3.
    play(&mut board, &["A1", "D1", "B1", "D2", "A2", "D3"]);
    assert_eq!(board.outcome, Some(Outcome::Winner(Player::White)));
}

#[test]
fn anti_diagonal_win() {
    let mut board = Board::new(3, 3).unwrap();
    // Black: C1, B2, A3 — the rising diagonal read the other way.
    play(&mut board, &["C1", "A1", "B2", "A2", "A3"]);
    assert_eq!(board.outcome, Some(Outcome::Winner(Player::Black)));
}

#[test]
fn full_board_without_line_is_a_draw() {
    let mut board = Board::new(3, 3).unwrap();
    // B: B2 A3 B1 C3 C2 / W: A2 C1 A1 B3: no three in a row anywhere.
    play(&mut board, &["B2", "A2", "A3", "C1", "B1", "A1", "C3", "B3", "C2"]);
    assert_eq!(board.outcome, Some(Outcome::Draw));
    assert_eq!(board.num_stones_placed, 9);
    assert!(board.legal_moves_as_strings().is_empty());
}

#[test]
fn reset_restores_initial_state() {
    let mut board = Board::new(3, 3).unwrap();
    play(&mut board, &["B2", "A2", "C3", "A1", "A3", "B3", "C1"]);
    assert!(board.is_game_over());
    board.reset();
    assert_eq!(board.outcome, None);
    assert_eq!(board.turn, Player::Black);
    assert_eq!(board.num_stones_placed, 0);
    assert_eq!(board.legal_moves_as_strings().len(), 9);
    // The board is playable again.
    play(&mut board, &["B2"]);
    assert_eq!(board.num_stones_placed, 1);
}

#[test]
fn clone_is_independent() {
    let mut board = Board::new(3, 3).unwrap();
    play(&mut board, &["B2"]);
    let mut copy = board.clone();
    assert_eq!(copy.turn, board.turn);
    assert_eq!(copy.num_stones_placed, 1);
    play(&mut copy, &["A1"]);
    assert_eq!(copy.num_stones_placed, 2);
    assert_eq!(board.num_stones_placed, 1);
}

#[test]
fn feature_encoding_planes() {
    let mut board = Board::new(3, 3).unwrap();
    let planes = board.to_vec();
    assert_eq!(planes.len(), 3);
    for plane in &planes {
        assert_eq!(plane.len(), 3);
        for row in plane {
            assert_eq!(row.len(), 3);
        }
    }
    // Empty board, Black to move: occupancy planes zero, mover plane one.
    assert!(planes[0].iter().flatten().all(|&v| v == 0));
    assert!(planes[1].iter().flatten().all(|&v| v == 0));
    assert!(planes[2].iter().flatten().all(|&v| v == 1));

    play(&mut board, &["B2", "A1"]);
    let planes = board.to_vec();
    // Black stone at (1, 1); White stone at (2, 0); Black to move again.
    assert_eq!(planes[0][1][1], 1);
    assert_eq!(planes[0].iter().flatten().map(|&v| v as u32).sum::<u32>(), 1);
    assert_eq!(planes[1][2][0], 1);
    assert_eq!(planes[1].iter().flatten().map(|&v| v as u32).sum::<u32>(), 1);
    assert!(planes[2].iter().flatten().all(|&v| v == 1));
}

#[test]
fn flat_encoding_matches_planes() {
    let mut board = Board::new(3, 3).unwrap();
    play(&mut board, &["B2"]);
    let planes = board.to_vec();
    let flat = board.to_flat_vec();
    assert_eq!(flat.len(), 27);
    for p in 0..3 {
        for i in 0..3 {
            for j in 0..3 {
                assert_eq!(flat[p * 9 + i * 3 + j], planes[p][i][j]);
            }
        }
    }
    // White to move now: mover plane is all zeros.
    assert!(flat[18..27].iter().all(|&v| v == 0));
}

#[test]
fn legal_move_labels_cover_the_board() {
    let board = Board::new(3, 3).unwrap();
    let labels = board.legal_moves_as_strings();
    for expected in ["A1", "A2", "A3", "B1", "B2", "B3", "C1", "C2", "C3"] {
        assert!(labels.contains(&String::from(expected)), "missing {expected}");
    }
}

#[test]
fn square_states_compare() {
    assert_eq!(SquareState::Occupied(Player::Black), SquareState::Occupied(Player::Black));
    assert_ne!(SquareState::Occupied(Player::Black), SquareState::Vacant);
    let a: Action = (1, 2);
    assert_eq!(a, (1, 2));
}
