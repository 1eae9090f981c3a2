use reversi::Board;
use reversi::Disk;
use reversi::Reversi;
use reversi::ReversiError;

#[test]
fn opposite_is_total_and_involutive() {
    assert_eq!(Disk::Black.opposite(), Disk::White);
    assert_eq!(Disk::White.opposite(), Disk::Black);
    assert_eq!(Disk::Black.opposite().opposite(), Disk::Black);
    assert_eq!(Disk::White.opposite().opposite(), Disk::White);
}

#[test]
fn legal_moves_on_start_board_are_exactly_the_sandwiching_cells() {
    let reversi = Reversi::new(6, 1, 2);
    // For Black, exactly the four cells that sandwich one White disk.
    let black_legal = [(3, 1), (4, 2), (1, 3), (2, 4)];
    for x in 0..6u8 {
        for y in 0..6u8 {
            let expected = black_legal.contains(&(x, y));
            assert_eq!(reversi.is_valid_place(Disk::Black, x, y), expected);
        }
    }
    // For White, the mirrored four cells.
    let white_legal = [(2, 1), (1, 2), (4, 3), (3, 4)];
    for x in 0..6u8 {
        for y in 0..6u8 {
            let expected = white_legal.contains(&(x, y));
            assert_eq!(reversi.is_valid_place(Disk::White, x, y), expected);
        }
    }
}

#[test]
fn legal_move_updates_counts_by_flips() {
    let alice: u128 = 1;
    let bob: u128 = 2;
    let mut reversi = Reversi::new(6, alice, bob);
    let (black, white) = reversi.count_disks();
    assert_eq!((black, white), (2, 2));

    // Black at (1, 3) flips exactly one White disk, (2, 3): the mover gains
    // 1 + 1 disks, the opponent loses 1, and the total grows by exactly 1.
    assert_eq!(reversi.make_move(alice, 1, 3), Ok(()));
    let (black, white) = reversi.count_disks();
    assert_eq!((black, white), (4, 1));
    assert_eq!(black + white, 2 + 2 + 1);

    let expected = Board {
        disks: vec![
            vec![None; 6],
            vec![None; 6],
            vec![None, None, Some(Disk::Black), Some(Disk::White), None, None],
            vec![
                None,
                Some(Disk::Black),
                Some(Disk::Black),
                Some(Disk::Black),
                None,
                None,
            ],
            vec![None; 6],
            vec![None; 6],
        ],
    };
    assert_eq!(reversi.get_board(), expected);
}

#[test]
fn illegal_move_leaves_the_board_identical() {
    let alice: u128 = 1;
    let bob: u128 = 2;
    let mut reversi = Reversi::new(6, alice, bob);
    let before = reversi.get_board();

    assert_eq!(
        reversi.make_move(alice, 0, 0),
        Err(ReversiError::CannotPlaceDisk)
    );
    assert_eq!(reversi.get_board(), before);
    assert_eq!(reversi.make_move(alice, 3, 2), Err(ReversiError::CannotPlaceDisk));
    assert_eq!(reversi.get_board(), before);
    assert!(!reversi.is_game_over());
    assert_eq!(reversi.get_active_player(), alice);
}

#[test]
fn retrying_a_completed_move_fails_on_the_occupied_cell() {
    let alice: u128 = 1;
    let bob: u128 = 2;
    let mut reversi = Reversi::new(6, alice, bob);
    assert_eq!(reversi.make_move(alice, 3, 1), Ok(()));
    let after_first = reversi.get_board();
    // Retried by the same player: that player is no longer active.
    assert_eq!(reversi.make_move(alice, 3, 1), Err(ReversiError::InvalidPlayer));
    // Retried by the now-active player: the cell is occupied.
    assert_eq!(reversi.make_move(bob, 3, 1), Err(ReversiError::CannotPlaceDisk));
    assert_eq!(reversi.get_board(), after_first);
}

#[test]
fn turn_passes_to_opponent_with_a_reply() {
    let alice: u128 = 1;
    let bob: u128 = 2;
    let mut reversi = Reversi::new(6, alice, bob);
    assert_eq!(reversi.get_active_player(), alice);
    assert_eq!(reversi.make_move(alice, 3, 1), Ok(()));
    // The opponent has a legal reply, so the active player flips.
    assert_eq!(reversi.get_active_player(), bob);
    assert!(!reversi.is_game_over());
}

#[test]
fn turn_stays_with_mover_when_opponent_is_blocked() {
    let alice: u128 = 1;
    let bob: u128 = 2;
    //    0  1  2  3  4  5
    // 0              W  B
    // 1
    // 2              W  B
    // 3
    // 4
    // 5
    let mut reversi = Reversi {
        board_size: 6,
        players: [alice, bob],
        active_player_index: 0,
        winner: None,
        is_game_over: false,
        board: Board {
            disks: vec![
                vec![None, None, None, None, Some(Disk::White), Some(Disk::Black)],
                vec![None; 6],
                vec![None, None, None, None, Some(Disk::White), Some(Disk::Black)],
                vec![None; 6],
                vec![None; 6],
                vec![None; 6],
            ],
        },
    };

    // Black plays (3, 0), flipping (4, 0). White is left without any legal
    // move, while Black still has one: the turn stays with Black.
    assert_eq!(reversi.make_move(alice, 3, 0), Ok(()));
    assert!(!reversi.is_game_over());
    assert_eq!(reversi.get_active_player(), alice);

    // Black plays its remaining move; no White disk is left, so neither
    // side can move and the game ends with Black holding every disk.
    assert_eq!(reversi.make_move(alice, 3, 2), Ok(()));
    assert!(reversi.is_game_over());
    assert_eq!(reversi.get_winner(), Ok(Some(alice)));
    assert_eq!(reversi.count_disks(), (6, 0));
}

#[test]
fn game_ends_in_a_tie_when_counts_are_equal() {
    let alice: u128 = 1;
    let bob: u128 = 2;
    //    0  1  2  3  4  5
    // 0              W  B
    // 1
    // 2
    // 3  W              W
    // 4
    // 5  W
    let mut reversi = Reversi {
        board_size: 6,
        players: [alice, bob],
        active_player_index: 0,
        winner: None,
        is_game_over: false,
        board: Board {
            disks: vec![
                vec![None, None, None, None, Some(Disk::White), Some(Disk::Black)],
                vec![None; 6],
                vec![None; 6],
                vec![Some(Disk::White), None, None, None, None, Some(Disk::White)],
                vec![None; 6],
                vec![Some(Disk::White), None, None, None, None, None],
            ],
        },
    };

    // Black plays (3, 0), flipping (4, 0): three disks each, nobody can
    // move, and the game ends without a winner.
    assert_eq!(reversi.make_move(alice, 3, 0), Ok(()));
    assert!(reversi.is_game_over());
    assert_eq!(reversi.count_disks(), (3, 3));
    assert_eq!(reversi.get_winner(), Ok(None));
}

#[test]
fn non_active_player_is_rejected() {
    let alice: u128 = 1;
    let bob: u128 = 2;
    let mut reversi = Reversi::new(6, alice, bob);
    let before = reversi.get_board();

    // Bob is not the active player, even for a cell that would be legal.
    assert_eq!(reversi.make_move(bob, 2, 1), Err(ReversiError::InvalidPlayer));
    // A stranger is not the active player either.
    assert_eq!(reversi.make_move(99, 2, 1), Err(ReversiError::InvalidPlayer));
    assert_eq!(reversi.get_board(), before);
    assert_eq!(reversi.get_active_player(), alice);
    assert!(!reversi.is_game_over());
}

#[test]
fn winner_query_before_game_over_is_rejected() {
    let alice: u128 = 1;
    let bob: u128 = 2;
    let reversi = Reversi::new(6, alice, bob);
    assert!(!reversi.is_game_over());
    assert_eq!(reversi.get_winner(), Err(ReversiError::GameIsNotOver));
}

#[test]
fn moves_after_game_over_are_rejected() {
    let alice: u128 = 1;
    let bob: u128 = 2;
    let mut reversi = Reversi {
        board_size: 6,
        players: [alice, bob],
        active_player_index: 0,
        winner: None,
        is_game_over: false,
        board: Board {
            disks: vec![
                vec![Some(Disk::Black); 6],
                vec![Some(Disk::Black); 6],
                vec![Some(Disk::Black); 6],
                vec![
                    Some(Disk::White),
                    Some(Disk::White),
                    Some(Disk::Black),
                    Some(Disk::Black),
                    Some(Disk::Black),
                    Some(Disk::Black),
                ],
                vec![
                    None,
                    Some(Disk::White),
                    Some(Disk::White),
                    Some(Disk::White),
                    Some(Disk::White),
                    Some(Disk::White),
                ],
                vec![Some(Disk::Black); 6],
            ],
        },
    };
    assert_eq!(reversi.make_move(alice, 0, 4), Ok(()));
    assert!(reversi.is_game_over());
    let after = reversi.get_board();

    assert_eq!(reversi.make_move(alice, 0, 0), Err(ReversiError::GameIsOver));
    assert_eq!(reversi.make_move(bob, 0, 0), Err(ReversiError::GameIsOver));
    assert_eq!(reversi.get_board(), after);
    assert_eq!(reversi.get_winner(), Ok(Some(alice)));
}

#[test]
fn first_mover_opens_from_the_diagonal() {
    let alice: u128 = 1;
    let bob: u128 = 2;
    // The fresh 6x6 game: player 0 is active and their color (Black) holds
    // the main diagonal cells (2, 2) and (3, 3).
    let mut reversi = Reversi::new(6, alice, bob);
    assert_eq!(reversi.get_active_player(), alice);
    assert_eq!(reversi.get_own_disk(alice), Disk::Black);

    // The active player plays (3, 1): along the column it sandwiches the
    // White disk at (3, 2) against the Black disk at (3, 3).
    assert_eq!(reversi.make_move(alice, 3, 1), Ok(()));
    let expected = Board {
        disks: vec![
            vec![None; 6],
            vec![None, None, None, Some(Disk::Black), None, None],
            vec![None, None, Some(Disk::Black), Some(Disk::Black), None, None],
            vec![None, None, Some(Disk::White), Some(Disk::Black), None, None],
            vec![None; 6],
            vec![None; 6],
        ],
    };
    // The mover's color now holds (2,2), (3,3), (3,1) and (3,2), for a
    // count of 4 against 1.
    assert_eq!(reversi.get_board(), expected);
    let (black, white) = reversi.count_disks();
    assert_eq!((black, white), (4, 1));
    // White has a reply, so the turn passes.
    assert_eq!(reversi.get_active_player(), bob);
}

#[test]
fn white_mover_captures_toward_its_own_disk() {
    let alice: u128 = 1;
    let bob: u128 = 2;
    // The start state, with the White player (bob) to move.
    let mut reversi = Reversi::new(6, alice, bob);
    reversi.active_player_index = 1;
    assert_eq!(reversi.get_active_player(), bob);

    // White plays (2, 1): along the column it sandwiches the Black disk at
    // (2, 2) against the White disk at (2, 3).
    assert_eq!(reversi.make_move(bob, 2, 1), Ok(()));
    let expected = Board {
        disks: vec![
            vec![None; 6],
            vec![None, None, Some(Disk::White), None, None, None],
            vec![None, None, Some(Disk::White), Some(Disk::White), None, None],
            vec![None, None, Some(Disk::White), Some(Disk::Black), None, None],
            vec![None; 6],
            vec![None; 6],
        ],
    };
    assert_eq!(reversi.get_board(), expected);
    let (black, white) = reversi.count_disks();
    assert_eq!((black, white), (1, 4));
    // Black has a reply, so the turn passes back.
    assert_eq!(reversi.get_active_player(), alice);
}

#[test]
fn move_on_the_largest_board() {
    let alice: u128 = 1;
    let bob: u128 = 2;
    let mut reversi = Reversi::new(10, alice, bob);
    assert_eq!(reversi.count_disks(), (2, 2));

    // Black at (5, 3) sandwiches the White disk at (5, 4) against (5, 5).
    assert!(reversi.is_valid_place(Disk::Black, 5, 3));
    assert_eq!(reversi.make_move(alice, 5, 3), Ok(()));
    assert_eq!(reversi.count_disks(), (4, 1));
    assert_eq!(reversi.get_active_player(), bob);
    assert!(!reversi.is_game_over());
}

#[test]
fn own_disk_binding_is_fixed_at_creation() {
    let alice: u128 = 7;
    let bob: u128 = 9;
    let reversi = Reversi::new(8, alice, bob);
    assert_eq!(reversi.get_own_disk(alice), Disk::Black);
    assert_eq!(reversi.get_own_disk(bob), Disk::White);
}
