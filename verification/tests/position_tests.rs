use connect4::position::Cell;
use connect4::position::ParseError;
use connect4::position::Position;
use connect4::position::FULL_BOTTOM_MASK;
use connect4::position::FULL_BOARD_MASK;
use connect4::position::HEIGHT;
use connect4::position::WIDTH;

#[test]
fn test_mask_constants() {
    let mut expected_full_bottom_mask = 0u64;
    for x in 0..7 {
        expected_full_bottom_mask |= Position::bottom_mask(x);
    }
    assert_eq!(
        FULL_BOTTOM_MASK, expected_full_bottom_mask,
        "\n{:b} != \n{:b}",
        FULL_BOTTOM_MASK, expected_full_bottom_mask
    );

    let mut expected_full_board_mask = 0u64;
    for x in 0..6 {
        expected_full_board_mask |= expected_full_bottom_mask << x;
    }
    assert_eq!(
        FULL_BOARD_MASK, expected_full_board_mask,
        "\n{:b} != \n{:b}",
        FULL_BOARD_MASK, expected_full_board_mask
    );
}

#[test]
fn test_new() {
    let p = Position::new();
    for y in 0..HEIGHT {
        for x in 0..WIDTH {
            assert_eq!(p.at(y, x), Cell::Empty);
        }
    }
}

#[test]
fn test_play() {
    let mut p = Position::new();
    p = p.play(0);
    assert_eq!(p.at(0, 0), Cell::OtherPlayer, "\n{:?}", p);
    p = p.play(0);
    assert_eq!(p.at(0, 0), Cell::CurrentPlayer, "\n{:?}", p);
    assert_eq!(p.at(1, 0), Cell::OtherPlayer, "\n{:?}", p);
    p = p.play(0);
    assert_eq!(p.at(0, 0), Cell::OtherPlayer, "\n{:?}", p);
    assert_eq!(p.at(1, 0), Cell::CurrentPlayer, "\n{:?}", p);
    assert_eq!(p.at(2, 0), Cell::OtherPlayer, "\n{:?}", p);
    p = p.play(0);
    assert_eq!(p.at(0, 0), Cell::CurrentPlayer, "\n{:?}", p);
    assert_eq!(p.at(1, 0), Cell::OtherPlayer, "\n{:?}", p);
    assert_eq!(p.at(2, 0), Cell::CurrentPlayer, "\n{:?}", p);
    assert_eq!(p.at(3, 0), Cell::OtherPlayer, "\n{:?}", p);

    p = p.play(1);
    assert_eq!(p.at(0, 0), Cell::OtherPlayer, "\n{:?}", p);
    assert_eq!(p.at(1, 0), Cell::CurrentPlayer, "\n{:?}", p);
    assert_eq!(p.at(2, 0), Cell::OtherPlayer, "\n{:?}", p);
    assert_eq!(p.at(3, 0), Cell::CurrentPlayer, "\n{:?}", p);
    assert_eq!(p.at(0, 1), Cell::OtherPlayer, "\n{:?}", p);

    p = p.play(WIDTH - 1);
    assert_eq!(p.at(0, 0), Cell::CurrentPlayer, "\n{:?}", p);
    assert_eq!(p.at(1, 0), Cell::OtherPlayer, "\n{:?}", p);
    assert_eq!(p.at(2, 0), Cell::CurrentPlayer, "\n{:?}", p);
    assert_eq!(p.at(3, 0), Cell::OtherPlayer, "\n{:?}", p);
    assert_eq!(p.at(0, 1), Cell::CurrentPlayer, "\n{:?}", p);
    assert_eq!(p.at(0, WIDTH - 1), Cell::OtherPlayer, "\n{:?}", p);
}

#[test]
fn test_is_valid_play() {
    let mut p = Position::new();
    for c in 0..WIDTH {
        for _ in 0..HEIGHT {
            assert!(p.is_valid_play(c));
            p = p.play(c);
        }
        assert!(!p.is_valid_play(c));
    }
}

fn assert_not_winning_play(p: Position, col_pos: u64) -> Position {
    assert!(!p.is_winning_play(col_pos), "\n{:?}", p);
    p.play(col_pos)
}

#[test]
fn test_is_winning_play() {
    let mut p = Position::new();
    p = assert_not_winning_play(p, 0);
    p = assert_not_winning_play(p, WIDTH - 1);
    p = assert_not_winning_play(p, 1);
    p = assert_not_winning_play(p, WIDTH - 1);
    p = assert_not_winning_play(p, 2);
    p = assert_not_winning_play(p, WIDTH - 1);
    assert!(p.is_winning_play(3), "\n{:?}", p); // horizontal
    p = p.play(4);
    assert!(p.is_winning_play(WIDTH - 1), "\n{:?}", p); // vertical

    p = Position::new();
    p = assert_not_winning_play(p, 3); // w
    p = assert_not_winning_play(p, 2);
    p = assert_not_winning_play(p, 2); // w
    p = assert_not_winning_play(p, 1);
    p = assert_not_winning_play(p, 0); // w
    p = assert_not_winning_play(p, 1);
    p = assert_not_winning_play(p, 1); // w
    p = assert_not_winning_play(p, 0);
    p = assert_not_winning_play(p, 5); // w
    p = assert_not_winning_play(p, 0);
    assert!(p.is_winning_play(0), "\n{:?}", p); // diagonal

    p = Position::new();
    p = assert_not_winning_play(p, 0); // w
    p = assert_not_winning_play(p, 1);
    p = assert_not_winning_play(p, 1); // w
    p = assert_not_winning_play(p, 2);
    p = assert_not_winning_play(p, 3); // w
    p = assert_not_winning_play(p, 2);
    p = assert_not_winning_play(p, 2); // w
    p = assert_not_winning_play(p, 3);
    p = assert_not_winning_play(p, 5); // w
    p = assert_not_winning_play(p, 3);
    assert!(p.is_winning_play(3), "\n{:?}", p); // anti diagonal
}

#[test]
fn test_is_draw() {}

#[test]
fn test_winning_mask() {
    assert_eq!(Position::new().winning_mask(), 0);
    // .  .  .  .  .  .  .
    // 5 12 19 26 33 40 47
    // 4 11 18 25 32 39 46
    // 3 10 17 24 31 38 45
    // r  y 16 23 30 37 44
    // r  y 15 22 29 36 43
    // r  y 14 21 28 35 42
    let expected_vertical_mask = 0b1000;
    let vertical_win = Position::parse("121212").unwrap();
    assert_ne!(vertical_win.winning_mask(), 0);
    assert_eq!(vertical_win.winning_mask(), expected_vertical_mask);
    // .  .  .  .  .  .  .
    // 5 12 19 26 33 40 47
    // 4 11 18 25 32 39 46
    // 3 10 17 24 31 38 45
    // y  9 16 23 30 37 44
    // y  8 15 22 29 36 43
    // y  7 r  r  r  35 42
    let expected_horizontal_mask = 0b100000000000000000000000000010000000;
    let horizontal_win = Position::parse("413151").unwrap();
    assert_ne!(horizontal_win.winning_mask(), 0);
    assert_eq!(horizontal_win.winning_mask(), expected_horizontal_mask);
}

#[test]
fn test_from_slice() {
    let p = Position::from_plays(&[0, 1, 2][..]);
    assert_eq!(p.at(0, 0), Cell::OtherPlayer, "\n{:?}", p);
    assert_eq!(p.at(0, 1), Cell::CurrentPlayer, "\n{:?}", p);
    assert_eq!(p.at(0, 2), Cell::OtherPlayer, "\n{:?}", p);

    let p = Position::from_plays(&[0, 0, 0][..]);
    assert_eq!(p.at(0, 0), Cell::OtherPlayer, "\n{:?}", p);
    assert_eq!(p.at(1, 0), Cell::CurrentPlayer, "\n{:?}", p);
    assert_eq!(p.at(2, 0), Cell::OtherPlayer, "\n{:?}", p);
}

#[test]
fn test_from_str() {
    let p = Position::parse("123").unwrap();
    assert_eq!(p.at(0, 0), Cell::OtherPlayer, "\n{:?}", p);
    assert_eq!(p.at(0, 1), Cell::CurrentPlayer, "\n{:?}", p);
    assert_eq!(p.at(0, 2), Cell::OtherPlayer, "\n{:?}", p);

    let p = Position::parse("111").unwrap();
    assert_eq!(p.at(0, 0), Cell::OtherPlayer, "\n{:?}", p);
    assert_eq!(p.at(1, 0), Cell::CurrentPlayer, "\n{:?}", p);
    assert_eq!(p.at(2, 0), Cell::OtherPlayer, "\n{:?}", p);
}

#[test]
fn test_parse_rejects_bad_characters() {
    assert_eq!(Position::parse("a"), Err(ParseError::BadChar { ch: 'a' }));
    assert_eq!(Position::parse("8"), Err(ParseError::BadChar { ch: '8' }));
    assert_eq!(Position::parse("0"), Err(ParseError::BadChar { ch: '0' }));
    assert_eq!(Position::parse("12x4"), Err(ParseError::BadChar { ch: 'x' }));
}

#[test]
fn test_parse_rejects_full_column() {
    // a seventh stone cannot land in the first column
    assert_eq!(
        Position::parse("1111111"),
        Err(ParseError::FullColumn { col: 0 })
    );
    assert!(Position::parse("111111").is_ok());
}

#[test]
fn test_notation_agrees_with_replay() {
    // replaying via the notation parser yields the same key as direct
    // sequential play with 0-based columns
    let by_str = Position::parse("44455554221").unwrap();
    let by_play = Position::from_plays(&[3, 3, 3, 4, 4, 4, 4, 3, 1, 1, 0][..]);
    assert_eq!(by_str.key(), by_play.key());
    assert_eq!(by_str.play_count, by_play.play_count);

    let mut direct = Position::new();
    for c in [0u64, 1, 2, 3, 4, 5, 6] {
        direct = direct.play(c);
    }
    assert_eq!(Position::parse("1234567").unwrap().key(), direct.key());
}

#[test]
fn test_score_counts_winning_cells() {
    // three stacked stones expose exactly one winning cell above them
    let p = Position::parse("121212").unwrap();
    assert_eq!(p.score(), 1);
    assert_eq!(Position::new().score(), 0);
    // three in a row on the floor with both ends open expose two
    let p = Position::parse("415262").unwrap();
    assert_eq!(p.score(), 2);
}

#[test]
fn test_non_losing_mask_blocks_single_threat() {
    // the opponent threatens one cell: the mover is forced to block it
    let p = Position::from_plays(&[0, 1, 6, 2, 5, 3][..]);
    assert_eq!(p.possible_non_losing_play_mask(), 1u64 << (4 * 7));
    let blocked = p.play(4);
    assert!(!blocked.can_win_next());
}

#[test]
fn test_non_losing_mask_empty_iff_all_moves_lose() {
    // two opponent threats at once: every legal move hands the opponent an
    // immediate win
    let p = Position::from_plays(&[0, 2, 0, 3, 6, 4][..]);
    assert_eq!(p.possible_non_losing_play_mask(), 0);
    for c in 0..WIDTH {
        if p.is_valid_play(c) && !p.is_winning_play(c) {
            assert!(p.play(c).can_win_next());
        }
    }
}
