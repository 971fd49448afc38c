use uttt::board::{Position, Side};

#[test]
fn test_bgn_bothways() {
    let move_list = "0, 1, 9, 4, 36, 7, 70, 71, 79, 67, 43, 63, 20, 21,\
                     31, 40, 37, 13, 38, 23, 49, 22, 10, 14, 52, 55, 11,\
                     50, 46, 30, 29, 27, 32, 33, 58, 78, 59, 72, 57";
    let pos = Position::from_move_list(move_list).unwrap();
    let bgn = pos.to_bgn();
    let pos1 = Position::from_bgn(&bgn).unwrap();
    println!("{}", pos.to_bgn());
    assert_eq!(pos.to_pretty_board(), pos1.to_pretty_board());
}

#[test]
fn bgn_roundtrip_startpos() {
    let pos = Position::new();
    let bgn = pos.to_bgn();
    assert_eq!(bgn, "2 0/0/0/0/0/0/0/0/0 0/0/0/0/0/0/0/0/0 9 X");
    let pos1 = Position::from_bgn(&bgn).unwrap();
    assert_eq!(pos.to_pretty_board(), pos1.to_pretty_board());
}

#[test]
fn compact_board_roundtrip_via_pretty() {
    static BOARD: &str = "O..|XX.|...\n\
     ...|.X.|...\n\
     ...|X.O|...\n\
     -----------\n\
     ...|...|...\n\
     O..|...|...\n\
     ...|...|...\n\
     -----------\n\
     ...|...|...\n\
     ...|...|...\n\
     ...|...|... 0";
    let pos = Position::from_compact_board(BOARD, Side::X, true).unwrap();
    // four X stones and three O stones: O moved last, X is to move
    assert_eq!(pos.side_to_move(), Side::O);
    let pretty = pos.to_pretty_board();
    assert_eq!(pretty.len(), 266);
}

#[test]
fn pretty_board_trailer_chars() {
    let pos = uttt::board::Position::new();
    let pretty = pos.to_pretty_board();
    assert_eq!(pretty.len(), 266);
    // the last line carries the side to move and the forced block
    assert_eq!(pretty.as_bytes()[263], b'X');
    assert_eq!(pretty.as_bytes()[264], b'-');
    let mut after = pos;
    after.make_move(40);
    let pretty2 = after.to_pretty_board();
    assert_eq!(pretty2.as_bytes()[263], b'O');
    assert_eq!(pretty2.as_bytes()[264], b'4');
    // cell (4, 4) is the centre of the centre block: row 4 starts after
    // four cell rows and one separator row, and the cell sits ninth in its
    // line, after four two-character cells and one bar
    assert_eq!(pretty2.as_bytes()[131], b'X');
}

#[test]
fn from_move_list_rejects_bad_text() {
    assert!(Position::from_move_list("banana").is_none());
    assert!(Position::from_move_list("").is_none());
    // the same cell twice is illegal on replay
    assert!(Position::from_move_list("0, 0").is_none());
    // out of range
    assert!(Position::from_move_list("99").is_none());
}

#[test]
fn from_bgn_rejects_bad_text() {
    assert!(Position::from_bgn("1 0/0/0/0/0/0/0/0/0 0/0/0/0/0/0/0/0/0 9 X").is_none());
    assert!(Position::from_bgn("2 0/0/0 0/0/0/0/0/0/0/0/0 9 X").is_none());
    // both sides on the same cell of an undecided block
    assert!(Position::from_bgn("2 1/0/0/0/0/0/0/0/0 1/0/0/0/0/0/0/0/0 9 X").is_none());
    // the forced block must be a single digit
    assert!(Position::from_bgn("2 0/0/0/0/0/0/0/0/0 0/0/0/0/0/0/0/0/0 77 X").is_none());
    // without captures the stone counts must come from alternating play
    assert!(Position::from_bgn("2 3/0/0/0/0/0/0/0/0 0/0/0/0/0/0/0/0/0 9 X").is_none());
}
