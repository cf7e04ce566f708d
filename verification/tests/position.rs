use flipull_advance_solver::{
    calc_hero_move_cost, calc_move_cost, BlocksSquare, Move, MoveDst, MoveSrc, ParseError,
    Position, BLOCKS_COL_A, BLOCKS_ROW_4, MOVE_SRC_ROW_11, MOVE_SRC_ROW_5, MOVE_SRC_ROW_6,
    MOVE_SRC_ROW_9,
};

fn parse_position(s: &str) -> Position {
    Position::parse(s).unwrap()
}

#[test]
fn position_test_io() {
    let cases = [
        "0 1 10\n......\n......\n......\n......\n......\n......\n",
        "11 5 10\n1.1.1.\n111111\n222222\n333333\n444444\n444444\n",
    ];

    for case in cases {
        let pos = parse_position(case);
        assert_eq!(pos.to_text(), case);
    }
}

#[test]
fn test_do_move() {
    let cases = [
        (
            "11 3 5\n......\n......\n222222\n333333\n344444\n311111\n",
            Move::new(MOVE_SRC_ROW_9, MoveDst::Horizontal(BLOCKS_ROW_4)),
            "9 3 4\n......\n......\n......\n.22222\n.44444\n211111\n",
        ),
        (
            "0 1 5\n......\n11....\n11....\n11....\n11222.\n312223\n",
            Move::new(MOVE_SRC_ROW_5, MoveDst::Vertical(BLOCKS_COL_A)),
            "5 3 4\n......\n.1....\n.1....\n.1....\n.1222.\n112223\n",
        ),
    ];

    for (before, mv, after) in cases {
        let before = parse_position(before);
        let after = parse_position(after);
        let (after_actual, _, _) = before.do_move(mv).unwrap();
        assert_eq!(after_actual, after);
    }
}

#[test]
fn test_do_move_costs() {
    // The thrower walks two lanes down and throws into an adjacent full
    // row; the throw runs the whole row and falls to the bottom corner.
    let pos = parse_position("11 3 5\n......\n......\n222222\n333333\n344444\n311111\n");
    let mv = Move::new(MOVE_SRC_ROW_9, MoveDst::Horizontal(BLOCKS_ROW_4));
    let (_, cost, cost_throw) = pos.do_move(mv).unwrap();
    // relocation: two lanes at two units each
    assert_eq!(calc_hero_move_cost(MOVE_SRC_ROW_11, MOVE_SRC_ROW_9), 4);
    // throw: minimum one, plus five columns, plus two rows of falling
    assert_eq!(cost_throw, 8);
    assert_eq!(cost, 12);
}

#[test]
fn test_calc_move_cost_values() {
    // Straight into the nearest square of the level row: the fixed minimum.
    assert_eq!(calc_move_cost(MOVE_SRC_ROW_6, BlocksSquare::SqF1), 1);
    // Four squares further along the same row.
    assert_eq!(calc_move_cost(MOVE_SRC_ROW_6, BlocksSquare::SqB1), 5);
    // Thrown from the top lane, landing at the bottom of column A.
    assert_eq!(calc_move_cost(MoveSrc::Row0, BlocksSquare::SqA6), 17);
    assert_eq!(calc_hero_move_cost(MOVE_SRC_ROW_5, MOVE_SRC_ROW_5), 0);
    assert_eq!(calc_hero_move_cost(MoveSrc::Row0, MOVE_SRC_ROW_11), 22);
}

#[test]
fn test_position_parse_errors() {
    // no header line at all
    assert_eq!(Position::parse("0 1 10"), Err(ParseError::MissingHeader));
    // wrong token count
    assert_eq!(
        Position::parse("0 1\n......\n......\n......\n......\n......\n......\n"),
        Err(ParseError::WrongTokenCount { expected: 3, found: 2 })
    );
    // non-numeric token
    assert_eq!(
        Position::parse("x 1 10\n......\n......\n......\n......\n......\n......\n"),
        Err(ParseError::BadNumber { token: 0 })
    );
    // a number too large for its field
    assert_eq!(
        Position::parse("999 1 10\n......\n......\n......\n......\n......\n......\n"),
        Err(ParseError::BadNumber { token: 0 })
    );
    // lane out of range
    assert_eq!(
        Position::parse("12 1 10\n......\n......\n......\n......\n......\n......\n"),
        Err(ParseError::OutOfRange { token: 0 })
    );
    // held block out of range
    assert_eq!(
        Position::parse("0 6 10\n......\n......\n......\n......\n......\n......\n"),
        Err(ParseError::OutOfRange { token: 1 })
    );
    // too few grid lines
    assert_eq!(
        Position::parse("0 1 10\n......\n......\n......\n......\n......\n"),
        Err(ParseError::WrongLineCount { expected: 6, found: 5 })
    );
    // a short grid line
    assert_eq!(
        Position::parse("0 1 10\n......\n.....\n......\n......\n......\n......\n"),
        Err(ParseError::WrongLineLength { line: 1, expected: 6, found: 5 })
    );
    // an invalid grid character
    assert_eq!(
        Position::parse("0 1 10\n......\n...7..\n......\n......\n......\n......\n"),
        Err(ParseError::BadChar { line: 1, column: 3, ch: '7' })
    );
}

#[test]
fn test_error_messages() {
    assert_eq!(ParseError::MissingHeader.message(), "the header line is missing");
    assert_eq!(
        ParseError::OutOfRange { token: 1 }.message(),
        "token 1 is out of range"
    );
    assert_eq!(
        ParseError::WrongLineCount { expected: 6, found: 15 }.message(),
        "wrong number of lines: expected 6, found 15"
    );
}

#[test]
fn test_position_accessors() {
    let pos = parse_position("7 2 33\n......\n......\n......\n......\n......\n111111\n");
    assert_eq!(pos.hero_row(), MoveSrc::Row7);
    assert_eq!(pos.block_holding().to_inner(), 2);
    assert_eq!(pos.move_remain(), 33);
    assert_eq!(pos.block_count(), 6);
}
