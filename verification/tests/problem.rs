use flipull_advance_solver::{
    Move, MoveDst, ParseError, Position, Problem, ProblemError, BLOCKS_COL_A, BLOCKS_COL_B,
    BLOCKS_COL_C, BLOCKS_ROW_1, BLOCKS_ROW_3, BLOCKS_ROW_5, BLOCKS_ROW_6, MOVE_SRC_ROW_1,
    MOVE_SRC_ROW_10, MOVE_SRC_ROW_11, MOVE_SRC_ROW_2, MOVE_SRC_ROW_3, MOVE_SRC_ROW_4,
    MOVE_SRC_ROW_5, MOVE_SRC_ROW_6, MOVE_SRC_ROW_8,
};

fn parse_problem(s: &str) -> Problem {
    Problem::parse(s).unwrap()
}

fn parse_position(s: &str) -> Position {
    Position::parse(s).unwrap()
}

#[test]
fn problem_test_io() {
    let s = "2 33\n\
             #####...\n\
             ##......\n\
             #.......\n\
             ........\n\
             ........\n\
             ........\n\
             311432..\n\
             222242|.\n\
             334422..\n\
             422224|.\n\
             344244..\n\
             133344..\n";

    let problem = parse_problem(s);
    assert_eq!(problem.to_text(), s);
}

#[test]
fn test_to_position_and_moves() {
    let s_problem = "2 33\n\
                     #####...\n\
                     ##......\n\
                     #.......\n\
                     ........\n\
                     ........\n\
                     ........\n\
                     31143...\n\
                     22224.|.\n\
                     33442...\n\
                     42222.|.\n\
                     34424...\n\
                     13334...\n";

    let s_pos = "11 2 33\n\
                 31143.\n\
                 22224.\n\
                 33442.\n\
                 42222.\n\
                 34424.\n\
                 13334.\n";

    let problem = parse_problem(s_problem);
    let pos = parse_position(s_pos);
    let moves = vec![
        Move::new(MOVE_SRC_ROW_11, MoveDst::Horizontal(BLOCKS_ROW_6)),
        Move::new(MOVE_SRC_ROW_10, MoveDst::Horizontal(BLOCKS_ROW_5)),
        Move::new(MOVE_SRC_ROW_8, MoveDst::Horizontal(BLOCKS_ROW_3)),
        Move::new(MOVE_SRC_ROW_6, MoveDst::Horizontal(BLOCKS_ROW_1)),
        Move::new(MOVE_SRC_ROW_5, MoveDst::Vertical(BLOCKS_COL_A)),
        Move::new(MOVE_SRC_ROW_4, MoveDst::Vertical(BLOCKS_COL_A)),
        Move::new(MOVE_SRC_ROW_3, MoveDst::Vertical(BLOCKS_COL_A)),
        Move::new(MOVE_SRC_ROW_2, MoveDst::Vertical(BLOCKS_COL_B)),
        Move::new(MOVE_SRC_ROW_1, MoveDst::Vertical(BLOCKS_COL_C)),
    ];

    assert_eq!(problem.to_position_and_moves(), (pos, moves));
}

#[test]
fn test_to_position_and_moves_is_pure() {
    let s = "2 33\n\
             #####...\n\
             ##......\n\
             #.......\n\
             ........\n\
             ........\n\
             ........\n\
             31143...\n\
             22224.|.\n\
             33442...\n\
             42222.|.\n\
             34424...\n\
             13334...\n";
    let problem = parse_problem(s);
    let first = problem.to_position_and_moves();
    let second = problem.to_position_and_moves();
    assert_eq!(first, second);
}

#[test]
fn test_pipe_exposes_column() {
    // A pipe in lane 3 stops the throw one column short; a block sits below
    // that column inside the block field, so the lane drops vertically into
    // it rather than throwing horizontally or dying.
    let s = "1 5\n\
             ........\n\
             ........\n\
             ........\n\
             .|......\n\
             ........\n\
             ........\n\
             ........\n\
             ........\n\
             ..1.....\n\
             ..1.....\n\
             ..1.....\n\
             ..111...\n";
    let problem = parse_problem(s);
    let (_, moves) = problem.to_position_and_moves();
    let lane3: Vec<&Move> = moves.iter().filter(|m| m.src() == MOVE_SRC_ROW_3).collect();
    assert_eq!(lane3.len(), 1);
    assert_eq!(lane3[0].dst(), MoveDst::Vertical(BLOCKS_COL_C));
}

#[test]
fn test_problem_constraints() {
    // a wild block inside the block area
    let bad_area = "1 5\n\
                    ........\n\
                    ........\n\
                    ........\n\
                    ........\n\
                    ........\n\
                    ........\n\
                    ........\n\
                    ........\n\
                    ........\n\
                    ........\n\
                    ........\n\
                    5.......\n";
    assert_eq!(
        Problem::parse(bad_area),
        Err(ParseError::Constraint(ProblemError::BadAreaTile { col: 0, row: 11 }))
    );

    // a block outside the block area
    let outside = "1 5\n\
                   ........\n\
                   ........\n\
                   ........\n\
                   ...1....\n\
                   ........\n\
                   ........\n\
                   ........\n\
                   ........\n\
                   ........\n\
                   ........\n\
                   ........\n\
                   ........\n";
    assert_eq!(
        Problem::parse(outside),
        Err(ParseError::Constraint(ProblemError::BlockOutsideArea { col: 3, row: 3 }))
    );

    // a wall with nothing above it
    let floating = "1 5\n\
                    ........\n\
                    ........\n\
                    ......#.\n\
                    ........\n\
                    ........\n\
                    ........\n\
                    ........\n\
                    ........\n\
                    ........\n\
                    ........\n\
                    ........\n\
                    ........\n";
    assert_eq!(
        Problem::parse(floating),
        Err(ParseError::Constraint(ProblemError::FloatingWall { col: 6, row: 2 }))
    );

    // walls stacked from the top edge are fine
    let walled = "1 5\n\
                  ......#.\n\
                  ......#.\n\
                  ......#.\n\
                  ........\n\
                  ........\n\
                  ........\n\
                  ........\n\
                  ........\n\
                  ........\n\
                  ........\n\
                  ........\n\
                  ........\n";
    assert!(Problem::parse(walled).is_ok());
}

#[test]
fn test_problem_accessors() {
    let s = "2 33\n\
             ........\n\
             ........\n\
             ........\n\
             ........\n\
             ........\n\
             ........\n\
             ........\n\
             ........\n\
             ........\n\
             ........\n\
             ........\n\
             111.....\n";
    let problem = parse_problem(s);
    assert_eq!(problem.block_holding().to_inner(), 2);
    assert_eq!(problem.move_remain(), 33);
    assert!(problem.board().get(0, 11).unwrap().is_block());
    assert!(problem.board().get(0, 0).is_none());
}
