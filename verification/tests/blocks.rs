use flipull_advance_solver::{
    Block, Blocks, BlocksCol, BlocksRow, BlocksSquare, BLOCKS_COL_A, BLOCKS_COL_F, BLOCKS_ROW_1,
    BLOCKS_ROW_4, BLOCKS_ROW_6,
};

fn parse_blocks(s: &str) -> Blocks {
    Blocks::parse(s).unwrap()
}

#[test]
fn test_blocks_io() {
    let cases = [
        "......\n......\n......\n......\n......\n......\n",
        "1.1.1.\n111111\n222222\n333333\n444444\n444444\n",
    ];

    for case in cases {
        let blocks = parse_blocks(case);
        assert_eq!(blocks.to_text(), case);
    }
}

#[test]
fn test_blocks_do_move_hori() {
    assert_eq!(Blocks::new().do_move_hori(BLOCKS_ROW_1, Block::Normal1), None);

    let cases = [
        (
            "2.1111\n333311\n222222\n333333\n444444\n333333\n",
            BLOCKS_ROW_1,
            Block::Normal1,
            "1.....\n333311\n222222\n333333\n444444\n333333\n",
            Block::Normal2,
            BlocksSquare::SqB1,
        ),
        (
            "211111\n333311\n222222\n333333\n444444\n333333\n",
            BLOCKS_ROW_6,
            Block::Wild,
            "......\n211111\n333311\n222222\n333333\n444444\n",
            Block::Normal3,
            BlocksSquare::SqA6,
        ),
        (
            "......\n......\n222222\n333333\n344444\n411111\n",
            BLOCKS_ROW_4,
            Block::Normal3,
            "......\n......\n......\n.22222\n244444\n311111\n",
            Block::Normal4,
            BlocksSquare::SqA5,
        ),
    ];

    for (before, row, block, after, block_res, sq_res) in cases {
        let before = parse_blocks(before);
        let after = parse_blocks(after);
        assert_eq!(before.do_move_hori(row, block).unwrap(), (after, block_res, sq_res));
    }
}

#[test]
fn test_blocks_do_move_vert() {
    assert_eq!(Blocks::new().do_move_vert(BLOCKS_COL_A, Block::Normal1), None);

    let cases = [
        (
            ".....1\n....21\n...322\n..4322\n..4322\n..4322\n",
            BLOCKS_COL_F,
            Block::Normal1,
            "......\n....2.\n...321\n..4322\n..4322\n..4322\n",
            Block::Normal2,
            BlocksSquare::SqF2,
        ),
        (
            "......\n11....\n11....\n11....\n11222.\n112223\n",
            BLOCKS_COL_A,
            Block::Wild,
            "......\n.1....\n.1....\n.1....\n.1222.\n.12223\n",
            Block::Normal1,
            BlocksSquare::SqA6,
        ),
    ];

    for (before, col, block, after, block_res, sq_res) in cases {
        let before = parse_blocks(before);
        let after = parse_blocks(after);
        assert_eq!(before.do_move_vert(col, block).unwrap(), (after, block_res, sq_res));
    }
}

#[test]
fn test_empty_field_rejects_every_throw() {
    let empty = Blocks::new();
    for color in [
        Block::Normal1,
        Block::Normal2,
        Block::Normal3,
        Block::Normal4,
        Block::Wild,
    ] {
        for row in BlocksRow::all() {
            assert_eq!(empty.do_move_hori(row, color), None);
        }
        for col in BlocksCol::all() {
            assert_eq!(empty.do_move_vert(col, color), None);
        }
    }
}

#[test]
fn test_successful_move_shrinks_the_board() {
    let before = parse_blocks("2.1111\n333311\n222222\n333333\n444444\n333333\n");
    let (after, _, _) = before.do_move_hori(BLOCKS_ROW_1, Block::Normal1).unwrap();
    assert!(after.block_count() < before.block_count());
    assert!(after != before);
}

#[test]
fn test_square_identifiers() {
    let sq = BlocksSquare::new(BlocksCol::ColB, BlocksRow::Row1);
    assert_eq!(sq, BlocksSquare::SqB1);
    assert_eq!(sq.to_inner(), 2);
    assert_eq!(sq.col(), BlocksCol::ColB);
    assert_eq!(sq.row(), BlocksRow::Row1);
    assert_eq!(BlocksSquare::from_inner(36), Some(BlocksSquare::SqF6));
    assert_eq!(BlocksSquare::from_inner(0), None);
    assert_eq!(BlocksSquare::from_inner(37), None);
    assert!(BlocksSquare::is_valid(1));
    assert!(!BlocksSquare::is_valid(37));
}

#[test]
fn test_block_identifiers() {
    assert_eq!(Block::from_inner(1), Some(Block::Normal1));
    assert_eq!(Block::from_inner(5), Some(Block::Wild));
    assert_eq!(Block::from_inner(0), None);
    assert_eq!(Block::from_inner(6), None);
    assert!(Block::Wild.is_wild());
    assert!(!Block::Wild.is_normal());
    assert!(Block::Normal3.is_normal());
    assert!(Block::Wild.can_erase(Block::Normal2));
    assert!(Block::Normal2.can_erase(Block::Normal2));
    assert!(!Block::Normal2.can_erase(Block::Normal3));
    assert_eq!(Block::Normal4.to_inner(), 4);
}

#[test]
fn test_blocks_parse_rejects_bad_text() {
    // wild blocks have no place on the board
    assert!(Blocks::parse("5.....\n......\n......\n......\n......\n......\n").is_err());
    // wrong line count
    assert!(Blocks::parse("......\n......\n......\n......\n......\n").is_err());
    // wrong line length
    assert!(Blocks::parse(".....\n......\n......\n......\n......\n......\n").is_err());
    // invalid character
    assert!(Blocks::parse("#.....\n......\n......\n......\n......\n......\n").is_err());
}
