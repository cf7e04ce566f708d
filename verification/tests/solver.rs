use flipull_advance_solver::{solve_problem, MoveSrc, Problem, Solution, VerifyError};

fn parse_problem(s: &str) -> Problem {
    Problem::parse(s).unwrap()
}

const ONE_ROW: &str = "1 5\n\
                       ........\n\
                       ........\n\
                       ........\n\
                       ........\n\
                       ........\n\
                       ........\n\
                       ........\n\
                       ........\n\
                       ........\n\
                       ........\n\
                       ........\n\
                       1111....\n";

#[test]
fn test_solve_single_throw() {
    // Four blocks of the held color in the bottom row: one horizontal
    // throw erases them all.
    let problem = parse_problem(ONE_ROW);
    let (solution, cost) = solve_problem(&problem, false).unwrap();
    assert_eq!(solution.moves(), &[MoveSrc::Row11]);
    // no relocation, then a throw travelling five columns and falling no
    // further: minimum one plus five
    assert_eq!(cost, 6);
}

#[test]
fn test_solver_and_verify_agree() {
    let cases = [
        (ONE_ROW, false),
        (ONE_ROW, true),
        (
            "1 5\n\
             ........\n\
             ........\n\
             ........\n\
             ........\n\
             ........\n\
             ........\n\
             ........\n\
             ........\n\
             ........\n\
             ........\n\
             2.......\n\
             111.....\n",
            false,
        ),
        (
            "1 5\n\
             ........\n\
             ........\n\
             ........\n\
             ........\n\
             ........\n\
             ........\n\
             ........\n\
             ........\n\
             ........\n\
             ........\n\
             2.......\n\
             111.....\n",
            true,
        ),
    ];
    for (text, last_stage) in cases {
        let problem = parse_problem(text);
        if let Some((solution, cost)) = solve_problem(&problem, last_stage) {
            let replayed = solution.verify(&problem, last_stage).unwrap();
            assert_eq!(replayed, cost);
        }
    }
}

#[test]
fn test_solver_returns_the_cheapest_solution() {
    // A single block reachable both by the adjacent horizontal throw and
    // by a vertical drop after relocating: the solver must report the
    // cheaper of the two.
    let s = "1 5\n\
             ........\n\
             ........\n\
             ........\n\
             ........\n\
             ........\n\
             ........\n\
             ........\n\
             ........\n\
             ........\n\
             ........\n\
             ........\n\
             1.......\n";
    let problem = parse_problem(s);
    let (solution, cost) = solve_problem(&problem, false).unwrap();
    assert_eq!(solution.verify(&problem, false).unwrap(), cost);
    // the dearer alternative: walk one lane up and drop down column A
    let alternative = Solution::parse("10").unwrap();
    let alternative_cost = alternative.verify(&problem, false).unwrap();
    assert_eq!(alternative_cost, 9);
    assert!(cost <= alternative_cost);
    assert_eq!(cost, 6);
}

#[test]
fn test_unsolvable_reports_none() {
    // Five blocks the held color can never erase: every branch dies with
    // more than three blocks left.
    let s = "1 5\n\
             ........\n\
             ........\n\
             ........\n\
             ........\n\
             ........\n\
             ........\n\
             ........\n\
             ........\n\
             ........\n\
             ........\n\
             ........\n\
             22222...\n";
    let problem = parse_problem(s);
    assert!(solve_problem(&problem, false).is_none());
}

#[test]
fn test_already_solved_puzzle() {
    // Two blocks the held color cannot touch: the puzzle starts stuck with
    // at most three blocks left, so the empty sequence solves it. In
    // normal mode the auto-clear charge per block is all that is paid; on
    // the last stage nothing is.
    let s = "1 5\n\
             ........\n\
             ........\n\
             ........\n\
             ........\n\
             ........\n\
             ........\n\
             ........\n\
             ........\n\
             ........\n\
             ........\n\
             ........\n\
             22......\n";
    let problem = parse_problem(s);

    let (solution, cost) = solve_problem(&problem, false).unwrap();
    assert_eq!(solution.moves().len(), 0);
    assert_eq!(cost, 2);
    assert_eq!(solution.verify(&problem, false).unwrap(), cost);

    let (solution, cost) = solve_problem(&problem, true).unwrap();
    assert_eq!(solution.moves().len(), 0);
    assert_eq!(cost, 0);
    assert_eq!(solution.verify(&problem, true).unwrap(), cost);
}

#[test]
fn test_verify_errors() {
    let problem = parse_problem(ONE_ROW);

    // the sequence ends while a move still works
    assert_eq!(
        Solution::parse("").unwrap().verify(&problem, false),
        Err(VerifyError::NotStuck)
    );

    // lane 0 first drops down the empty column A, clearing nothing the
    // final check could accept; the second lane 0 throw meets an empty
    // column and is rejected
    assert_eq!(
        Solution::parse("0 0").unwrap().verify(&problem, false),
        Err(VerifyError::RejectedMove { index: 1 })
    );

    // a lane with no move in the fixed list
    let gapped = parse_problem(
        "2 33\n\
         #####...\n\
         ##......\n\
         #.......\n\
         ........\n\
         ........\n\
         ........\n\
         31143...\n\
         22224.|.\n\
         33442...\n\
         42222.|.\n\
         34424...\n\
         13334...\n",
    );
    assert_eq!(
        Solution::parse("0").unwrap().verify(&gapped, false),
        Err(VerifyError::UnknownLane { index: 0 })
    );

    // a puzzle granting no moves at all
    let spent = parse_problem(
        "1 0\n\
         ........\n\
         ........\n\
         ........\n\
         ........\n\
         ........\n\
         ........\n\
         ........\n\
         ........\n\
         ........\n\
         ........\n\
         ........\n\
         1111....\n",
    );
    assert_eq!(
        Solution::parse("11").unwrap().verify(&spent, false),
        Err(VerifyError::OutOfMoves { index: 0 })
    );

    // stuck, but too many blocks remain
    let stuck = parse_problem(
        "1 5\n\
         ........\n\
         ........\n\
         ........\n\
         ........\n\
         ........\n\
         ........\n\
         ........\n\
         ........\n\
         ........\n\
         ........\n\
         ........\n\
         22222...\n",
    );
    assert_eq!(
        Solution::parse("").unwrap().verify(&stuck, false),
        Err(VerifyError::NotSolved)
    );
}

#[test]
fn test_verify_last_stage_costing() {
    // On the last stage the final throw costs the fixed constant instead
    // of its travel cost, and no auto-clear is charged.
    let problem = parse_problem(ONE_ROW);
    let (solution, cost) = solve_problem(&problem, true).unwrap();
    assert_eq!(solution.verify(&problem, true).unwrap(), cost);
    // the single throw is the final throw: its travel cost collapses to 1
    assert_eq!(cost, 1);
}

#[test]
fn test_solution_io() {
    let solution = Solution::parse("11 10  0\n").unwrap();
    assert_eq!(
        solution.moves(),
        &[MoveSrc::Row11, MoveSrc::Row10, MoveSrc::Row0]
    );
    assert_eq!(solution.to_text(), "11 10 0");
    assert!(Solution::parse("11 x").is_err());
    assert!(Solution::parse("12").is_err());
    assert_eq!(Solution::parse("").unwrap().moves().len(), 0);
}
