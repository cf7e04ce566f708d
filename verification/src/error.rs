//! Error types: malformed text, puzzle layouts that break the ADVANCE-mode
//! board rules, and failures while replaying a solution.

use vstd::prelude::*;

use crate::text::{append_dec, dec_digits};

verus! {

/// A syntactically valid puzzle board that violates the ADVANCE-mode
/// construction rules. Coordinates name the offending tile.
#[derive(Clone, Copy, Debug, Eq, PartialEq)]
pub enum ProblemError {
    /// A tile inside the bottom-left 6x6 block area is neither empty nor a
    /// normal block.
    BadAreaTile { col: usize, row: usize },
    /// A block tile outside the 6x6 block area.
    BlockOutsideArea { col: usize, row: usize },
    /// A wall tile with neither the board's top edge nor another wall
    /// directly above it.
    FloatingWall { col: usize, row: usize },
}

/// Malformed text handed to one of the parsers. Indices locate the
/// offending line, column, or whitespace-separated token.
#[derive(Clone, Copy, Debug, Eq, PartialEq)]
pub enum ParseError {
    /// The header line is missing entirely.
    MissingHeader,
    /// The header holds the wrong number of tokens.
    WrongTokenCount { expected: usize, found: usize },
    /// A token that should be a number is not one, or does not fit.
    BadNumber { token: usize },
    /// A numeric token outside its field's valid range.
    OutOfRange { token: usize },
    /// The body has the wrong number of lines.
    WrongLineCount { expected: usize, found: usize },
    /// A body line has the wrong number of characters.
    WrongLineLength { line: usize, expected: usize, found: usize },
    /// A character that encodes no tile or block.
    BadChar { line: usize, column: usize, ch: char },
    /// The text was well formed but the board breaks a construction rule.
    Constraint(ProblemError),
}

/// A failure while replaying a solution against a problem.
#[derive(Clone, Copy, Debug, Eq, PartialEq)]
pub enum VerifyError {
    /// The move at `index` was attempted with no budget left.
    OutOfMoves { index: usize },
    /// The lane at `index` has no move in the puzzle's fixed move list.
    UnknownLane { index: usize },
    /// The move at `index` had no effect on the board.
    RejectedMove { index: usize },
    /// After the full sequence some move still has an effect: the sequence
    /// is not maximal.
    NotStuck,
    /// More than three blocks remain: the board is not solved.
    NotSolved,
}


impl ProblemError {
    /// The wording of this error.
    pub open spec fn spec_message(self) -> Seq<char> {
        match self {
            ProblemError::BadAreaTile { col, row } => {
                "the block area allows only empty tiles and normal blocks: column "@ + dec_digits(
                    col as int,
                ) + ", row "@ + dec_digits(row as int)
            },
            ProblemError::BlockOutsideArea { col, row } => {
                "a block stands outside the block area: column "@ + dec_digits(col as int)
                    + ", row "@ + dec_digits(row as int)
            },
            ProblemError::FloatingWall { col, row } => {
                "a wall has neither the top edge nor a wall above it: column "@ + dec_digits(
                    col as int,
                ) + ", row "@ + dec_digits(row as int)
            },
        }
    }

    /// A description of this error.
    pub fn message(&self) -> (r: String)
        ensures
            r@ == self.spec_message(),
    {
        let mut out = String::new();
        match *self {
            ProblemError::BadAreaTile { col, row } => {
                out.append("the block area allows only empty tiles and normal blocks: column ");
                append_dec(&mut out, col as u64);
                out.append(", row ");
                append_dec(&mut out, row as u64);
            },
            ProblemError::BlockOutsideArea { col, row } => {
                out.append("a block stands outside the block area: column ");
                append_dec(&mut out, col as u64);
                out.append(", row ");
                append_dec(&mut out, row as u64);
            },
            ProblemError::FloatingWall { col, row } => {
                out.append("a wall has neither the top edge nor a wall above it: column ");
                append_dec(&mut out, col as u64);
                out.append(", row ");
                append_dec(&mut out, row as u64);
            },
        }
        proof {
            assert(out@ =~= self.spec_message());
        }
        out
    }
}

impl ParseError {
    /// The wording of this error.
    pub open spec fn spec_message(self) -> Seq<char> {
        match self {
            ParseError::MissingHeader => "the header line is missing"@,
            ParseError::WrongTokenCount { expected, found } => {
                "wrong number of header tokens: expected "@ + dec_digits(expected as int)
                    + ", found "@ + dec_digits(found as int)
            },
            ParseError::BadNumber { token } => {
                "token "@ + dec_digits(token as int) + " is not a number that fits"@
            },
            ParseError::OutOfRange { token } => {
                "token "@ + dec_digits(token as int) + " is out of range"@
            },
            ParseError::WrongLineCount { expected, found } => {
                "wrong number of lines: expected "@ + dec_digits(expected as int) + ", found "@
                    + dec_digits(found as int)
            },
            ParseError::WrongLineLength { line, expected, found } => {
                "wrong length of line "@ + dec_digits(line as int) + ": expected "@ + dec_digits(
                    expected as int,
                ) + ", found "@ + dec_digits(found as int)
            },
            ParseError::BadChar { line, column, ch } => {
                "invalid character at line "@ + dec_digits(line as int) + ", column "@
                    + dec_digits(column as int)
            },
            ParseError::Constraint(e) => "board rule violated: "@ + e.spec_message(),
        }
    }

    /// A description of this error.
    pub fn message(&self) -> (r: String)
        ensures
            r@ == self.spec_message(),
    {
        let mut out = String::new();
        match *self {
            ParseError::MissingHeader => {
                out.append("the header line is missing");
            },
            ParseError::WrongTokenCount { expected, found } => {
                out.append("wrong number of header tokens: expected ");
                append_dec(&mut out, expected as u64);
                out.append(", found ");
                append_dec(&mut out, found as u64);
            },
            ParseError::BadNumber { token } => {
                out.append("token ");
                append_dec(&mut out, token as u64);
                out.append(" is not a number that fits");
            },
            ParseError::OutOfRange { token } => {
                out.append("token ");
                append_dec(&mut out, token as u64);
                out.append(" is out of range");
            },
            ParseError::WrongLineCount { expected, found } => {
                out.append("wrong number of lines: expected ");
                append_dec(&mut out, expected as u64);
                out.append(", found ");
                append_dec(&mut out, found as u64);
            },
            ParseError::WrongLineLength { line, expected, found } => {
                out.append("wrong length of line ");
                append_dec(&mut out, line as u64);
                out.append(": expected ");
                append_dec(&mut out, expected as u64);
                out.append(", found ");
                append_dec(&mut out, found as u64);
            },
            ParseError::BadChar { line, column, ch: _ } => {
                out.append("invalid character at line ");
                append_dec(&mut out, line as u64);
                out.append(", column ");
                append_dec(&mut out, column as u64);
            },
            ParseError::Constraint(e) => {
                out.append("board rule violated: ");
                let inner = e.message();
                out.append(inner.as_str());
            },
        }
        proof {
            assert(out@ =~= self.spec_message());
        }
        out
    }
}

impl VerifyError {
    /// The wording of this error.
    pub open spec fn spec_message(self) -> Seq<char> {
        match self {
            VerifyError::OutOfMoves { index } => {
                "move "@ + dec_digits(index as int) + " comes with no budget left"@
            },
            VerifyError::UnknownLane { index } => {
                "move "@ + dec_digits(index as int) + " names no move of the puzzle"@
            },
            VerifyError::RejectedMove { index } => {
                "move "@ + dec_digits(index as int) + " has no effect on the board"@
            },
            VerifyError::NotStuck => "a move still has an effect after the full sequence"@,
            VerifyError::NotSolved => "more than three blocks remain on the board"@,
        }
    }

    /// A description of this error.
    pub fn message(&self) -> (r: String)
        ensures
            r@ == self.spec_message(),
    {
        let mut out = String::new();
        match *self {
            VerifyError::OutOfMoves { index } => {
                out.append("move ");
                append_dec(&mut out, index as u64);
                out.append(" comes with no budget left");
            },
            VerifyError::UnknownLane { index } => {
                out.append("move ");
                append_dec(&mut out, index as u64);
                out.append(" names no move of the puzzle");
            },
            VerifyError::RejectedMove { index } => {
                out.append("move ");
                append_dec(&mut out, index as u64);
                out.append(" has no effect on the board");
            },
            VerifyError::NotStuck => {
                out.append("a move still has an effect after the full sequence");
            },
            VerifyError::NotSolved => {
                out.append("more than three blocks remain on the board");
            },
        }
        proof {
            assert(out@ =~= self.spec_message());
        }
        out
    }
}

} // verus!
