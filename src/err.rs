//! The error taxonomy shared by every stage: each error carries its
//! traditional IE code and the source line where it was raised.

use vstd::prelude::*;

verus! {

/// The kinds of error that a program can run into.
#[derive(Clone, Copy, PartialEq, Eq, Structural, Debug)]
pub enum ErrCode {
    /// A statement that could not be decoded.
    IE000,
    /// Too few statements say PLEASE.
    IE079,
    /// Too many statements say PLEASE.
    IE099,
    /// The NEXT stack is full.
    IE123,
    /// A NEXT to a label that does not exist.
    IE129,
    /// An ABSTAIN or REINSTATE of a label that does not exist.
    IE139,
    /// A label used on more than one statement.
    IE182,
    /// A subscript out of range, or of the wrong arity.
    IE241,
    /// A value too wide for a 16-bit destination.
    IE275,
    /// A RETRIEVE with nothing stashed.
    IE436,
    /// A COME FROM aimed at a label that does not exist.
    IE444,
    /// A mingle operand wider than 16 bits.
    IE533,
    /// More than one COME FROM aimed at one label.
    IE555,
    /// Input was asked for and none was there.
    IE562,
    /// A RESUME or FORGET of zero entries.
    IE621,
    /// A RESUME past the bottom of the NEXT stack.
    IE632,
    /// Execution ran past the last statement.
    IE663,
    /// The deliberate compiler bug.
    IE774,
}

impl ErrCode {
    /// The numeric IE code.
    pub fn number(&self) -> (r: u16)
        ensures
            r == self.number_spec(),
    {
        match self {
            ErrCode::IE000 => 0,
            ErrCode::IE079 => 79,
            ErrCode::IE099 => 99,
            ErrCode::IE123 => 123,
            ErrCode::IE129 => 129,
            ErrCode::IE139 => 139,
            ErrCode::IE182 => 182,
            ErrCode::IE241 => 241,
            ErrCode::IE275 => 275,
            ErrCode::IE436 => 436,
            ErrCode::IE444 => 444,
            ErrCode::IE533 => 533,
            ErrCode::IE555 => 555,
            ErrCode::IE562 => 562,
            ErrCode::IE621 => 621,
            ErrCode::IE632 => 632,
            ErrCode::IE663 => 663,
            ErrCode::IE774 => 774,
        }
    }

    pub open spec fn number_spec(&self) -> u16 {
        match self {
            ErrCode::IE000 => 0,
            ErrCode::IE079 => 79,
            ErrCode::IE099 => 99,
            ErrCode::IE123 => 123,
            ErrCode::IE129 => 129,
            ErrCode::IE139 => 139,
            ErrCode::IE182 => 182,
            ErrCode::IE241 => 241,
            ErrCode::IE275 => 275,
            ErrCode::IE436 => 436,
            ErrCode::IE444 => 444,
            ErrCode::IE533 => 533,
            ErrCode::IE555 => 555,
            ErrCode::IE562 => 562,
            ErrCode::IE621 => 621,
            ErrCode::IE632 => 632,
            ErrCode::IE663 => 663,
            ErrCode::IE774 => 774,
        }
    }

    /// The message of each code.
    pub open spec fn message_spec(&self) -> &'static str {
        match self {
            ErrCode::IE000 => "DO YOU EXPECT ME TO FIGURE THIS OUT?",
            ErrCode::IE079 => "PROGRAMMER IS INSUFFICIENTLY POLITE",
            ErrCode::IE099 => "PROGRAMMER IS OVERLY POLITE",
            ErrCode::IE123 => "PROGRAM HAS DISAPPEARED INTO THE BLACK LAGOON",
            ErrCode::IE129 => "PROGRAM HAS GOTTEN LOST",
            ErrCode::IE139 => "I WASN'T PLANNING TO GO THERE ANYWAY",
            ErrCode::IE182 => "YOU MUST LIKE THIS LABEL A LOT!",
            ErrCode::IE241 => "VARIABLES MAY NOT BE STORED IN WEST HYPERSPACE",
            ErrCode::IE275 => "DON'T BYTE OFF MORE THAN YOU CAN CHEW",
            ErrCode::IE436 => "THROW STICK BEFORE RETRIEVING!",
            ErrCode::IE444 => "IT CAME FROM BEYOND SPACE",
            ErrCode::IE533 => "YOU WANTED MAYBE WE SHOULD IMPLEMENT 64-BIT VARIABLES?",
            ErrCode::IE555 => "FLOW DIAGRAM IS EXCESSIVELY CONNECTED",
            ErrCode::IE562 => "I DO NOT COMPUTE",
            ErrCode::IE621 => "ERROR TYPE 621 ENCOUNTERED",
            ErrCode::IE632 => "THE NEXT STACK RUPTURED",
            ErrCode::IE663 => "PROGRAM FELL OFF THE EDGE",
            ErrCode::IE774 => "RANDOM COMPILER BUG",
        }
    }

    /// The message that goes with the code, as programs have always seen it.
    pub fn message(&self) -> (r: &'static str)
        ensures
            r == self.message_spec(),
    {
        match self {
            ErrCode::IE000 => "DO YOU EXPECT ME TO FIGURE THIS OUT?",
            ErrCode::IE079 => "PROGRAMMER IS INSUFFICIENTLY POLITE",
            ErrCode::IE099 => "PROGRAMMER IS OVERLY POLITE",
            ErrCode::IE123 => "PROGRAM HAS DISAPPEARED INTO THE BLACK LAGOON",
            ErrCode::IE129 => "PROGRAM HAS GOTTEN LOST",
            ErrCode::IE139 => "I WASN'T PLANNING TO GO THERE ANYWAY",
            ErrCode::IE182 => "YOU MUST LIKE THIS LABEL A LOT!",
            ErrCode::IE241 => "VARIABLES MAY NOT BE STORED IN WEST HYPERSPACE",
            ErrCode::IE275 => "DON'T BYTE OFF MORE THAN YOU CAN CHEW",
            ErrCode::IE436 => "THROW STICK BEFORE RETRIEVING!",
            ErrCode::IE444 => "IT CAME FROM BEYOND SPACE",
            ErrCode::IE533 => "YOU WANTED MAYBE WE SHOULD IMPLEMENT 64-BIT VARIABLES?",
            ErrCode::IE555 => "FLOW DIAGRAM IS EXCESSIVELY CONNECTED",
            ErrCode::IE562 => "I DO NOT COMPUTE",
            ErrCode::IE621 => "ERROR TYPE 621 ENCOUNTERED",
            ErrCode::IE632 => "THE NEXT STACK RUPTURED",
            ErrCode::IE663 => "PROGRAM FELL OFF THE EDGE",
            ErrCode::IE774 => "RANDOM COMPILER BUG",
        }
    }
}

/// An error, with the source line it belongs to (zero while not yet known).
#[derive(Clone, Copy, PartialEq, Eq, Structural, Debug)]
pub struct RtError {
    pub code: ErrCode,
    pub line: usize,
}

/// An error of the given kind, with no line yet.
pub fn new_err(code: ErrCode) -> (r: RtError)
    ensures
        r == (RtError { code, line: 0 }),
{
    RtError { code, line: 0 }
}

/// An error of the given kind on the given line.
pub fn with_line(code: ErrCode, line: usize) -> (r: RtError)
    ensures
        r == (RtError { code, line }),
{
    RtError { code, line }
}

impl RtError {
    /// Attaches a source line to the error.
    pub fn set_line(&mut self, line: usize)
        ensures
            *final(self) == (RtError { code: old(self).code, line }),
    {
        self.line = line;
    }

    /// The short form used when a statement is listed: `IE` and the
    /// three-digit code, as ASCII bytes.
    pub fn short_string(&self) -> (r: Vec<u8>)
        ensures
            r@ == seq![73u8, 69u8] + three_digits(self.code.number_spec() as nat),
    {
        let n = self.code.number();
        let mut s: Vec<u8> = Vec::new();
        s.push(73u8);
        s.push(69u8);
        s.push(48u8 + (n / 100) as u8);
        s.push(48u8 + ((n / 10) % 10) as u8);
        s.push(48u8 + (n % 10) as u8);
        proof {
            assert(s@ =~= seq![73u8, 69u8] + three_digits(n as nat));
        }
        s
    }
}

/// The three decimal digits of a number below one thousand, as ASCII.
pub open spec fn three_digits(n: nat) -> Seq<u8> {
    seq![(48 + n / 100) as u8, (48 + (n / 10) % 10) as u8, (48 + n % 10) as u8]
}

} // verus!
