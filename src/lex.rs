//! The token stream: a scanner over source bytes with the INTERCAL token
//! vocabulary, and a buffered reader of it with look-ahead and push-back.

use vstd::prelude::*;

verus! {

/// A source line number.
pub type SrcLine = usize;

/// A token and the source line it starts on.
#[derive(Clone, Copy, PartialEq, Eq, Structural, Debug)]
pub struct Token(pub TT, pub SrcLine);

/// The kinds of token.
#[derive(Clone, Copy, PartialEq, Eq, Structural, Debug)]
pub enum TT {
    /// Any other non-blank byte.
    UNKNOWN,
    /// An integer literal (saturated at the largest 32-bit value).
    NUMBER(u32),
    WAX,
    WANE,
    DO,
    PLEASEDO,
    NOT,
    SPOT,
    TWOSPOT,
    TAIL,
    HYBRID,
    WOW,
    MESH,
    SPARK,
    RABBITEARS,
    MONEY,
    SQUIGGLE,
    AMPERSAND,
    BOOK,
    WHAT,
    GETS,
    SUB,
    BY,
    OHOHSEVEN,
    INTERSECTION,
    FROM,
    NEXT,
    RESUME,
    FORGET,
    IGNORE,
    REMEMBER,
    STASH,
    RETRIEVE,
    ABSTAIN,
    REINSTATE,
    COMEFROM,
    READOUT,
    WRITEIN,
    TRYAGAIN,
    GIVEUP,
    CALCULATING,
    NEXTING,
    RESUMING,
    IGNORING,
    FORGETTING,
    REMEMBERING,
    STASHING,
    RETRIEVING,
    ABSTAINING,
    REINSTATING,
    COMINGFROM,
    READINGOUT,
    WRITINGIN,
    TRYINGAGAIN,
}

/// The number of rules in the token table.
pub const NRULES: usize = 59;

/// Rule `k` of the token table: a word, an optional second word that
/// may follow after blanks and newlines, and the token they make.
pub open spec fn rule(k: int) -> (Seq<u8>, Seq<u8>, TT) {
    if k == 0 {
        (seq![80u8, 76u8, 69u8, 65u8, 83u8, 69u8], seq![68u8, 79u8], TT::PLEASEDO)
    } else if k == 1 {
        (seq![67u8, 79u8, 77u8, 69u8], seq![70u8, 82u8, 79u8, 77u8], TT::COMEFROM)
    } else if k == 2 {
        (seq![82u8, 69u8, 65u8, 68u8], seq![79u8, 85u8, 84u8], TT::READOUT)
    } else if k == 3 {
        (seq![87u8, 82u8, 73u8, 84u8, 69u8], seq![73u8, 78u8], TT::WRITEIN)
    } else if k == 4 {
        (seq![84u8, 82u8, 89u8], seq![65u8, 71u8, 65u8, 73u8, 78u8], TT::TRYAGAIN)
    } else if k == 5 {
        (seq![71u8, 73u8, 86u8, 69u8], seq![85u8, 80u8], TT::GIVEUP)
    } else if k == 6 {
        (seq![67u8, 79u8, 77u8, 73u8, 78u8, 71u8], seq![70u8, 82u8, 79u8, 77u8], TT::COMINGFROM)
    } else if k == 7 {
        (seq![82u8, 69u8, 65u8, 68u8, 73u8, 78u8, 71u8], seq![79u8, 85u8, 84u8], TT::READINGOUT)
    } else if k == 8 {
        (seq![87u8, 82u8, 73u8, 84u8, 73u8, 78u8, 71u8], seq![73u8, 78u8], TT::WRITINGIN)
    } else if k == 9 {
        (seq![84u8, 82u8, 89u8, 73u8, 78u8, 71u8], seq![65u8, 71u8, 65u8, 73u8, 78u8], TT::TRYINGAGAIN)
    } else if k == 10 {
        (seq![80u8, 76u8, 69u8, 65u8, 83u8, 69u8], Seq::<u8>::empty(), TT::PLEASEDO)
    } else if k == 11 {
        (seq![68u8, 79u8], Seq::<u8>::empty(), TT::DO)
    } else if k == 12 {
        (seq![78u8, 79u8, 84u8], Seq::<u8>::empty(), TT::NOT)
    } else if k == 13 {
        (seq![78u8, 39u8, 84u8], Seq::<u8>::empty(), TT::NOT)
    } else if k == 14 {
        (seq![78u8, 69u8, 88u8, 84u8], Seq::<u8>::empty(), TT::NEXT)
    } else if k == 15 {
        (seq![82u8, 69u8, 83u8, 85u8, 77u8, 69u8], Seq::<u8>::empty(), TT::RESUME)
    } else if k == 16 {
        (seq![70u8, 79u8, 82u8, 71u8, 69u8, 84u8], Seq::<u8>::empty(), TT::FORGET)
    } else if k == 17 {
        (seq![73u8, 71u8, 78u8, 79u8, 82u8, 69u8], Seq::<u8>::empty(), TT::IGNORE)
    } else if k == 18 {
        (seq![82u8, 69u8, 77u8, 69u8, 77u8, 66u8, 69u8, 82u8], Seq::<u8>::empty(), TT::REMEMBER)
    } else if k == 19 {
        (seq![83u8, 84u8, 65u8, 83u8, 72u8], Seq::<u8>::empty(), TT::STASH)
    } else if k == 20 {
        (seq![82u8, 69u8, 84u8, 82u8, 73u8, 69u8, 86u8, 69u8], Seq::<u8>::empty(), TT::RETRIEVE)
    } else if k == 21 {
        (seq![65u8, 66u8, 83u8, 84u8, 65u8, 73u8, 78u8], Seq::<u8>::empty(), TT::ABSTAIN)
    } else if k == 22 {
        (seq![70u8, 82u8, 79u8, 77u8], Seq::<u8>::empty(), TT::FROM)
    } else if k == 23 {
        (seq![82u8, 69u8, 73u8, 78u8, 83u8, 84u8, 65u8, 84u8, 69u8], Seq::<u8>::empty(), TT::REINSTATE)
    } else if k == 24 {
        (seq![83u8, 85u8, 66u8], Seq::<u8>::empty(), TT::SUB)
    } else if k == 25 {
        (seq![66u8, 89u8], Seq::<u8>::empty(), TT::BY)
    } else if k == 26 {
        (seq![67u8, 65u8, 76u8, 67u8, 85u8, 76u8, 65u8, 84u8, 73u8, 78u8, 71u8], Seq::<u8>::empty(), TT::CALCULATING)
    } else if k == 27 {
        (seq![78u8, 69u8, 88u8, 84u8, 73u8, 78u8, 71u8], Seq::<u8>::empty(), TT::NEXTING)
    } else if k == 28 {
        (seq![82u8, 69u8, 83u8, 85u8, 77u8, 73u8, 78u8, 71u8], Seq::<u8>::empty(), TT::RESUMING)
    } else if k == 29 {
        (seq![70u8, 79u8, 82u8, 71u8, 69u8, 84u8, 84u8, 73u8, 78u8, 71u8], Seq::<u8>::empty(), TT::FORGETTING)
    } else if k == 30 {
        (seq![73u8, 71u8, 78u8, 79u8, 82u8, 73u8, 78u8, 71u8], Seq::<u8>::empty(), TT::IGNORING)
    } else if k == 31 {
        (seq![82u8, 69u8, 77u8, 69u8, 77u8, 66u8, 69u8, 82u8, 73u8, 78u8, 71u8], Seq::<u8>::empty(), TT::REMEMBERING)
    } else if k == 32 {
        (seq![83u8, 84u8, 65u8, 83u8, 72u8, 73u8, 78u8, 71u8], Seq::<u8>::empty(), TT::STASHING)
    } else if k == 33 {
        (seq![82u8, 69u8, 84u8, 82u8, 73u8, 69u8, 86u8, 73u8, 78u8, 71u8], Seq::<u8>::empty(), TT::RETRIEVING)
    } else if k == 34 {
        (seq![65u8, 66u8, 83u8, 84u8, 65u8, 73u8, 78u8, 73u8, 78u8, 71u8], Seq::<u8>::empty(), TT::ABSTAINING)
    } else if k == 35 {
        (seq![82u8, 69u8, 73u8, 78u8, 83u8, 84u8, 65u8, 84u8, 73u8, 78u8, 71u8], Seq::<u8>::empty(), TT::REINSTATING)
    } else if k == 36 {
        (seq![60u8, 45u8], Seq::<u8>::empty(), TT::GETS)
    } else if k == 37 {
        (seq![40u8], Seq::<u8>::empty(), TT::WAX)
    } else if k == 38 {
        (seq![41u8], Seq::<u8>::empty(), TT::WANE)
    } else if k == 39 {
        (seq![46u8], Seq::<u8>::empty(), TT::SPOT)
    } else if k == 40 {
        (seq![58u8], Seq::<u8>::empty(), TT::TWOSPOT)
    } else if k == 41 {
        (seq![44u8], Seq::<u8>::empty(), TT::TAIL)
    } else if k == 42 {
        (seq![59u8], Seq::<u8>::empty(), TT::HYBRID)
    } else if k == 43 {
        (seq![33u8], Seq::<u8>::empty(), TT::WOW)
    } else if k == 44 {
        (seq![35u8], Seq::<u8>::empty(), TT::MESH)
    } else if k == 45 {
        (seq![37u8], Seq::<u8>::empty(), TT::OHOHSEVEN)
    } else if k == 46 {
        (seq![43u8], Seq::<u8>::empty(), TT::INTERSECTION)
    } else if k == 47 {
        (seq![34u8], Seq::<u8>::empty(), TT::RABBITEARS)
    } else if k == 48 {
        (seq![39u8], Seq::<u8>::empty(), TT::SPARK)
    } else if k == 49 {
        (seq![36u8], Seq::<u8>::empty(), TT::MONEY)
    } else if k == 50 {
        (seq![194u8, 162u8], Seq::<u8>::empty(), TT::MONEY)
    } else if k == 51 {
        (seq![194u8, 163u8], Seq::<u8>::empty(), TT::MONEY)
    } else if k == 52 {
        (seq![194u8, 164u8], Seq::<u8>::empty(), TT::MONEY)
    } else if k == 53 {
        (seq![226u8, 130u8, 172u8], Seq::<u8>::empty(), TT::MONEY)
    } else if k == 54 {
        (seq![126u8], Seq::<u8>::empty(), TT::SQUIGGLE)
    } else if k == 55 {
        (seq![38u8], Seq::<u8>::empty(), TT::AMPERSAND)
    } else if k == 56 {
        (seq![86u8], Seq::<u8>::empty(), TT::BOOK)
    } else if k == 57 {
        (seq![63u8], Seq::<u8>::empty(), TT::WHAT)
    } else {
        (seq![226u8, 136u8, 128u8], Seq::<u8>::empty(), TT::WHAT)
    }
}

fn rule_exec(k: usize) -> (r: (Vec<u8>, Vec<u8>, TT))
    requires
        k < NRULES,
    ensures
        r.0@ == rule(k as int).0,
        r.1@ == rule(k as int).1,
        r.2 == rule(k as int).2,
{
    if k == 0 {
        (vec![80u8, 76u8, 69u8, 65u8, 83u8, 69u8], vec![68u8, 79u8], TT::PLEASEDO)
    } else if k == 1 {
        (vec![67u8, 79u8, 77u8, 69u8], vec![70u8, 82u8, 79u8, 77u8], TT::COMEFROM)
    } else if k == 2 {
        (vec![82u8, 69u8, 65u8, 68u8], vec![79u8, 85u8, 84u8], TT::READOUT)
    } else if k == 3 {
        (vec![87u8, 82u8, 73u8, 84u8, 69u8], vec![73u8, 78u8], TT::WRITEIN)
    } else if k == 4 {
        (vec![84u8, 82u8, 89u8], vec![65u8, 71u8, 65u8, 73u8, 78u8], TT::TRYAGAIN)
    } else if k == 5 {
        (vec![71u8, 73u8, 86u8, 69u8], vec![85u8, 80u8], TT::GIVEUP)
    } else if k == 6 {
        (vec![67u8, 79u8, 77u8, 73u8, 78u8, 71u8], vec![70u8, 82u8, 79u8, 77u8], TT::COMINGFROM)
    } else if k == 7 {
        (vec![82u8, 69u8, 65u8, 68u8, 73u8, 78u8, 71u8], vec![79u8, 85u8, 84u8], TT::READINGOUT)
    } else if k == 8 {
        (vec![87u8, 82u8, 73u8, 84u8, 73u8, 78u8, 71u8], vec![73u8, 78u8], TT::WRITINGIN)
    } else if k == 9 {
        (vec![84u8, 82u8, 89u8, 73u8, 78u8, 71u8], vec![65u8, 71u8, 65u8, 73u8, 78u8], TT::TRYINGAGAIN)
    } else if k == 10 {
        (vec![80u8, 76u8, 69u8, 65u8, 83u8, 69u8], Vec::new(), TT::PLEASEDO)
    } else if k == 11 {
        (vec![68u8, 79u8], Vec::new(), TT::DO)
    } else if k == 12 {
        (vec![78u8, 79u8, 84u8], Vec::new(), TT::NOT)
    } else if k == 13 {
        (vec![78u8, 39u8, 84u8], Vec::new(), TT::NOT)
    } else if k == 14 {
        (vec![78u8, 69u8, 88u8, 84u8], Vec::new(), TT::NEXT)
    } else if k == 15 {
        (vec![82u8, 69u8, 83u8, 85u8, 77u8, 69u8], Vec::new(), TT::RESUME)
    } else if k == 16 {
        (vec![70u8, 79u8, 82u8, 71u8, 69u8, 84u8], Vec::new(), TT::FORGET)
    } else if k == 17 {
        (vec![73u8, 71u8, 78u8, 79u8, 82u8, 69u8], Vec::new(), TT::IGNORE)
    } else if k == 18 {
        (vec![82u8, 69u8, 77u8, 69u8, 77u8, 66u8, 69u8, 82u8], Vec::new(), TT::REMEMBER)
    } else if k == 19 {
        (vec![83u8, 84u8, 65u8, 83u8, 72u8], Vec::new(), TT::STASH)
    } else if k == 20 {
        (vec![82u8, 69u8, 84u8, 82u8, 73u8, 69u8, 86u8, 69u8], Vec::new(), TT::RETRIEVE)
    } else if k == 21 {
        (vec![65u8, 66u8, 83u8, 84u8, 65u8, 73u8, 78u8], Vec::new(), TT::ABSTAIN)
    } else if k == 22 {
        (vec![70u8, 82u8, 79u8, 77u8], Vec::new(), TT::FROM)
    } else if k == 23 {
        (vec![82u8, 69u8, 73u8, 78u8, 83u8, 84u8, 65u8, 84u8, 69u8], Vec::new(), TT::REINSTATE)
    } else if k == 24 {
        (vec![83u8, 85u8, 66u8], Vec::new(), TT::SUB)
    } else if k == 25 {
        (vec![66u8, 89u8], Vec::new(), TT::BY)
    } else if k == 26 {
        (vec![67u8, 65u8, 76u8, 67u8, 85u8, 76u8, 65u8, 84u8, 73u8, 78u8, 71u8], Vec::new(), TT::CALCULATING)
    } else if k == 27 {
        (vec![78u8, 69u8, 88u8, 84u8, 73u8, 78u8, 71u8], Vec::new(), TT::NEXTING)
    } else if k == 28 {
        (vec![82u8, 69u8, 83u8, 85u8, 77u8, 73u8, 78u8, 71u8], Vec::new(), TT::RESUMING)
    } else if k == 29 {
        (vec![70u8, 79u8, 82u8, 71u8, 69u8, 84u8, 84u8, 73u8, 78u8, 71u8], Vec::new(), TT::FORGETTING)
    } else if k == 30 {
        (vec![73u8, 71u8, 78u8, 79u8, 82u8, 73u8, 78u8, 71u8], Vec::new(), TT::IGNORING)
    } else if k == 31 {
        (vec![82u8, 69u8, 77u8, 69u8, 77u8, 66u8, 69u8, 82u8, 73u8, 78u8, 71u8], Vec::new(), TT::REMEMBERING)
    } else if k == 32 {
        (vec![83u8, 84u8, 65u8, 83u8, 72u8, 73u8, 78u8, 71u8], Vec::new(), TT::STASHING)
    } else if k == 33 {
        (vec![82u8, 69u8, 84u8, 82u8, 73u8, 69u8, 86u8, 73u8, 78u8, 71u8], Vec::new(), TT::RETRIEVING)
    } else if k == 34 {
        (vec![65u8, 66u8, 83u8, 84u8, 65u8, 73u8, 78u8, 73u8, 78u8, 71u8], Vec::new(), TT::ABSTAINING)
    } else if k == 35 {
        (vec![82u8, 69u8, 73u8, 78u8, 83u8, 84u8, 65u8, 84u8, 73u8, 78u8, 71u8], Vec::new(), TT::REINSTATING)
    } else if k == 36 {
        (vec![60u8, 45u8], Vec::new(), TT::GETS)
    } else if k == 37 {
        (vec![40u8], Vec::new(), TT::WAX)
    } else if k == 38 {
        (vec![41u8], Vec::new(), TT::WANE)
    } else if k == 39 {
        (vec![46u8], Vec::new(), TT::SPOT)
    } else if k == 40 {
        (vec![58u8], Vec::new(), TT::TWOSPOT)
    } else if k == 41 {
        (vec![44u8], Vec::new(), TT::TAIL)
    } else if k == 42 {
        (vec![59u8], Vec::new(), TT::HYBRID)
    } else if k == 43 {
        (vec![33u8], Vec::new(), TT::WOW)
    } else if k == 44 {
        (vec![35u8], Vec::new(), TT::MESH)
    } else if k == 45 {
        (vec![37u8], Vec::new(), TT::OHOHSEVEN)
    } else if k == 46 {
        (vec![43u8], Vec::new(), TT::INTERSECTION)
    } else if k == 47 {
        (vec![34u8], Vec::new(), TT::RABBITEARS)
    } else if k == 48 {
        (vec![39u8], Vec::new(), TT::SPARK)
    } else if k == 49 {
        (vec![36u8], Vec::new(), TT::MONEY)
    } else if k == 50 {
        (vec![194u8, 162u8], Vec::new(), TT::MONEY)
    } else if k == 51 {
        (vec![194u8, 163u8], Vec::new(), TT::MONEY)
    } else if k == 52 {
        (vec![194u8, 164u8], Vec::new(), TT::MONEY)
    } else if k == 53 {
        (vec![226u8, 130u8, 172u8], Vec::new(), TT::MONEY)
    } else if k == 54 {
        (vec![126u8], Vec::new(), TT::SQUIGGLE)
    } else if k == 55 {
        (vec![38u8], Vec::new(), TT::AMPERSAND)
    } else if k == 56 {
        (vec![86u8], Vec::new(), TT::BOOK)
    } else if k == 57 {
        (vec![63u8], Vec::new(), TT::WHAT)
    } else {
        (vec![226u8, 136u8, 128u8], Vec::new(), TT::WHAT)
    }
}

/// A blank, a tab or a newline.
pub open spec fn is_blank(c: u8) -> bool {
    c == 32 || c == 9 || c == 10
}

/// The text holds the word `w` at position `i`.
pub open spec fn word_at(s: Seq<u8>, i: int, w: Seq<u8>) -> bool {
    0 <= i && i + w.len() <= s.len() && s.subrange(i, i + w.len()) == w
}

/// The length of the run of blanks at position `i`.
pub open spec fn blank_run(s: Seq<u8>, i: int) -> int
    decreases s.len() - i,
{
    if 0 <= i < s.len() && is_blank(s[i]) {
        1 + blank_run(s, i + 1)
    } else {
        0
    }
}

/// How many bytes rule `k` matches at position `i` (zero for none).
pub open spec fn rule_len(s: Seq<u8>, i: int, k: int) -> int {
    let w1 = rule(k).0;
    let w2 = rule(k).1;
    if !word_at(s, i, w1) {
        0
    } else if w2.len() == 0 {
        w1.len() as int
    } else {
        let m = i + w1.len() + blank_run(s, i + w1.len());
        if word_at(s, m, w2) {
            m + w2.len() - i
        } else {
            0
        }
    }
}

/// The longest match among the first `k` rules, the earlier one on a tie.
pub open spec fn best_rule(s: Seq<u8>, i: int, k: int) -> (int, TT)
    decreases k,
{
    if k <= 0 {
        (0, TT::UNKNOWN)
    } else {
        let b = best_rule(s, i, k - 1);
        let m = rule_len(s, i, k - 1);
        if m > b.0 {
            (m, rule(k - 1).2)
        } else {
            b
        }
    }
}

pub open spec fn is_digit(c: u8) -> bool {
    48 <= c <= 57
}

/// The length of the run of digits at position `i`.
pub open spec fn digit_run(s: Seq<u8>, i: int) -> int
    decreases s.len() - i,
{
    if 0 <= i < s.len() && is_digit(s[i]) {
        1 + digit_run(s, i + 1)
    } else {
        0
    }
}

/// The decimal value of the digits from `i` up to `j`.
pub open spec fn digits_value(s: Seq<u8>, i: int, j: int) -> nat
    decreases j - i,
{
    if j <= i {
        0
    } else {
        digits_value(s, i, j - 1) * 10 + (s[j - 1] - 48) as nat
    }
}

/// The token at position `i` of a non-blank byte, and its length: a
/// number, else the longest rule, else one unknown byte.
pub open spec fn token_at(s: Seq<u8>, i: int) -> (TT, int) {
    let d = digit_run(s, i);
    if d > 0 {
        let v = digits_value(s, i, i + d);
        (TT::NUMBER(if v > 0xFFFF_FFFF { 0xFFFF_FFFFu32 } else { v as u32 }), d)
    } else {
        let b = best_rule(s, i, NRULES as int);
        if b.0 > 0 {
            (b.1, b.0)
        } else {
            (TT::UNKNOWN, 1)
        }
    }
}

/// How many newlines lie from `i` up to `j`.
pub open spec fn newlines(s: Seq<u8>, i: int, j: int) -> nat
    decreases j - i,
{
    if j <= i {
        0
    } else {
        newlines(s, i, j - 1) + if s[j - 1] == 10 {
            1nat
        } else {
            0nat
        }
    }
}

/// The tokens of the text from position `i` on, `line` being the source
/// line at `i`.
pub open spec fn raw_stream(s: Seq<u8>, i: int, line: nat) -> Seq<Token>
    decreases s.len() - i,
{
    if i < 0 || i >= s.len() {
        Seq::empty()
    } else if s[i] == 32 || s[i] == 9 {
        raw_stream(s, i + 1, line)
    } else if s[i] == 10 {
        raw_stream(s, i + 1, line + 1)
    } else {
        let t = token_at(s, i);
        if t.1 <= 0 || i + t.1 > s.len() {
            Seq::empty()
        } else {
            seq![Token(t.0, line as usize)] + raw_stream(s, i + t.1, line + newlines(s, i, i + t.1))
        }
    }
}

proof fn lemma_newlines_le(s: Seq<u8>, i: int, j: int)
    ensures
        i <= j ==> newlines(s, i, j) <= j - i,
    decreases j - i,
{
    if i < j {
        lemma_newlines_le(s, i, j - 1);
    }
}

fn word_at_exec(s: &Vec<u8>, i: usize, w: &Vec<u8>) -> (r: bool)
    ensures
        r == word_at(s@, i as int, w@),
{
    if i > s.len() || w.len() > s.len() - i {
        return false;
    }
    let mut k: usize = 0;
    while k < w.len()
        invariant
            k <= w@.len(),
            i + w@.len() <= s@.len(),
            s@.len() <= usize::MAX,
            forall|j: int| 0 <= j < k ==> s@[i + j] == w@[j],
        decreases w@.len() - k,
    {
        if s[i + k] != w[k] {
            proof {
                assert(s@.subrange(i as int, i + w@.len())[k as int] != w@[k as int]);
            }
            return false;
        }
        k = k + 1;
    }
    proof {
        assert(s@.subrange(i as int, i + w@.len()) =~= w@);
    }
    true
}

fn blank_run_exec(s: &Vec<u8>, i: usize) -> (r: usize)
    requires
        i <= s@.len(),
    ensures
        r == blank_run(s@, i as int),
        i + r <= s@.len(),
{
    let mut j = i;
    while j < s.len() && (s[j] == 32 || s[j] == 9 || s[j] == 10)
        invariant
            i <= j <= s@.len(),
            blank_run(s@, i as int) == (j - i) + blank_run(s@, j as int),
        decreases s@.len() - j,
    {
        j = j + 1;
    }
    j - i
}

fn rule_len_exec(s: &Vec<u8>, i: usize, k: usize) -> (r: usize)
    requires
        i < s@.len(),
        k < NRULES,
    ensures
        r == rule_len(s@, i as int, k as int),
        i + r <= s@.len(),
{
    let sl = s.len();
    let (w1, w2, _t) = rule_exec(k);
    if !word_at_exec(s, i, &w1) {
        return 0;
    }
    if w2.len() == 0 {
        return w1.len();
    }
    let j = i + w1.len();
    let m = j + blank_run_exec(s, j);
    if word_at_exec(s, m, &w2) {
        m + w2.len() - i
    } else {
        0
    }
}

fn token_at_exec(s: &Vec<u8>, i: usize) -> (r: (TT, usize))
    requires
        i < s@.len(),
    ensures
        r.0 == token_at(s@, i as int).0,
        r.1 as int == token_at(s@, i as int).1,
        1 <= r.1,
        i + r.1 <= s@.len(),
{
    let mut j = i;
    let mut v: u64 = 0;
    while j < s.len() && s[j] >= 48 && s[j] <= 57
        invariant
            i <= j <= s@.len(),
            digit_run(s@, i as int) == (j - i) + digit_run(s@, j as int),
            v as nat == if digits_value(s@, i as int, j as int) > 0x1_0000_0000 {
                0x1_0000_0000nat
            } else {
                digits_value(s@, i as int, j as int)
            },
        decreases s@.len() - j,
    {
        let d = (s[j] - 48) as u64;
        if v < 0x1_0000_0000 {
            v = v * 10 + d;
            if v > 0x1_0000_0000 {
                v = 0x1_0000_0000;
            }
        }
        j = j + 1;
    }
    if j > i {
        proof {
            assert(digit_run(s@, j as int) == 0);
        }
        let n: u32 = if v > 0xFFFF_FFFF {
            0xFFFF_FFFF
        } else {
            v as u32
        };
        return (TT::NUMBER(n), j - i);
    }
    let mut best: usize = 0;
    let mut tt = TT::UNKNOWN;
    let mut k: usize = 0;
    while k < NRULES
        invariant
            k <= NRULES,
            i < s@.len(),
            (best as int, tt) == best_rule(s@, i as int, k as int),
            i + best <= s@.len(),
        decreases NRULES - k,
    {
        let m = rule_len_exec(s, i, k);
        if m > best {
            best = m;
            tt = rule_exec(k).2;
        }
        k = k + 1;
    }
    if best > 0 {
        (tt, best)
    } else {
        (TT::UNKNOWN, 1)
    }
}

/// The scanner: the text, the position reached, and the source line there.
pub struct RawLexer {
    pub src: Vec<u8>,
    pub pos: usize,
    pub line: SrcLine,
}

impl RawLexer {
    /// The tokens still to come.
    pub open spec fn rest(&self) -> Seq<Token> {
        raw_stream(self.src@, self.pos as int, self.line as nat)
    }

    /// The position lies in the text, and no line number can overflow.
    pub open spec fn ok(&self) -> bool {
        &&& self.pos <= self.src@.len()
        &&& self.line + (self.src@.len() - self.pos) < usize::MAX
    }

    /// The next token, if any.
    pub fn tok(&mut self) -> (r: Option<Token>)
        requires
            old(self).ok(),
        ensures
            final(self).ok(),
            final(self).src == old(self).src,
            old(self).rest() == match r {
                None => Seq::<Token>::empty(),
                Some(t) => seq![t] + final(self).rest(),
            },
            r.is_none() ==> final(self).rest() == Seq::<Token>::empty(),
    {
        while self.pos < self.src.len() && (self.src[self.pos] == 32 || self.src[self.pos] == 9
            || self.src[self.pos] == 10)
            invariant
                self.ok(),
                self.src == old(self).src,
                self.rest() == old(self).rest(),
            decreases self.src@.len() - self.pos,
        {
            if self.src[self.pos] == 10 {
                self.line = self.line + 1;
            }
            self.pos = self.pos + 1;
        }
        if self.pos >= self.src.len() {
            return None;
        }
        let sl = self.src.len();
        let (t, l) = token_at_exec(&self.src, self.pos);
        let tok = Token(t, self.line);
        let mut n: usize = 0;
        let mut j: usize = self.pos;
        while j < self.pos + l
            invariant
                self.pos <= j <= self.pos + l,
                self.pos + l <= self.src@.len(),
                sl == self.src@.len(),
                n as nat == newlines(self.src@, self.pos as int, j as int),
                n <= j - self.pos,
            decreases self.pos + l - j,
        {
            if self.src[j] == 10 {
                n = n + 1;
            }
            j = j + 1;
        }
        self.line = self.line + n;
        self.pos = self.pos + l;
        Some(tok)
    }

    /// Like `tok`, counting the newlines inside the token.
    pub fn tok_with_nl(&mut self) -> (r: Option<Token>)
        requires
            old(self).ok(),
        ensures
            final(self).ok(),
            final(self).src == old(self).src,
            old(self).rest() == match r {
                None => Seq::<Token>::empty(),
                Some(t) => seq![t] + final(self).rest(),
            },
            r.is_none() ==> final(self).rest() == Seq::<Token>::empty(),
    {
        self.tok()
    }
}

/// The token stream with each `!` split into a spark and a spot.
pub open spec fn expand(ts: Seq<Token>) -> Seq<Token>
    decreases ts.len(),
{
    if ts.len() == 0 {
        Seq::empty()
    } else {
        let t = ts[0];
        (if t.0 == TT::WOW {
            seq![Token(TT::SPARK, t.1), Token(TT::SPOT, t.1)]
        } else {
            seq![t]
        }) + expand(ts.drop_first())
    }
}

/// A stack of tokens in the order it gives them back: top first.
pub open spec fn stack_order(st: Seq<Token>) -> Seq<Token>
    decreases st.len(),
{
    if st.len() == 0 {
        Seq::empty()
    } else {
        seq![st.last()] + stack_order(st.drop_last())
    }
}

proof fn lemma_expand_cons(t: Token, rest: Seq<Token>)
    ensures
        expand(seq![t] + rest) == (if t.0 == TT::WOW {
            seq![Token(TT::SPARK, t.1), Token(TT::SPOT, t.1)]
        } else {
            seq![t]
        }) + expand(rest),
{
    assert((seq![t] + rest)[0] == t);
    assert((seq![t] + rest).drop_first() =~= rest);
}

/// A token reader with look-ahead and push-back.
pub struct Lexer {
    pub inner: RawLexer,
    /// Tokens pushed back or looked at, the next one last.
    pub stash: Vec<Token>,
    /// The line of the last token read.
    pub line: SrcLine,
}

impl Lexer {
    /// The tokens still to come, in order.
    pub open spec fn tokens(&self) -> Seq<Token> {
        stack_order(self.stash@) + expand(self.inner.rest())
    }

    pub open spec fn wf(&self) -> bool {
        self.inner.ok()
    }

    fn inner_next(&mut self) -> (r: Option<Token>)
        requires
            old(self).wf(),
        ensures
            final(self).wf(),
            final(self).line == old(self).line,
            old(self).tokens() == match r {
                None => Seq::<Token>::empty(),
                Some(t) => seq![t] + final(self).tokens(),
            },
            r.is_none() ==> final(self).tokens() == Seq::<Token>::empty(),
    {
        if self.stash.len() > 0 {
            let t = self.stash.pop();
            proof {
                assert(self.stash@ =~= old(self).stash@.drop_last());
                assert(old(self).tokens() =~= seq![t.unwrap()] + self.tokens());
            }
            return t;
        }
        proof {
            assert(stack_order(self.stash@) =~= Seq::<Token>::empty());
        }
        match self.inner.tok() {
            None => {
                proof {
                    assert(self.tokens() =~= Seq::<Token>::empty());
                }
                None
            },
            Some(tok) => {
                proof {
                    lemma_expand_cons(tok, self.inner.rest());
                }
                if tok.0 == TT::WOW {
                    self.stash.push(Token(TT::SPOT, tok.1));
                    proof {
                        assert(self.stash@ =~= seq![Token(TT::SPOT, tok.1)]);
                        assert(self.stash@.drop_last() =~= Seq::<Token>::empty());
                        assert(stack_order(self.stash@.drop_last()) =~= Seq::<Token>::empty());
                        assert(stack_order(self.stash@) =~= seq![Token(TT::SPOT, tok.1)]);
                        assert(old(self).tokens() =~= seq![Token(TT::SPARK, tok.1)] + self.tokens());
                    }
                    Some(Token(TT::SPARK, tok.1))
                } else {
                    proof {
                        assert(old(self).tokens() =~= seq![tok] + self.tokens());
                    }
                    Some(tok)
                }
            },
        }
    }

    /// The next token's kind, remembering its line.
    pub fn next(&mut self) -> (r: Option<TT>)
        requires
            old(self).wf(),
        ensures
            final(self).wf(),
            old(self).tokens().len() == 0 ==> r.is_none() && final(self).tokens().len() == 0,
            old(self).tokens().len() > 0 ==> {
                &&& r == Some(old(self).tokens()[0].0)
                &&& final(self).line == old(self).tokens()[0].1
                &&& final(self).tokens() == old(self).tokens().drop_first()
            },
    {
        let r = self.inner_next();
        match r {
            Some(tok) => {
                self.line = tok.1;
                proof {
                    assert(old(self).tokens().drop_first() =~= self.tokens());
                }
                Some(tok.0)
            },
            None => None,
        }
    }

    /// The next token's kind, leaving it to be read.
    pub fn peek(&mut self) -> (r: Option<TT>)
        requires
            old(self).wf(),
        ensures
            final(self).wf(),
            final(self).tokens() == old(self).tokens(),
            final(self).line == old(self).line,
            r == if old(self).tokens().len() == 0 {
                None
            } else {
                Some(old(self).tokens()[0].0)
            },
    {
        if self.stash.len() > 0 {
            let t = self.stash[self.stash.len() - 1];
            return Some(t.0);
        }
        match self.inner_next() {
            None => None,
            Some(tok) => {
                let ghost before = self.tokens();
                let ghost mid = self.stash@;
                self.stash.push(tok);
                proof {
                    assert(self.stash@.drop_last() =~= mid);
                    assert(self.stash@.last() == tok);
                    assert(stack_order(self.stash@) =~= seq![tok] + stack_order(mid));
                    assert(self.tokens() =~= seq![tok] + before);
                }
                Some(tok.0)
            },
        }
    }

    /// Pushes a token back, on the line of the last token read.
    pub fn push(&mut self, t: TT)
        requires
            old(self).wf(),
        ensures
            final(self).wf(),
            final(self).line == old(self).line,
            final(self).tokens() == seq![Token(t, old(self).line)] + old(self).tokens(),
    {
        self.stash.push(Token(t, self.line));
        proof {
            assert(self.stash@.drop_last() =~= old(self).stash@);
            assert(self.tokens() =~= seq![Token(t, old(self).line)] + old(self).tokens());
        }
    }

    /// The line of the last token read.
    pub fn lineno(&self) -> (r: SrcLine)
        ensures
            r == self.line,
    {
        self.line
    }
}

/// A token reader over a source text whose first line is `startline`.
pub fn lex(src: Vec<u8>, startline: usize) -> (r: Lexer)
    requires
        startline + src@.len() < usize::MAX,
    ensures
        r.wf(),
        r.tokens() == expand(raw_stream(src@, 0, startline as nat)),
        r.line == 1,
{
    let raw = RawLexer { src, pos: 0, line: startline };
    let r = Lexer { inner: raw, stash: Vec::new(), line: 1 };
    proof {
        assert(stack_order(r.stash@) =~= Seq::<Token>::empty());
        assert(r.tokens() =~= expand(raw_stream(r.inner.src@, 0, startline as nat)));
    }
    r
}

} // verus!
