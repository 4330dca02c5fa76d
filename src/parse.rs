//! The parser: statements from the token stream, with malformed
//! statements kept as errors that surface only if they run.

use std::collections::BTreeMap;

use vstd::prelude::*;

use crate::ast::{Abstain, ComeFrom, Expr, Program, Stmt, StmtBody, StmtProps, VType, Var, expr_vtype};
use crate::err::{ErrCode, with_line};
use crate::lex::{Token, TT, expand, lex, raw_stream};

verus! {

/// Every token of a source text whose first line is `startline`.
pub fn tokens(src: Vec<u8>, startline: usize) -> (r: Vec<Token>)
    requires
        startline + src@.len() < usize::MAX,
    ensures
        r@ == expand(raw_stream(src@, 0, startline as nat)),
{
    let ghost all = expand(raw_stream(src@, 0, startline as nat));
    let mut l = lex(src, startline);
    let mut out: Vec<Token> = Vec::new();
    loop
        invariant
            l.wf(),
            out@ + l.tokens() == all,
            all == expand(raw_stream(src@, 0, startline as nat)),
        decreases l.tokens().len(),
    {
        let ghost before = l.tokens();
        match l.next() {
            Some(t) => {
                out.push(Token(t, l.lineno()));
                proof {
                    assert(out@ + l.tokens() =~= all);
                }
            },
            None => {
                proof {
                    assert(before.len() == 0);
                    assert(out@ + before == all);
                    assert(out@ =~= all);
                }
                return out;
            },
        }
    }
}

/// The kind of token `i`, if there is one.
pub open spec fn tt_spec(t: Seq<Token>, i: int) -> Option<TT> {
    if 0 <= i < t.len() {
        Some(t[i].0)
    } else {
        None
    }
}

/// A label in parentheses at `i`, 1 to 65535, and the position after it.
pub open spec fn label_spec(t: Seq<Token>, i: int) -> Option<(u16, int)> {
    if tt_spec(t, i) == Some(TT::WAX) && tt_spec(t, i + 2) == Some(TT::WANE) {
        match tt_spec(t, i + 1) {
            Some(TT::NUMBER(n)) => if 1 <= n <= 0xFFFF {
                Some((n as u16, i + 3))
            } else {
                None
            },
            _ => None,
        }
    } else {
        None
    }
}

/// A statement begins at `i`: DO or PLEASE, after an optional label.
pub open spec fn starts_spec(t: Seq<Token>, i: int) -> bool {
    let at = match label_spec(t, i) {
        Some((_, j)) => j,
        None => i,
    };
    tt_spec(t, at) == Some(TT::DO) || tt_spec(t, at) == Some(TT::PLEASEDO)
}

/// The statement prefix at `i`: optional label, DO or PLEASE, optional
/// NOT, optional `%` chance from 1 to 100; and the position after it.
pub open spec fn props_spec(t: Seq<Token>, i: int) -> Option<(StmtProps, int)> {
    let (label, j) = match label_spec(t, i) {
        Some((l, k)) => (l, k),
        None => (0u16, i),
    };
    if tt_spec(t, j) == Some(TT::DO) || tt_spec(t, j) == Some(TT::PLEASEDO) {
        let polite = tt_spec(t, j) == Some(TT::PLEASEDO);
        let disabled = tt_spec(t, j + 1) == Some(TT::NOT);
        let k = if disabled {
            j + 2
        } else {
            j + 1
        };
        let base = StmtProps { srcline: 0, onthewayto: 0, label, chance: 100, polite, disabled };
        if tt_spec(t, k) == Some(TT::OHOHSEVEN) {
            match tt_spec(t, k + 1) {
                Some(TT::NUMBER(n)) => if 1 <= n <= 100 {
                    Some((StmtProps { chance: n as u8, ..base }, k + 2))
                } else {
                    None
                },
                _ => None,
            }
        } else {
            Some((base, k))
        }
    } else {
        None
    }
}

/// Statement `s` is what the tokens from `a` up to `b` parse to: it starts
/// on the line of token `a`; its prefix is as written and its body is the
/// one written after it, ending where the next statement starts; a body
/// that does not parse, or is followed by anything else, is an IE000
/// error (with default properties when the prefix does not parse either);
/// `b` is the end or the start of the next statement.
pub open spec fn segment(t: Seq<Token>, a: int, b: int, s: Stmt) -> bool {
    &&& 0 <= a < b <= t.len()
    &&& b == t.len() || starts_spec(t, b)
    &&& s.props.srcline == t[a].1
    &&& s.comefrom.is_none()
    &&& s.can_abstain
    &&& match props_spec(t, a) {
        Some((pp, j)) => {
            &&& s.props.label == pp.label
            &&& s.props.polite == pp.polite
            &&& s.props.disabled == pp.disabled
            &&& s.props.chance == pp.chance
            &&& match body_end(t, j) {
                Some(k) => if k == t.len() || starts_spec(t, k) {
                    b == k && body_shape(t, j, s.body)
                } else {
                    s.body == StmtBody::Error(crate::err::RtError { code: ErrCode::IE000, line: t[a].1 })
                },
                None => s.body == StmtBody::Error(crate::err::RtError { code: ErrCode::IE000, line: t[a].1 }),
            }
        },
        None => {
            &&& s.props.label == 0 && !s.props.polite && !s.props.disabled && s.props.chance == 100
            &&& s.body == StmtBody::Error(crate::err::RtError { code: ErrCode::IE000, line: t[a].1 })
        },
    }
}

fn tt_at(t: &Vec<Token>, i: usize) -> (r: Option<TT>)
    ensures
        r == tt_spec(t@, i as int),
        i < t@.len() ==> r == Some(t@[i as int].0),
        i >= t@.len() ==> r.is_none(),
{
    if i < t.len() {
        Some(t[i].0)
    } else {
        None
    }
}

fn number_at(t: &Vec<Token>, i: usize) -> (r: Option<u32>)
    ensures
        r == match tt_spec(t@, i as int) {
            Some(TT::NUMBER(n)) => Some(n),
            _ => None::<u32>,
        },
        r.is_some() ==> i < t@.len() && t@[i as int].0 == TT::NUMBER(r.unwrap()),
{
    match tt_at(t, i) {
        Some(TT::NUMBER(n)) => Some(n),
        _ => None,
    }
}

fn gerund(tt: TT) -> (r: Option<Abstain>)
    ensures
        r == gerund_spec(tt),
        r.is_some() ==> !(r.unwrap() is Label),
{
    match tt {
        TT::CALCULATING => Some(Abstain::Calc),
        TT::NEXTING => Some(Abstain::Next),
        TT::RESUMING => Some(Abstain::Resume),
        TT::FORGETTING => Some(Abstain::Forget),
        TT::IGNORING => Some(Abstain::Ignore),
        TT::REMEMBERING => Some(Abstain::Remember),
        TT::STASHING => Some(Abstain::Stash),
        TT::RETRIEVING => Some(Abstain::Retrieve),
        TT::ABSTAINING => Some(Abstain::Abstain),
        TT::REINSTATING => Some(Abstain::Reinstate),
        TT::COMINGFROM => Some(Abstain::ComeFrom),
        TT::READINGOUT => Some(Abstain::ReadOut),
        TT::WRITINGIN => Some(Abstain::WriteIn),
        TT::TRYINGAGAIN => Some(Abstain::TryAgain),
        _ => None,
    }
}

/// A label in parentheses, 1 to 65535.
fn label_at(t: &Vec<Token>, i: usize) -> (r: Option<(u16, usize)>)
    ensures
        r matches Some((l, j)) ==> label_spec(t@, i as int) == Some((l, j as int)),
        r is None ==> label_spec(t@, i as int) is None,
        r matches Some((_, j)) ==> i < j <= t@.len(),
{
    let len = t.len();
    if tt_at(t, i) != Some(TT::WAX) {
        return None;
    }
    let n = number_at(t, i + 1)?;
    if tt_at(t, i + 2) != Some(TT::WANE) || n == 0 || n > 0xFFFF {
        return None;
    }
    Some((n as u16, i + 3))
}

/// The unary operator a token stands for: 1 AND, 2 OR, 3 XOR, 0 none.
pub open spec fn unary_spec(tt: TT) -> u8 {
    match tt {
        TT::AMPERSAND => 1,
        TT::BOOK => 2,
        TT::WHAT => 3,
        _ => 0,
    }
}

/// A unary operator applied to an operand, with the operand's width.
pub open spec fn apply_unary_spec(op: u8, e: Expr) -> Expr {
    if op == 1 {
        Expr::And(expr_vtype(e), Box::new(e))
    } else if op == 2 {
        Expr::Or(expr_vtype(e), Box::new(e))
    } else {
        Expr::Xor(expr_vtype(e), Box::new(e))
    }
}

/// Where the variable at `i` ends: a sigil, a number, and for an array
/// any `SUB` subscripts.
pub open spec fn var_end(t: Seq<Token>, i: int) -> Option<int>
    decreases t.len() - i, 0int, 0int,
{
    if 0 <= i && tt_spec(t, i + 1) is Some && tt_spec(t, i + 1).unwrap() is NUMBER {
        match tt_spec(t, i) {
            Some(TT::SPOT) | Some(TT::TWOSPOT) => Some(i + 2),
            Some(TT::TAIL) | Some(TT::HYBRID) => subs_end(t, i + 2),
            _ => None,
        }
    } else {
        None
    }
}

/// Where a run of `SUB` subscripts from `j` ends.
pub open spec fn subs_end(t: Seq<Token>, j: int) -> Option<int>
    decreases t.len() - j, 2int, 0int,
{
    if 0 <= j < t.len() && tt_spec(t, j) == Some(TT::SUB) {
        match expr_end(t, j + 1) {
            Some(k) => if j < k <= t.len() {
                subs_end(t, k)
            } else {
                None
            },
            None => None,
        }
    } else {
        Some(j)
    }
}

/// Where the operand at `i` ends: `#` (optionally a unary operator) and a
/// number up to 65535, a group in sparks or rabbit-ears, a unary operator
/// before an operand, or a variable.
pub open spec fn operand_end(t: Seq<Token>, i: int) -> Option<int>
    decreases t.len() - i, 1int, 0int,
{
    if !(0 <= i < t.len()) {
        None
    } else {
        let tt = t[i].0;
        match tt {
            TT::MESH => {
                let at = if tt_spec(t, i + 1) is Some && unary_spec(tt_spec(t, i + 1).unwrap()) != 0 {
                    i + 2
                } else {
                    i + 1
                };
                match tt_spec(t, at) {
                    Some(TT::NUMBER(n)) => if n <= 0xFFFF {
                        Some(at + 1)
                    } else {
                        None
                    },
                    _ => None,
                }
            },
            TT::SPARK | TT::RABBITEARS => match expr_end(t, i + 1) {
                Some(j) => if tt_spec(t, j) == Some(tt) {
                    Some(j + 1)
                } else {
                    None
                },
                None => None,
            },
            TT::AMPERSAND | TT::BOOK | TT::WHAT => operand_end(t, i + 1),
            _ => var_end(t, i),
        }
    }
}

/// Where the expression at `i` ends: an operand, then `$` or `~` and an
/// expression, grouping to the right.
pub open spec fn expr_end(t: Seq<Token>, i: int) -> Option<int>
    decreases t.len() - i, 3int, 0int,
{
    match operand_end(t, i) {
        Some(j) => if i < j && (tt_spec(t, j) == Some(TT::MONEY) || tt_spec(t, j) == Some(TT::SQUIGGLE)) {
            expr_end(t, j + 1)
        } else {
            Some(j)
        },
        None => None,
    }
}

/// `v` is the variable written at `i`.
pub open spec fn var_shape(t: Seq<Token>, i: int, v: Var) -> bool
    decreases t.len() - i, 0int, 1int,
{
    match tt_spec(t, i + 1) {
        Some(TT::NUMBER(n)) => match tt_spec(t, i) {
            Some(TT::SPOT) => v == Var::I16(n as usize),
            Some(TT::TWOSPOT) => v == Var::I32(n as usize),
            Some(TT::TAIL) => match v {
                Var::A16(m, s) => m == n as usize && 0 <= i && subs_shape(t, i + 2, s, 0),
                _ => false,
            },
            Some(TT::HYBRID) => match v {
                Var::A32(m, s) => m == n as usize && 0 <= i && subs_shape(t, i + 2, s, 0),
                _ => false,
            },
            _ => false,
        },
        _ => false,
    }
}

/// The subscripts of `s` from the `m`-th on are those written from `j`.
pub open spec fn subs_shape(t: Seq<Token>, j: int, s: Vec<Expr>, m: int) -> bool
    decreases t.len() - j, 2int, 1int,
{
    if 0 <= j < t.len() && tt_spec(t, j) == Some(TT::SUB) {
        &&& 0 <= m < s@.len()
        &&& expr_shape(t, j + 1, s@[m])
        &&& match expr_end(t, j + 1) {
            Some(k) => j < k <= t.len() && subs_shape(t, k, s, m + 1),
            None => false,
        }
    } else {
        m == s@.len()
    }
}

/// `e` is the operand written at `i`.
pub open spec fn operand_shape(t: Seq<Token>, i: int, e: Expr) -> bool
    decreases t.len() - i, 1int, 1int,
{
    if !(0 <= i < t.len()) {
        false
    } else {
        let tt = t[i].0;
        match tt {
            TT::MESH => {
                let op = if tt_spec(t, i + 1) is Some {
                    unary_spec(tt_spec(t, i + 1).unwrap())
                } else {
                    0
                };
                let at = if op != 0 {
                    i + 2
                } else {
                    i + 1
                };
                match tt_spec(t, at) {
                    Some(TT::NUMBER(n)) => if op != 0 {
                        e == apply_unary_spec(op, Expr::Num(VType::I16, n))
                    } else {
                        e == Expr::Num(VType::I16, n)
                    },
                    _ => false,
                }
            },
            TT::SPARK | TT::RABBITEARS => expr_shape(t, i + 1, e),
            TT::AMPERSAND | TT::BOOK | TT::WHAT => match e {
                Expr::And(w, a) => unary_spec(tt) == 1 && w == expr_vtype(*a) && operand_shape(t, i + 1, *a),
                Expr::Or(w, a) => unary_spec(tt) == 2 && w == expr_vtype(*a) && operand_shape(t, i + 1, *a),
                Expr::Xor(w, a) => unary_spec(tt) == 3 && w == expr_vtype(*a) && operand_shape(t, i + 1, *a),
                _ => false,
            },
            _ => match e {
                Expr::Var(v) => var_shape(t, i, v),
                _ => false,
            },
        }
    }
}

/// `e` is the expression written at `i`: a mingle or a select (of the left
/// operand's width) when `$` or `~` follows the first operand.
pub open spec fn expr_shape(t: Seq<Token>, i: int, e: Expr) -> bool
    decreases t.len() - i, 3int, 1int,
{
    match operand_end(t, i) {
        Some(j) => if i < j && tt_spec(t, j) == Some(TT::MONEY) {
            match e {
                Expr::Mingle(a, b) => operand_shape(t, i, *a) && expr_shape(t, j + 1, *b),
                _ => false,
            }
        } else if i < j && tt_spec(t, j) == Some(TT::SQUIGGLE) {
            match e {
                Expr::Select(w, a, b) => w == expr_vtype(*a) && operand_shape(t, i, *a) && expr_shape(t, j + 1, *b),
                _ => false,
            }
        } else {
            operand_shape(t, i, e)
        },
        None => false,
    }
}

fn unary_of(tt: TT) -> (r: u8)
    ensures
        r == unary_spec(tt),
{
    match tt {
        TT::AMPERSAND => 1,
        TT::BOOK => 2,
        TT::WHAT => 3,
        _ => 0,
    }
}

fn apply_unary(op: u8, e: Expr) -> (r: Expr)
    ensures
        r == apply_unary_spec(op, e),
{
    let w = e.get_vtype();
    if op == 1 {
        Expr::And(w, Box::new(e))
    } else if op == 2 {
        Expr::Or(w, Box::new(e))
    } else {
        Expr::Xor(w, Box::new(e))
    }
}

/// Builds the subscript shape from the back, given each subscript and the
/// positions between them.
proof fn lemma_subs_shape(t: Seq<Token>, s: Vec<Expr>, ps: Seq<int>, m: int)
    requires
        ps.len() == s@.len() + 1,
        0 <= m <= s@.len(),
        forall|q: int| 0 <= q < s@.len() ==> 0 <= #[trigger] ps[q] < t.len() && tt_spec(t, ps[q]) == Some(TT::SUB)
            && expr_shape(t, ps[q] + 1, s@[q]) && expr_end(t, ps[q] + 1) == Some(ps[q + 1]) && ps[q] < ps[q + 1] <= t.len(),
        !(0 <= ps.last() < t.len() && tt_spec(t, ps.last()) == Some(TT::SUB)),
    ensures
        subs_shape(t, ps[m], s, m),
    decreases s@.len() - m,
{
    if m < s@.len() {
        lemma_subs_shape(t, s, ps, m + 1);
    }
}

/// A variable: sigil and number, arrays followed by `SUB` subscripts.
fn var_at(t: &Vec<Token>, i: usize) -> (r: Option<(Var, usize)>)
    ensures
        r matches Some((v, j)) ==> var_end(t@, i as int) == Some(j as int) && var_shape(t@, i as int, v),
        r is None ==> var_end(t@, i as int) is None,
        r matches Some((_, j)) ==> i < j <= t@.len(),
    decreases t@.len() - i, 0int,
{
    let len = t.len();
    let sigil = tt_at(t, i)?;
    let n = number_at(t, i + 1)? as usize;
    match sigil {
        TT::SPOT => Some((Var::I16(n), i + 2)),
        TT::TWOSPOT => Some((Var::I32(n), i + 2)),
        TT::TAIL | TT::HYBRID => {
            let mut subs: Vec<Expr> = Vec::new();
            let mut j = i + 2;
            let ghost mut ps: Seq<int> = seq![j as int];
            proof {
                assert(var_end(t@, i as int) == subs_end(t@, (i + 2) as int));
            }
            while tt_at(t, j) == Some(TT::SUB)
                invariant
                    var_end(t@, i as int) == subs_end(t@, (i + 2) as int),
                    i + 2 <= j <= t@.len(),
                    len == t@.len(),
                    subs_end(t@, (i + 2) as int) == subs_end(t@, j as int),
                    ps.len() == subs@.len() + 1,
                    ps[0] == i + 2,
                    ps.last() == j,
                    forall|q: int| 0 <= q < subs@.len() ==> 0 <= #[trigger] ps[q] < t@.len() && tt_spec(t@, ps[q]) == Some(TT::SUB)
                        && expr_shape(t@, ps[q] + 1, subs@[q]) && expr_end(t@, ps[q] + 1) == Some(ps[q + 1])
                        && ps[q] < ps[q + 1] <= t@.len(),
                decreases t@.len() - j,
            {
                match expr_at(t, j + 1) {
                    Some((e, k)) => {
                        let ghost old_ps = ps;
                        let ghost old_subs = subs@;
                        subs.push(e);
                        proof {
                            ps = ps.push(k as int);
                            assert forall|q: int| 0 <= q < subs@.len() implies 0 <= #[trigger] ps[q] < t@.len() && tt_spec(t@, ps[q]) == Some(TT::SUB)
                                && expr_shape(t@, ps[q] + 1, subs@[q]) && expr_end(t@, ps[q] + 1) == Some(ps[q + 1])
                                && ps[q] < ps[q + 1] <= t@.len() by {
                                if q < old_subs.len() {
                                    assert(old_ps[q] == ps[q] && old_ps[q + 1] == ps[q + 1] && old_subs[q] == subs@[q]);
                                }
                            }
                        }
                        j = k;
                    },
                    None => {
                        proof {
                            assert(subs_end(t@, j as int) is None);
                            assert(var_end(t@, i as int) == subs_end(t@, (i + 2) as int));
                        }
                        return None;
                    },
                }
            }
            proof {
                lemma_subs_shape(t@, subs, ps, 0);
            }
            if sigil == TT::TAIL {
                Some((Var::A16(n, subs), j))
            } else {
                Some((Var::A32(n, subs), j))
            }
        },
        _ => None,
    }
}

/// An operand: a constant, a variable, a unary operator applied to an
/// operand, or an expression grouped by sparks or rabbit-ears.
fn operand_at(t: &Vec<Token>, i: usize) -> (r: Option<(Expr, usize)>)
    ensures
        r matches Some((e, j)) ==> operand_end(t@, i as int) == Some(j as int) && operand_shape(t@, i as int, e),
        r is None ==> operand_end(t@, i as int) is None,
        r matches Some((_, j)) ==> i < j <= t@.len(),
    decreases t@.len() - i, 1int,
{
    let len = t.len();
    let tt = tt_at(t, i)?;
    match tt {
        TT::MESH => {
            let op = match tt_at(t, i + 1) {
                Some(x) => unary_of(x),
                None => 0,
            };
            let at = if op != 0 {
                i + 2
            } else {
                i + 1
            };
            let n = number_at(t, at)?;
            if n > 0xFFFF {
                return None;
            }
            let e = Expr::Num(VType::I16, n);
            if op != 0 {
                Some((apply_unary(op, e), at + 1))
            } else {
                Some((e, at + 1))
            }
        },
        TT::SPARK | TT::RABBITEARS => {
            let (e, j) = expr_at(t, i + 1)?;
            if tt_at(t, j) != Some(tt) {
                return None;
            }
            Some((e, j + 1))
        },
        TT::AMPERSAND | TT::BOOK | TT::WHAT => {
            let (e, j) = operand_at(t, i + 1)?;
            Some((apply_unary(unary_of(tt), e), j))
        },
        _ => {
            let (v, j) = var_at(t, i)?;
            Some((Expr::Var(v), j))
        },
    }
}

/// An expression: operands joined by mingle (`$`) or select (`~`),
/// grouping to the right; a select has its left operand's width.
fn expr_at(t: &Vec<Token>, i: usize) -> (r: Option<(Expr, usize)>)
    ensures
        r matches Some((e, j)) ==> expr_end(t@, i as int) == Some(j as int) && expr_shape(t@, i as int, e),
        r is None ==> expr_end(t@, i as int) is None,
        r matches Some((_, j)) ==> i < j <= t@.len(),
    decreases t@.len() - i, 3int,
{
    let len = t.len();
    let (a, j) = operand_at(t, i)?;
    match tt_at(t, j) {
        Some(TT::MONEY) => {
            let (b, k) = expr_at(t, j + 1)?;
            Some((Expr::Mingle(Box::new(a), Box::new(b)), k))
        },
        Some(TT::SQUIGGLE) => {
            let w = a.get_vtype();
            let (b, k) = expr_at(t, j + 1)?;
            Some((Expr::Select(w, Box::new(a), Box::new(b)), k))
        },
        _ => Some((a, j)),
    }
}

/// Where a run of `sep` and further variables from `j` ends.
pub open spec fn vars_more_end(t: Seq<Token>, j: int, sep: TT) -> Option<int>
    decreases t.len() - j,
{
    if 0 <= j < t.len() && tt_spec(t, j) == Some(sep) {
        match var_end(t, j + 1) {
            Some(k) => if j < k <= t.len() {
                vars_more_end(t, k, sep)
            } else {
                None
            },
            None => None,
        }
    } else {
        Some(j)
    }
}

/// Where the variables from `i`, joined by `sep`, end.
pub open spec fn vars_end(t: Seq<Token>, i: int, sep: TT) -> Option<int> {
    match var_end(t, i) {
        Some(j) => if i < j <= t.len() {
            vars_more_end(t, j, sep)
        } else {
            None
        },
        None => None,
    }
}

/// The variables of `xs` from the `m`-th on are those after `sep` from `j`.
pub open spec fn vars_more_shape(t: Seq<Token>, j: int, xs: Seq<Var>, m: int, sep: TT) -> bool
    decreases t.len() - j,
{
    if 0 <= j < t.len() && tt_spec(t, j) == Some(sep) {
        &&& 0 <= m < xs.len()
        &&& var_shape(t, j + 1, xs[m])
        &&& match var_end(t, j + 1) {
            Some(k) => j < k <= t.len() && vars_more_shape(t, k, xs, m + 1, sep),
            None => false,
        }
    } else {
        m == xs.len()
    }
}

/// `xs` are the variables written from `i`, joined by `sep`.
pub open spec fn vars_shape(t: Seq<Token>, i: int, xs: Seq<Var>, sep: TT) -> bool {
    &&& xs.len() >= 1
    &&& var_shape(t, i, xs[0])
    &&& match var_end(t, i) {
        Some(j) => i < j <= t.len() && vars_more_shape(t, j, xs, 1, sep),
        None => false,
    }
}

proof fn lemma_vars_shape(t: Seq<Token>, xs: Seq<Var>, ps: Seq<int>, m: int, sep: TT)
    requires
        ps.len() == xs.len(),
        1 <= m <= xs.len(),
        forall|q: int|
            1 <= q < xs.len() ==> 0 <= #[trigger] ps[q - 1] < t.len() && tt_spec(t, ps[q - 1]) == Some(sep)
                && var_shape(t, ps[q - 1] + 1, xs[q]) && var_end(t, ps[q - 1] + 1) == Some(ps[q]) && ps[q - 1] < ps[q] <= t.len(),
        !(0 <= ps.last() < t.len() && tt_spec(t, ps.last()) == Some(sep)),
    ensures
        vars_more_shape(t, ps[m - 1], xs, m, sep),
    decreases xs.len() - m,
{
    if m < xs.len() {
        lemma_vars_shape(t, xs, ps, m + 1, sep);
        assert(ps[m] == ps[(m + 1) - 1]);
    }
}
/// Where a run of `sep` and further expressions from `j` ends.
pub open spec fn exprs_more_end(t: Seq<Token>, j: int, sep: TT) -> Option<int>
    decreases t.len() - j,
{
    if 0 <= j < t.len() && tt_spec(t, j) == Some(sep) {
        match expr_end(t, j + 1) {
            Some(k) => if j < k <= t.len() {
                exprs_more_end(t, k, sep)
            } else {
                None
            },
            None => None,
        }
    } else {
        Some(j)
    }
}

/// Where the expressions from `i`, joined by `sep`, end.
pub open spec fn exprs_end(t: Seq<Token>, i: int, sep: TT) -> Option<int> {
    match expr_end(t, i) {
        Some(j) => if i < j <= t.len() {
            exprs_more_end(t, j, sep)
        } else {
            None
        },
        None => None,
    }
}

/// The expressions of `xs` from the `m`-th on are those after `sep` from `j`.
pub open spec fn exprs_more_shape(t: Seq<Token>, j: int, xs: Seq<Expr>, m: int, sep: TT) -> bool
    decreases t.len() - j,
{
    if 0 <= j < t.len() && tt_spec(t, j) == Some(sep) {
        &&& 0 <= m < xs.len()
        &&& expr_shape(t, j + 1, xs[m])
        &&& match expr_end(t, j + 1) {
            Some(k) => j < k <= t.len() && exprs_more_shape(t, k, xs, m + 1, sep),
            None => false,
        }
    } else {
        m == xs.len()
    }
}

/// `xs` are the expressions written from `i`, joined by `sep`.
pub open spec fn exprs_shape(t: Seq<Token>, i: int, xs: Seq<Expr>, sep: TT) -> bool {
    &&& xs.len() >= 1
    &&& expr_shape(t, i, xs[0])
    &&& match expr_end(t, i) {
        Some(j) => i < j <= t.len() && exprs_more_shape(t, j, xs, 1, sep),
        None => false,
    }
}

proof fn lemma_exprs_shape(t: Seq<Token>, xs: Seq<Expr>, ps: Seq<int>, m: int, sep: TT)
    requires
        ps.len() == xs.len(),
        1 <= m <= xs.len(),
        forall|q: int|
            1 <= q < xs.len() ==> 0 <= #[trigger] ps[q - 1] < t.len() && tt_spec(t, ps[q - 1]) == Some(sep)
                && expr_shape(t, ps[q - 1] + 1, xs[q]) && expr_end(t, ps[q - 1] + 1) == Some(ps[q]) && ps[q - 1] < ps[q] <= t.len(),
        !(0 <= ps.last() < t.len() && tt_spec(t, ps.last()) == Some(sep)),
    ensures
        exprs_more_shape(t, ps[m - 1], xs, m, sep),
    decreases xs.len() - m,
{
    if m < xs.len() {
        lemma_exprs_shape(t, xs, ps, m + 1, sep);
        assert(ps[m] == ps[(m + 1) - 1]);
    }
}
/// Where a run of `sep` and further targets from `j` ends.
pub open spec fn targets_more_end(t: Seq<Token>, j: int, sep: TT) -> Option<int>
    decreases t.len() - j,
{
    if 0 <= j < t.len() && tt_spec(t, j) == Some(sep) {
        match target_end(t, j + 1) {
            Some(k) => if j < k <= t.len() {
                targets_more_end(t, k, sep)
            } else {
                None
            },
            None => None,
        }
    } else {
        Some(j)
    }
}

/// Where the targets from `i`, joined by `sep`, end.
pub open spec fn targets_end(t: Seq<Token>, i: int, sep: TT) -> Option<int> {
    match target_end(t, i) {
        Some(j) => if i < j <= t.len() {
            targets_more_end(t, j, sep)
        } else {
            None
        },
        None => None,
    }
}

/// The targets of `xs` from the `m`-th on are those after `sep` from `j`.
pub open spec fn targets_more_shape(t: Seq<Token>, j: int, xs: Seq<Abstain>, m: int, sep: TT) -> bool
    decreases t.len() - j,
{
    if 0 <= j < t.len() && tt_spec(t, j) == Some(sep) {
        &&& 0 <= m < xs.len()
        &&& target_shape(t, j + 1, xs[m])
        &&& match target_end(t, j + 1) {
            Some(k) => j < k <= t.len() && targets_more_shape(t, k, xs, m + 1, sep),
            None => false,
        }
    } else {
        m == xs.len()
    }
}

/// `xs` are the targets written from `i`, joined by `sep`.
pub open spec fn targets_shape(t: Seq<Token>, i: int, xs: Seq<Abstain>, sep: TT) -> bool {
    &&& xs.len() >= 1
    &&& target_shape(t, i, xs[0])
    &&& match target_end(t, i) {
        Some(j) => i < j <= t.len() && targets_more_shape(t, j, xs, 1, sep),
        None => false,
    }
}

proof fn lemma_targets_shape(t: Seq<Token>, xs: Seq<Abstain>, ps: Seq<int>, m: int, sep: TT)
    requires
        ps.len() == xs.len(),
        1 <= m <= xs.len(),
        forall|q: int|
            1 <= q < xs.len() ==> 0 <= #[trigger] ps[q - 1] < t.len() && tt_spec(t, ps[q - 1]) == Some(sep)
                && target_shape(t, ps[q - 1] + 1, xs[q]) && target_end(t, ps[q - 1] + 1) == Some(ps[q]) && ps[q - 1] < ps[q] <= t.len(),
        !(0 <= ps.last() < t.len() && tt_spec(t, ps.last()) == Some(sep)),
    ensures
        targets_more_shape(t, ps[m - 1], xs, m, sep),
    decreases xs.len() - m,
{
    if m < xs.len() {
        lemma_targets_shape(t, xs, ps, m + 1, sep);
        assert(ps[m] == ps[(m + 1) - 1]);
    }
}

pub open spec fn gerund_spec(tt: TT) -> Option<Abstain> {
    match tt {
        TT::CALCULATING => Some(Abstain::Calc),
        TT::NEXTING => Some(Abstain::Next),
        TT::RESUMING => Some(Abstain::Resume),
        TT::FORGETTING => Some(Abstain::Forget),
        TT::IGNORING => Some(Abstain::Ignore),
        TT::REMEMBERING => Some(Abstain::Remember),
        TT::STASHING => Some(Abstain::Stash),
        TT::RETRIEVING => Some(Abstain::Retrieve),
        TT::ABSTAINING => Some(Abstain::Abstain),
        TT::REINSTATING => Some(Abstain::Reinstate),
        TT::COMINGFROM => Some(Abstain::ComeFrom),
        TT::READINGOUT => Some(Abstain::ReadOut),
        TT::WRITINGIN => Some(Abstain::WriteIn),
        TT::TRYINGAGAIN => Some(Abstain::TryAgain),
        _ => None,
    }
}

/// Where the target at `i` ends: a label, or a gerund.
pub open spec fn target_end(t: Seq<Token>, i: int) -> Option<int> {
    match label_spec(t, i) {
        Some((_, j)) => Some(j),
        None => match tt_spec(t, i) {
            Some(x) => if gerund_spec(x) is Some {
                Some(i + 1)
            } else {
                None
            },
            None => None,
        },
    }
}

/// `a` is the target written at `i`.
pub open spec fn target_shape(t: Seq<Token>, i: int, a: Abstain) -> bool {
    match label_spec(t, i) {
        Some((l, _)) => a == Abstain::Label(l),
        None => match tt_spec(t, i) {
            Some(x) => gerund_spec(x) == Some(a),
            None => false,
        },
    }
}

/// Variables joined by `+`.
fn var_list(t: &Vec<Token>, i: usize) -> (r: Option<(Vec<Var>, usize)>)
    ensures
        r matches Some((xs, j)) ==> vars_end(t@, i as int, TT::INTERSECTION) == Some(j as int) && vars_shape(t@, i as int, xs@, TT::INTERSECTION),
        r is None ==> vars_end(t@, i as int, TT::INTERSECTION) is None,
        r matches Some((_, j)) ==> i < j <= t@.len(),
{
    let len = t.len();
    let (x, mut j) = var_at(t, i)?;
    let mut xs: Vec<Var> = Vec::new();
    xs.push(x);
    let ghost mut ps: Seq<int> = seq![j as int];
    while tt_at(t, j) == Some(TT::INTERSECTION)
        invariant
            i < j <= t@.len(),
            len == t@.len(),
            vars_end(t@, i as int, TT::INTERSECTION) == vars_more_end(t@, j as int, TT::INTERSECTION),
            var_end(t@, i as int) == Some(ps[0]),
            var_shape(t@, i as int, xs@[0]),
            ps.len() == xs@.len(),
            xs@.len() >= 1,
            ps.last() == j,
            forall|q: int|
                1 <= q < xs@.len() ==> 0 <= #[trigger] ps[q - 1] < t@.len() && tt_spec(t@, ps[q - 1]) == Some(TT::INTERSECTION)
                    && var_shape(t@, ps[q - 1] + 1, xs@[q]) && var_end(t@, ps[q - 1] + 1) == Some(ps[q]) && ps[q - 1] < ps[q] <= t@.len(),
        decreases t@.len() - j,
    {
        match var_at(t, j + 1) {
            Some((x, k)) => {
                let ghost old_ps = ps;
                let ghost old_xs = xs@;
                xs.push(x);
                proof {
                    ps = ps.push(k as int);
                    assert forall|q: int|
                        1 <= q < xs@.len() implies 0 <= #[trigger] ps[q - 1] < t@.len() && tt_spec(t@, ps[q - 1]) == Some(TT::INTERSECTION)
                            && var_shape(t@, ps[q - 1] + 1, xs@[q]) && var_end(t@, ps[q - 1] + 1) == Some(ps[q]) && ps[q - 1] < ps[q] <= t@.len() by {
                        if q < old_xs.len() {
                            assert(old_ps[q - 1] == ps[q - 1] && old_ps[q] == ps[q] && old_xs[q] == xs@[q]);
                        }
                    }
                }
                j = k;
            },
            None => {
                proof {
                    assert(vars_more_end(t@, j as int, TT::INTERSECTION) is None);
                }
                return None;
            },
        }
    }
    proof {
        lemma_vars_shape(t@, xs@, ps, 1, TT::INTERSECTION);
    }
    Some((xs, j))
}


/// Expressions joined by `sep`.
fn expr_list(t: &Vec<Token>, i: usize, sep: TT) -> (r: Option<(Vec<Expr>, usize)>)
    ensures
        r matches Some((xs, j)) ==> exprs_end(t@, i as int, sep) == Some(j as int) && exprs_shape(t@, i as int, xs@, sep),
        r is None ==> exprs_end(t@, i as int, sep) is None,
        r matches Some((_, j)) ==> i < j <= t@.len(),
{
    let len = t.len();
    let (x, mut j) = expr_at(t, i)?;
    let mut xs: Vec<Expr> = Vec::new();
    xs.push(x);
    let ghost mut ps: Seq<int> = seq![j as int];
    while tt_at(t, j) == Some(sep)
        invariant
            i < j <= t@.len(),
            len == t@.len(),
            exprs_end(t@, i as int, sep) == exprs_more_end(t@, j as int, sep),
            expr_end(t@, i as int) == Some(ps[0]),
            expr_shape(t@, i as int, xs@[0]),
            ps.len() == xs@.len(),
            xs@.len() >= 1,
            ps.last() == j,
            forall|q: int|
                1 <= q < xs@.len() ==> 0 <= #[trigger] ps[q - 1] < t@.len() && tt_spec(t@, ps[q - 1]) == Some(sep)
                    && expr_shape(t@, ps[q - 1] + 1, xs@[q]) && expr_end(t@, ps[q - 1] + 1) == Some(ps[q]) && ps[q - 1] < ps[q] <= t@.len(),
        decreases t@.len() - j,
    {
        match expr_at(t, j + 1) {
            Some((x, k)) => {
                let ghost old_ps = ps;
                let ghost old_xs = xs@;
                xs.push(x);
                proof {
                    ps = ps.push(k as int);
                    assert forall|q: int|
                        1 <= q < xs@.len() implies 0 <= #[trigger] ps[q - 1] < t@.len() && tt_spec(t@, ps[q - 1]) == Some(sep)
                            && expr_shape(t@, ps[q - 1] + 1, xs@[q]) && expr_end(t@, ps[q - 1] + 1) == Some(ps[q]) && ps[q - 1] < ps[q] <= t@.len() by {
                        if q < old_xs.len() {
                            assert(old_ps[q - 1] == ps[q - 1] && old_ps[q] == ps[q] && old_xs[q] == xs@[q]);
                        }
                    }
                }
                j = k;
            },
            None => {
                proof {
                    assert(exprs_more_end(t@, j as int, sep) is None);
                }
                return None;
            },
        }
    }
    proof {
        lemma_exprs_shape(t@, xs@, ps, 1, sep);
    }
    Some((xs, j))
}


/// One ABSTAIN or REINSTATE target: a label or a gerund.
fn target_at(t: &Vec<Token>, i: usize) -> (r: Option<(Abstain, usize)>)
    ensures
        r matches Some((x, j)) ==> target_end(t@, i as int) == Some(j as int) && target_shape(t@, i as int, x),
        r is None ==> target_end(t@, i as int) is None,
        r matches Some((_, j)) ==> i < j <= t@.len(),
{
    let len = t.len();
    if let Some((l, j)) = label_at(t, i) {
        return Some((Abstain::Label(l), j));
    }
    let g = gerund(tt_at(t, i)?)?;
    Some((g, i + 1))
}

/// Targets joined by `+`.
fn target_list(t: &Vec<Token>, i: usize) -> (r: Option<(Vec<Abstain>, usize)>)
    ensures
        r matches Some((xs, j)) ==> targets_end(t@, i as int, TT::INTERSECTION) == Some(j as int) && targets_shape(t@, i as int, xs@, TT::INTERSECTION),
        r is None ==> targets_end(t@, i as int, TT::INTERSECTION) is None,
        r matches Some((_, j)) ==> i < j <= t@.len(),
{
    let len = t.len();
    let (x, mut j) = target_at(t, i)?;
    let mut xs: Vec<Abstain> = Vec::new();
    xs.push(x);
    let ghost mut ps: Seq<int> = seq![j as int];
    while tt_at(t, j) == Some(TT::INTERSECTION)
        invariant
            i < j <= t@.len(),
            len == t@.len(),
            targets_end(t@, i as int, TT::INTERSECTION) == targets_more_end(t@, j as int, TT::INTERSECTION),
            target_end(t@, i as int) == Some(ps[0]),
            target_shape(t@, i as int, xs@[0]),
            ps.len() == xs@.len(),
            xs@.len() >= 1,
            ps.last() == j,
            forall|q: int|
                1 <= q < xs@.len() ==> 0 <= #[trigger] ps[q - 1] < t@.len() && tt_spec(t@, ps[q - 1]) == Some(TT::INTERSECTION)
                    && target_shape(t@, ps[q - 1] + 1, xs@[q]) && target_end(t@, ps[q - 1] + 1) == Some(ps[q]) && ps[q - 1] < ps[q] <= t@.len(),
        decreases t@.len() - j,
    {
        match target_at(t, j + 1) {
            Some((x, k)) => {
                let ghost old_ps = ps;
                let ghost old_xs = xs@;
                xs.push(x);
                proof {
                    ps = ps.push(k as int);
                    assert forall|q: int|
                        1 <= q < xs@.len() implies 0 <= #[trigger] ps[q - 1] < t@.len() && tt_spec(t@, ps[q - 1]) == Some(TT::INTERSECTION)
                            && target_shape(t@, ps[q - 1] + 1, xs@[q]) && target_end(t@, ps[q - 1] + 1) == Some(ps[q]) && ps[q - 1] < ps[q] <= t@.len() by {
                        if q < old_xs.len() {
                            assert(old_ps[q - 1] == ps[q - 1] && old_ps[q] == ps[q] && old_xs[q] == xs@[q]);
                        }
                    }
                }
                j = k;
            },
            None => {
                proof {
                    assert(targets_more_end(t@, j as int, TT::INTERSECTION) is None);
                }
                return None;
            },
        }
    }
    proof {
        lemma_targets_shape(t@, xs@, ps, 1, TT::INTERSECTION);
    }
    Some((xs, j))
}

/// The token is an array sigil.
pub open spec fn array_sigil(t: Seq<Token>, i: int) -> bool {
    tt_spec(t, i) == Some(TT::TAIL) || tt_spec(t, i) == Some(TT::HYBRID)
}

/// Where the statement body at `i` ends.
pub open spec fn body_end(t: Seq<Token>, i: int) -> Option<int> {
    match tt_spec(t, i) {
        Some(TT::WAX) => match label_spec(t, i) {
            Some((_, j)) => if tt_spec(t, j) == Some(TT::NEXT) {
                Some(j + 1)
            } else {
                None
            },
            None => None,
        },
        Some(TT::COMEFROM) => match label_spec(t, i + 1) {
            Some((_, j)) => Some(j),
            None => if tt_spec(t, i + 1) is Some && gerund_spec(tt_spec(t, i + 1).unwrap()) is Some {
                Some(i + 2)
            } else {
                expr_end(t, i + 1)
            },
        },
        Some(TT::RESUME) | Some(TT::FORGET) => expr_end(t, i + 1),
        Some(TT::IGNORE) | Some(TT::REMEMBER) | Some(TT::STASH) | Some(TT::RETRIEVE) | Some(TT::WRITEIN) =>
            vars_end(t, i + 1, TT::INTERSECTION),
        Some(TT::ABSTAIN) => if tt_spec(t, i + 1) == Some(TT::FROM) {
            targets_end(t, i + 2, TT::INTERSECTION)
        } else {
            match expr_end(t, i + 1) {
                Some(j) => if tt_spec(t, j) == Some(TT::FROM) {
                    targets_end(t, j + 1, TT::INTERSECTION)
                } else {
                    None
                },
                None => None,
            }
        },
        Some(TT::REINSTATE) => targets_end(t, i + 1, TT::INTERSECTION),
        Some(TT::READOUT) => exprs_end(t, i + 1, TT::INTERSECTION),
        Some(TT::TRYAGAIN) | Some(TT::GIVEUP) => Some(i + 1),
        Some(_) => match var_end(t, i) {
            Some(j) => if tt_spec(t, j) == Some(TT::GETS) {
                if array_sigil(t, i) && tt_spec(t, i + 2) != Some(TT::SUB) {
                    exprs_end(t, j + 1, TT::BY)
                } else {
                    expr_end(t, j + 1)
                }
            } else {
                None
            },
            None => None,
        },
        None => None,
    }
}

/// `b` is the statement body written at `i`: the keyword decides the
/// kind; a whole array before `<-` is dimensioned (BY between sizes), any
/// other variable is assigned.
pub open spec fn body_shape(t: Seq<Token>, i: int, b: StmtBody) -> bool {
    match tt_spec(t, i) {
        Some(TT::WAX) => match label_spec(t, i) {
            Some((l, _)) => b == StmtBody::DoNext(l),
            None => false,
        },
        Some(TT::COMEFROM) => match label_spec(t, i + 1) {
            Some((l, _)) => b == StmtBody::ComeFrom(ComeFrom::Label(l)),
            None => if tt_spec(t, i + 1) is Some && gerund_spec(tt_spec(t, i + 1).unwrap()) is Some {
                b == StmtBody::ComeFrom(ComeFrom::Gerund(gerund_spec(tt_spec(t, i + 1).unwrap()).unwrap()))
            } else {
                match b {
                    StmtBody::ComeFrom(ComeFrom::Expr(e)) => expr_shape(t, i + 1, e),
                    _ => false,
                }
            },
        },
        Some(TT::RESUME) => match b {
            StmtBody::Resume(e) => expr_shape(t, i + 1, e),
            _ => false,
        },
        Some(TT::FORGET) => match b {
            StmtBody::Forget(e) => expr_shape(t, i + 1, e),
            _ => false,
        },
        Some(TT::IGNORE) => match b {
            StmtBody::Ignore(vs) => vars_shape(t, i + 1, vs@, TT::INTERSECTION),
            _ => false,
        },
        Some(TT::REMEMBER) => match b {
            StmtBody::Remember(vs) => vars_shape(t, i + 1, vs@, TT::INTERSECTION),
            _ => false,
        },
        Some(TT::STASH) => match b {
            StmtBody::Stash(vs) => vars_shape(t, i + 1, vs@, TT::INTERSECTION),
            _ => false,
        },
        Some(TT::RETRIEVE) => match b {
            StmtBody::Retrieve(vs) => vars_shape(t, i + 1, vs@, TT::INTERSECTION),
            _ => false,
        },
        Some(TT::WRITEIN) => match b {
            StmtBody::WriteIn(vs) => vars_shape(t, i + 1, vs@, TT::INTERSECTION),
            _ => false,
        },
        Some(TT::ABSTAIN) => match b {
            StmtBody::Abstain(None, ts) => tt_spec(t, i + 1) == Some(TT::FROM) && targets_shape(
                t,
                i + 2,
                ts@,
                TT::INTERSECTION,
            ),
            StmtBody::Abstain(Some(e), ts) => tt_spec(t, i + 1) != Some(TT::FROM) && expr_shape(t, i + 1, e)
                && match expr_end(t, i + 1) {
                Some(j) => targets_shape(t, j + 1, ts@, TT::INTERSECTION),
                None => false,
            },
            _ => false,
        },
        Some(TT::REINSTATE) => match b {
            StmtBody::Reinstate(ts) => targets_shape(t, i + 1, ts@, TT::INTERSECTION),
            _ => false,
        },
        Some(TT::READOUT) => match b {
            StmtBody::ReadOut(es) => exprs_shape(t, i + 1, es@, TT::INTERSECTION),
            _ => false,
        },
        Some(TT::TRYAGAIN) => b == StmtBody::TryAgain,
        Some(TT::GIVEUP) => b == StmtBody::GiveUp,
        Some(_) => match var_end(t, i) {
            Some(j) => if array_sigil(t, i) && tt_spec(t, i + 2) != Some(TT::SUB) {
                match b {
                    StmtBody::Dim(v, ds) => var_shape(t, i, v) && exprs_shape(t, j + 1, ds@, TT::BY),
                    _ => false,
                }
            } else {
                match b {
                    StmtBody::Calc(v, e) => var_shape(t, i, v) && expr_shape(t, j + 1, e),
                    _ => false,
                }
            },
            None => false,
        },
        None => false,
    }
}

/// A statement body.
fn body_at(t: &Vec<Token>, i: usize) -> (r: Option<(StmtBody, usize)>)
    ensures
        r matches Some((b, j)) ==> body_end(t@, i as int) == Some(j as int) && body_shape(t@, i as int, b),
        r is None ==> body_end(t@, i as int) is None,
        r matches Some((_, j)) ==> i < j <= t@.len(),
{
    let len = t.len();
    let tt = tt_at(t, i)?;
    match tt {
        TT::WAX => {
            let (l, j) = label_at(t, i)?;
            if tt_at(t, j) != Some(TT::NEXT) {
                return None;
            }
            Some((StmtBody::DoNext(l), j + 1))
        },
        TT::COMEFROM => {
            if let Some((l, j)) = label_at(t, i + 1) {
                return Some((StmtBody::ComeFrom(ComeFrom::Label(l)), j));
            }
            if let Some(x) = tt_at(t, i + 1) {
                if let Some(g) = gerund(x) {
                    return Some((StmtBody::ComeFrom(ComeFrom::Gerund(g)), i + 2));
                }
            }
            let (e, j) = expr_at(t, i + 1)?;
            Some((StmtBody::ComeFrom(ComeFrom::Expr(e)), j))
        },
        TT::RESUME => {
            let (e, j) = expr_at(t, i + 1)?;
            Some((StmtBody::Resume(e), j))
        },
        TT::FORGET => {
            let (e, j) = expr_at(t, i + 1)?;
            Some((StmtBody::Forget(e), j))
        },
        TT::IGNORE | TT::REMEMBER | TT::STASH | TT::RETRIEVE | TT::WRITEIN => {
            let (vs, j) = var_list(t, i + 1)?;
            let b = match tt {
                TT::IGNORE => StmtBody::Ignore(vs),
                TT::REMEMBER => StmtBody::Remember(vs),
                TT::STASH => StmtBody::Stash(vs),
                TT::RETRIEVE => StmtBody::Retrieve(vs),
                _ => StmtBody::WriteIn(vs),
            };
            Some((b, j))
        },
        TT::ABSTAIN => {
            if tt_at(t, i + 1) == Some(TT::FROM) {
                let (ts, j) = target_list(t, i + 2)?;
                return Some((StmtBody::Abstain(None, ts), j));
            }
            let (e, j) = expr_at(t, i + 1)?;
            if tt_at(t, j) != Some(TT::FROM) {
                return None;
            }
            let (ts, k) = target_list(t, j + 1)?;
            Some((StmtBody::Abstain(Some(e), ts), k))
        },
        TT::REINSTATE => {
            let (ts, j) = target_list(t, i + 1)?;
            Some((StmtBody::Reinstate(ts), j))
        },
        TT::READOUT => {
            let (es, j) = expr_list(t, i + 1, TT::INTERSECTION)?;
            Some((StmtBody::ReadOut(es), j))
        },
        TT::TRYAGAIN => Some((StmtBody::TryAgain, i + 1)),
        TT::GIVEUP => Some((StmtBody::GiveUp, i + 1)),
        _ => {
            let (v, j) = var_at(t, i)?;
            if tt_at(t, j) != Some(TT::GETS) {
                return None;
            }
            if v.is_dim() {
                let (ds, k) = expr_list(t, j + 1, TT::BY)?;
                Some((StmtBody::Dim(v, ds), k))
            } else {
                let (e, k) = expr_at(t, j + 1)?;
                Some((StmtBody::Calc(v, e), k))
            }
        },
    }
}

/// A statement begins here: DO, PLEASE, or a label before either.
fn starts_stmt(t: &Vec<Token>, i: usize) -> (r: bool)
    ensures
        r == starts_spec(t@, i as int),
{
    let len = t.len();
    let at = match label_at(t, i) {
        Some((_, j)) => j,
        None => i,
    };
    match tt_at(t, at) {
        Some(TT::DO) | Some(TT::PLEASEDO) => true,
        _ => false,
    }
}

/// The statement prefix: label, DO or PLEASE, NOT, and the chance.
fn props_at(t: &Vec<Token>, i: usize) -> (r: Option<(StmtProps, usize)>)
    ensures
        r matches Some((p, j)) ==> props_spec(t@, i as int) == Some((p, j as int)),
        r is None ==> props_spec(t@, i as int) is None,
        r matches Some((p, j)) ==> i < j <= t@.len() && p.chance <= 100,
{
    let len = t.len();
    let mut props = StmtProps::default();
    let mut j = i;
    if let Some((l, k)) = label_at(t, i) {
        props.label = l;
        j = k;
    }
    match tt_at(t, j)? {
        TT::DO => {},
        TT::PLEASEDO => {
            props.polite = true;
        },
        _ => {
            return None;
        },
    }
    j = j + 1;
    if tt_at(t, j) == Some(TT::NOT) {
        props.disabled = true;
        j = j + 1;
    }
    if tt_at(t, j) == Some(TT::OHOHSEVEN) {
        let n = number_at(t, j + 1)?;
        if n == 0 || n > 100 {
            return None;
        }
        props.chance = n as u8;
        j = j + 2;
    }
    Some((props, j))
}

/// One statement from position `i`, and where the next one starts. A
/// statement that does not parse becomes an error statement reaching to
/// the next DO or PLEASE.
fn stmt_at(t: &Vec<Token>, i: usize) -> (r: (Stmt, usize))
    requires
        i < t@.len(),
    ensures
        segment(t@, i as int, r.1 as int, r.0),
        i < r.1 <= t@.len(),
        r.0.props.chance <= 100,
{
    let len = t.len();
    let line = t[i].1;
    if let Some((props, j)) = props_at(t, i) {
        let mut props = props;
        props.srcline = line;
        if let Some((body, k)) = body_at(t, j) {
            if k >= len || starts_stmt(t, k) {
                return (Stmt { body, props, comefrom: None, can_abstain: true }, k);
            }
        }
        let k = skip_to_stmt(t, j);
        return (Stmt { body: StmtBody::Error(with_line(ErrCode::IE000, line)), props, comefrom: None, can_abstain: true }, k);
    }
    let mut props = StmtProps::default();
    props.srcline = line;
    let k = skip_to_stmt(t, i + 1);
    (Stmt { body: StmtBody::Error(with_line(ErrCode::IE000, line)), props, comefrom: None, can_abstain: true }, k)
}

/// The next position from `i` on where a statement begins, or the end.
fn skip_to_stmt(t: &Vec<Token>, i: usize) -> (r: usize)
    requires
        0 < i <= t@.len(),
    ensures
        r == t@.len() || starts_spec(t@, r as int),
        i <= r <= t@.len(),
{
    let len = t.len();
    let mut j = i;
    while j < len && !starts_stmt(t, j)
        invariant
            i <= j <= len,
            len == t@.len(),
        decreases len - j,
    {
        j = j + 1;
    }
    j
}

/// The statements `ss` parse the tokens `t`: cut at the positions `ps`,
/// each piece is one statement.
pub open spec fn parsed_at(t: Seq<Token>, ss: Seq<Stmt>, ps: Seq<int>) -> bool {
    &&& ps.len() == ss.len() + 1
    &&& ps[0] == 0
    &&& ps.last() == t.len()
    &&& forall|k: int| 0 <= k < ss.len() ==> #[trigger] segment(t, ps[k], ps[k + 1], ss[k])
}

/// The statements parse the tokens.
pub open spec fn parsed(t: Seq<Token>, ss: Seq<Stmt>) -> bool {
    exists|ps: Seq<int>| parsed_at(t, ss, ps)
}

/// A statement with another "on the way to" line.
pub open spec fn same_but_next_line(a: Stmt, b: Stmt) -> bool {
    b == (Stmt { props: StmtProps { onthewayto: b.props.onthewayto, ..a.props }, ..a })
}

/// Parses a source text whose first line is `startline` into a program,
/// before analysis: statements cut from the token stream at each DO or
/// PLEASE (with its label), each knowing the line of the next.
pub fn parse(src: Vec<u8>, startline: usize) -> (r: Program)
    requires
        startline + src@.len() < usize::MAX,
    ensures
        parsed(expand(raw_stream(src@, 0, startline as nat)), r.stmts@),
        forall|k: int| 0 <= k < r.stmts@.len() - 1 ==> #[trigger] r.stmts@[k].props.onthewayto == r.stmts@[k + 1].props.srcline,
        forall|i: int| 0 <= i < r.stmts@.len() ==> #[trigger] r.stmts@[i].props.chance <= 100,
        r.labels@ == Map::<u16, u16>::empty(),
        r.stmt_types@.len() == 0,
{
    let t = tokens(src, startline);
    let len = t.len();
    let mut stmts: Vec<Stmt> = Vec::new();
    let ghost mut ps: Seq<int> = seq![0];
    let mut i: usize = 0;
    while i < len
        invariant
            i <= len,
            len == t@.len(),
            t@ == expand(raw_stream(src@, 0, startline as nat)),
            ps.len() == stmts@.len() + 1,
            ps[0] == 0,
            ps.last() == i,
            forall|k: int| 0 <= k < stmts@.len() ==> #[trigger] segment(t@, ps[k], ps[k + 1], stmts@[k]),
        decreases len - i,
    {
        let (st, j) = stmt_at(&t, i);
        let ghost old_ps = ps;
        let ghost old_st = stmts@;
        stmts.push(st);
        proof {
            ps = ps.push(j as int);
            assert forall|k: int| 0 <= k < stmts@.len() implies #[trigger] segment(t@, ps[k], ps[k + 1], stmts@[k]) by {
                if k < old_st.len() {
                    assert(segment(t@, old_ps[k], old_ps[k + 1], old_st[k]));
                }
            }
        }
        i = j;
    }
    let ghost cut = stmts@;
    let n = stmts.len();
    let mut k: usize = 0;
    while n > 0 && k < n - 1
        invariant
            n == stmts@.len(),
            n == cut.len(),
            k <= n,
            n > 0 ==> k < n,
            forall|m: int| 0 <= m < n ==> #[trigger] same_but_next_line(cut[m], stmts@[m]),
            forall|m: int| 0 <= m < k ==> #[trigger] stmts@[m].props.onthewayto == stmts@[m + 1].props.srcline,
        decreases n - k,
    {
        let next = stmts[k + 1].props.srcline;
        let ghost prev = stmts@;
        stmts[k].props.onthewayto = next;
        proof {
            assert forall|m: int| 0 <= m < n implies #[trigger] same_but_next_line(cut[m], stmts@[m]) by {
                assert(same_but_next_line(cut[m], prev[m]));
                if m != k {
                    assert(stmts@[m] == prev[m]);
                }
            }
            assert forall|m: int| 0 <= m < k + 1 implies #[trigger] stmts@[m].props.onthewayto == stmts@[m + 1].props.srcline by {
                assert(stmts@[m + 1].props.srcline == prev[m + 1].props.srcline);
                if m < k {
                    assert(stmts@[m] == prev[m]);
                }
            }
        }
        k = k + 1;
    }
    proof {
        assert forall|m: int| 0 <= m < n implies #[trigger] segment(t@, ps[m], ps[m + 1], stmts@[m]) by {
            assert(same_but_next_line(cut[m], stmts@[m]));
            assert(segment(t@, ps[m], ps[m + 1], cut[m]));
        }
        assert(parsed_at(t@, stmts@, ps));
        assert forall|m: int| 0 <= m < n implies #[trigger] stmts@[m].props.chance <= 100 by {
            assert(segment(t@, ps[m], ps[m + 1], stmts@[m]));
        }
    }
    Program {
        stmts,
        labels: BTreeMap::new(),
        stmt_types: Vec::new(),
        var_info: (Vec::new(), Vec::new(), Vec::new(), Vec::new()),
        uses_complex_comefrom: false,
        added_syslib: false,
        added_floatlib: false,
        bugline: 0xFFFF,
    }
}

} // verus!
