//! The optimizer: constant folding, lowering of INTERCAL idioms to
//! conventional operators, the constant-output reduction, and the passes
//! that tell the interpreter which checks it can skip.

use std::collections::BTreeMap;

use vstd::prelude::*;

use crate::ast::{Abstain, Expr, Program, Stmt, StmtBody, VType, Var, VarInfo, var_key};
use crate::err::RtError;
use crate::eval::{Eval, Flow, Output, Rng, State, Val, bytes_out, eval_spec, lookup_spec, subs_spec, fresh_eval, num_val, program_wf, run_ok, val_u32};
use crate::ops::{and_16, and_32, mingle, or_16, or_32, select, xor_16, xor_32};

verus! {

/// Two expressions have the same value, or raise the same error, in every
/// state.
pub open spec fn same_meaning(a: Expr, b: Expr) -> bool {
    forall|st: State| #[trigger] eval_spec(st, a) == eval_spec(st, b)
}

/// A literal evaluates to its own number, whatever its width.
proof fn lemma_num(t: VType, n: u32)
    ensures
        forall|st: State| #[trigger] eval_spec(st, Expr::Num(t, n)) == Ok::<Val, RtError>(num_val(t, n)),
        val_u32(num_val(t, n)) == n,
{
}

/// The literal an expression folds to, when it folds to one: a literal
/// itself, or a MINGLE (of operands up to 0xFFFF), SELECT, AND, OR or XOR
/// whose operands fold to literals.
pub open spec fn fold_lit(e: Expr) -> Option<(VType, u32)>
    decreases e,
{
    match e {
        Expr::Num(t, n) => Some((t, n)),
        Expr::Mingle(a, b) => match fold_lit(*a) {
            Some((_, v)) => match fold_lit(*b) {
                Some((_, w)) => if v <= 0xFFFF && w <= 0xFFFF {
                    Some((VType::I32, crate::ops::mingle_spec(v as nat, w as nat) as u32))
                } else {
                    None
                },
                None => None,
            },
            None => None,
        },
        Expr::Select(t, a, b) => match fold_lit(*a) {
            Some((_, v)) => match fold_lit(*b) {
                Some((_, w)) => Some((t, crate::ops::select_spec(v as nat, w as nat) as u32)),
                None => None,
            },
            None => None,
        },
        Expr::And(_, a) => match fold_lit(*a) {
            Some((vt, v)) => if vt == VType::I16 && v <= 0xFFFF {
                Some((VType::I16, crate::ops::and16_spec(v as u16) as u32))
            } else {
                Some((VType::I32, crate::ops::and32_spec(v)))
            },
            None => None,
        },
        Expr::Or(_, a) => match fold_lit(*a) {
            Some((vt, v)) => if vt == VType::I16 && v <= 0xFFFF {
                Some((VType::I16, crate::ops::or16_spec(v as u16) as u32))
            } else {
                Some((VType::I32, crate::ops::or32_spec(v)))
            },
            None => None,
        },
        Expr::Xor(_, a) => match fold_lit(*a) {
            Some((vt, v)) => if vt == VType::I16 && v <= 0xFFFF {
                Some((VType::I16, crate::ops::xor16_spec(v as u16) as u32))
            } else {
                Some((VType::I32, crate::ops::xor32_spec(v)))
            },
            None => None,
        },
        _ => None,
    }
}

/// `r` is `e` folded: the literal `e` folds to, if any; otherwise the same
/// operator over the folded operands, subscripts of variables included.
pub open spec fn fold_rel(e: Expr, r: Expr) -> bool
    decreases e, 0int,
{
    match fold_lit(e) {
        Some((t, z)) => r == Expr::Num(t, z),
        None => match e {
            Expr::Num(..) => false,
            Expr::Var(v) => match r {
                Expr::Var(w) => var_fold_rel(v, w),
                _ => false,
            },
            Expr::Mingle(a, b) => match r {
                Expr::Mingle(a2, b2) => fold_rel(*a, *a2) && fold_rel(*b, *b2),
                _ => false,
            },
            Expr::Select(t, a, b) => match r {
                Expr::Select(t2, a2, b2) => t2 == t && fold_rel(*a, *a2) && fold_rel(*b, *b2),
                _ => false,
            },
            Expr::And(t, a) => match r {
                Expr::And(t2, a2) => t2 == t && fold_rel(*a, *a2),
                _ => false,
            },
            Expr::Or(t, a) => match r {
                Expr::Or(t2, a2) => t2 == t && fold_rel(*a, *a2),
                _ => false,
            },
            Expr::Xor(t, a) => match r {
                Expr::Xor(t2, a2) => t2 == t && fold_rel(*a, *a2),
                _ => false,
            },
            Expr::RsNot(a) => match r {
                Expr::RsNot(a2) => fold_rel(*a, *a2),
                _ => false,
            },
            Expr::RsAnd(a, b) => match r {
                Expr::RsAnd(a2, b2) => fold_rel(*a, *a2) && fold_rel(*b, *b2),
                _ => false,
            },
            Expr::RsOr(a, b) => match r {
                Expr::RsOr(a2, b2) => fold_rel(*a, *a2) && fold_rel(*b, *b2),
                _ => false,
            },
            Expr::RsXor(a, b) => match r {
                Expr::RsXor(a2, b2) => fold_rel(*a, *a2) && fold_rel(*b, *b2),
                _ => false,
            },
            Expr::RsRshift(a, b) => match r {
                Expr::RsRshift(a2, b2) => fold_rel(*a, *a2) && fold_rel(*b, *b2),
                _ => false,
            },
            Expr::RsLshift(a, b) => match r {
                Expr::RsLshift(a2, b2) => fold_rel(*a, *a2) && fold_rel(*b, *b2),
                _ => false,
            },
            Expr::RsNotEqual(a, b) => match r {
                Expr::RsNotEqual(a2, b2) => fold_rel(*a, *a2) && fold_rel(*b, *b2),
                _ => false,
            },
            Expr::RsPlus(a, b) => match r {
                Expr::RsPlus(a2, b2) => fold_rel(*a, *a2) && fold_rel(*b, *b2),
                _ => false,
            },
            Expr::RsMinus(a, b) => match r {
                Expr::RsMinus(a2, b2) => fold_rel(*a, *a2) && fold_rel(*b, *b2),
                _ => false,
            },
        },
    }
}

/// `w` is `v` with its subscripts folded.
pub open spec fn var_fold_rel(v: Var, w: Var) -> bool
    decreases v, 0int,
{
    match v {
        Var::I16(n) => w == Var::I16(n),
        Var::I32(n) => w == Var::I32(n),
        Var::A16(n, s) => match w {
            Var::A16(m, s2) => m == n && s2@.len() == s@.len() && subs_fold_upto(s, s2, s@.len() as int),
            _ => false,
        },
        Var::A32(n, s) => match w {
            Var::A32(m, s2) => m == n && s2@.len() == s@.len() && subs_fold_upto(s, s2, s@.len() as int),
            _ => false,
        },
    }
}

/// The first `k` expressions of `s2` are those of `s` folded.
pub open spec fn subs_fold_upto(s: Vec<Expr>, s2: Vec<Expr>, k: int) -> bool
    decreases s, k,
{
    if k <= 0 || k > s@.len() {
        true
    } else {
        subs_fold_upto(s, s2, k - 1) && fold_rel(s[k - 1], s2[k - 1])
    }
}

/// The subscripts of `w` evaluate as those of `v` in every state.
pub open spec fn var_subs_same(w: Var, v: Var) -> bool {
    match (w, v) {
        (Var::A16(_, s2), Var::A16(_, s)) => forall|st: State| #[trigger] subs_spec(st, s2, s2@.len() as int) == subs_spec(st, s, s@.len() as int),
        (Var::A32(_, s2), Var::A32(_, s)) => forall|st: State| #[trigger] subs_spec(st, s2, s2@.len() as int) == subs_spec(st, s, s@.len() as int),
        _ => true,
    }
}

proof fn lemma_lit_iff(a: Expr, a2: Expr)
    requires
        fold_rel(a, a2),
    ensures
        (a2 is Num) == (fold_lit(a) is Some),
        a2 matches Expr::Num(t, v) ==> fold_lit(a) == Some((t, v)),
{
}

proof fn lemma_subs_same(st: State, s: Vec<Expr>, r: Vec<Expr>, k: int)
    requires
        r@.len() == s@.len(),
        0 <= k <= s@.len(),
        forall|j: int| 0 <= j < k ==> #[trigger] eval_spec(st, r@[j]) == eval_spec(st, s@[j]),
    ensures
        subs_spec(st, r, k) == subs_spec(st, s, k),
    decreases k,
{
    if k > 0 {
        lemma_subs_same(st, s, r, k - 1);
        assert(eval_spec(st, r@[k - 1]) == eval_spec(st, s@[k - 1]));
    }
}

proof fn lemma_fold_upto(s: Vec<Expr>, r: Vec<Expr>, k: int)
    requires
        0 <= k <= s@.len(),
        forall|j: int| 0 <= j < k ==> #[trigger] fold_rel(s@[j], r@[j]),
    ensures
        subs_fold_upto(s, r, k),
    decreases k,
{
    if k > 0 {
        lemma_fold_upto(s, r, k - 1);
        assert(fold_rel(s@[k - 1], r@[k - 1]));
    }
}

/// Folding a select of a mingle of two literals by the odd or even mask
/// gives back the first or the second literal.
pub proof fn lemma_fold_select_mingle(v: u32, w: u32, t1: VType, t2: VType, r: Expr, r2: Expr)
    requires
        v <= 0xFFFF,
        w <= 0xFFFF,
    ensures
        fold_rel(
            Expr::Select(
                VType::I32,
                Box::new(Expr::Mingle(Box::new(Expr::Num(t1, v)), Box::new(Expr::Num(t2, w)))),
                Box::new(Expr::Num(VType::I32, 0xAAAA_AAAA)),
            ),
            r,
        ) ==> r == Expr::Num(VType::I32, v),
        fold_rel(
            Expr::Select(
                VType::I32,
                Box::new(Expr::Mingle(Box::new(Expr::Num(t1, v)), Box::new(Expr::Num(t2, w)))),
                Box::new(Expr::Num(VType::I32, 0x5555_5555)),
            ),
            r2,
        ) ==> r2 == Expr::Num(VType::I32, w),
{
    crate::ops::lemma_select_inverts_mingle(v, w);
    crate::ops::lemma_mingle_u32(v, w);
    let a = Expr::Num(t1, v);
    let b = Expr::Num(t2, w);
    assert(fold_lit(a) == Some((t1, v)));
    assert(fold_lit(b) == Some((t2, w)));
    let m = Expr::Mingle(Box::new(a), Box::new(b));
    let z = crate::ops::mingle_spec(v as nat, w as nat) as u32;
    assert(fold_lit(m) == Some((VType::I32, z)));
    let odd = Expr::Num(VType::I32, 0xAAAA_AAAAu32);
    let even = Expr::Num(VType::I32, 0x5555_5555u32);
    assert(fold_lit(odd) == Some((VType::I32, 0xAAAA_AAAAu32)));
    assert(fold_lit(even) == Some((VType::I32, 0x5555_5555u32)));
    assert(crate::ops::select_spec(z as nat, 0xAAAA_AAAAu32 as nat) == v);
    assert(crate::ops::select_spec(z as nat, 0x5555_5555u32 as nat) == w);
}

/// Folds, bottom up, every operator whose operands are literals into the
/// literal of its value, subscripts of variables included.
#[verifier::rlimit(60)]
#[verifier::spinoff_prover]
pub fn fold(e: Expr) -> (r: Expr)
    ensures
        fold_rel(e, r),
        same_meaning(r, e),
    decreases e,
{
    let ghost e0 = e;
    match e {
        Expr::Num(t, n) => Expr::Num(t, n),
        Expr::Var(v) => {
            let ghost gv = v;
            let w = fold_var(v);
            let r = Expr::Var(w);
            proof {
                assert forall|st: State| #[trigger] eval_spec(st, r) == eval_spec(st, e0) by {
                    assert(lookup_spec(st, w) == lookup_spec(st, gv));
                }
            }
            r
        },
        Expr::Mingle(a, b) => {
            let ghost ga = *a;
            let ghost gb = *b;
            let a = fold(*a);
            let b = fold(*b);
            proof {
                lemma_lit_iff(ga, a);
                lemma_lit_iff(gb, b);
            }
            if let Expr::Num(t1, v) = a {
                if let Expr::Num(t2, w) = b {
                    if v <= 0xFFFF && w <= 0xFFFF {
                        let z = mingle(v, w);
                        proof {
                            lemma_num(t1, v);
                            lemma_num(t2, w);
                            lemma_num(VType::I32, z);
                            assert forall|st: State| #[trigger] eval_spec(st, Expr::Num(VType::I32, z)) == eval_spec(st, e0) by {
                                assert(eval_spec(st, ga) == eval_spec(st, a));
                                assert(eval_spec(st, gb) == eval_spec(st, b));
                            }
                        }
                        return Expr::Num(VType::I32, z);
                    }
                }
            }
            let r = Expr::Mingle(Box::new(a), Box::new(b));
            proof {
                assert forall|st: State| #[trigger] eval_spec(st, r) == eval_spec(st, e0) by {
                    assert(eval_spec(st, ga) == eval_spec(st, a));
                    assert(eval_spec(st, gb) == eval_spec(st, b));
                }
            }
            r
        },
        Expr::Select(t, a, b) => {
            let ghost ga = *a;
            let ghost gb = *b;
            let a = fold(*a);
            let b = fold(*b);
            proof {
                lemma_lit_iff(ga, a);
                lemma_lit_iff(gb, b);
            }
            if let Expr::Num(t1, v) = a {
                if let Expr::Num(t2, w) = b {
                    let z = select(v, w);
                    proof {
                        lemma_num(t1, v);
                        lemma_num(t2, w);
                        lemma_num(t, z);
                        assert forall|st: State| #[trigger] eval_spec(st, Expr::Num(t, z)) == eval_spec(st, e0) by {
                            assert(eval_spec(st, ga) == eval_spec(st, a));
                            assert(eval_spec(st, gb) == eval_spec(st, b));
                        }
                    }
                    return Expr::Num(t, z);
                }
            }
            let r = Expr::Select(t, Box::new(a), Box::new(b));
            proof {
                assert forall|st: State| #[trigger] eval_spec(st, r) == eval_spec(st, e0) by {
                    assert(eval_spec(st, ga) == eval_spec(st, a));
                    assert(eval_spec(st, gb) == eval_spec(st, b));
                }
            }
            r
        },
        Expr::And(t, a) => {
            let ghost ga = *a;
            let a = fold(*a);
            proof {
                lemma_lit_iff(ga, a);
            }
            if let Expr::Num(vt, v) = a {
                proof {
                    lemma_num(vt, v);
                }
                if vt == VType::I16 && v <= 0xFFFF {
                    let z = and_16(v as u16);
                    proof {
                        lemma_num(VType::I16, z as u32);
                        assert forall|st: State| #[trigger] eval_spec(st, Expr::Num(VType::I16, z as u32)) == eval_spec(st, e0) by {
                            assert(eval_spec(st, ga) == eval_spec(st, a));
                        }
                    }
                    return Expr::Num(VType::I16, z as u32);
                } else {
                    let z = and_32(v);
                    proof {
                        lemma_num(VType::I32, z);
                        assert forall|st: State| #[trigger] eval_spec(st, Expr::Num(VType::I32, z)) == eval_spec(st, e0) by {
                            assert(eval_spec(st, ga) == eval_spec(st, a));
                        }
                    }
                    return Expr::Num(VType::I32, z);
                }
            }
            let r = Expr::And(t, Box::new(a));
            proof {
                assert forall|st: State| #[trigger] eval_spec(st, r) == eval_spec(st, e0) by {
                    assert(eval_spec(st, ga) == eval_spec(st, a));
                }
            }
            r
        },
        Expr::Or(t, a) => {
            let ghost ga = *a;
            let a = fold(*a);
            proof {
                lemma_lit_iff(ga, a);
            }
            if let Expr::Num(vt, v) = a {
                proof {
                    lemma_num(vt, v);
                }
                if vt == VType::I16 && v <= 0xFFFF {
                    let z = or_16(v as u16);
                    proof {
                        lemma_num(VType::I16, z as u32);
                        assert forall|st: State| #[trigger] eval_spec(st, Expr::Num(VType::I16, z as u32)) == eval_spec(st, e0) by {
                            assert(eval_spec(st, ga) == eval_spec(st, a));
                        }
                    }
                    return Expr::Num(VType::I16, z as u32);
                } else {
                    let z = or_32(v);
                    proof {
                        lemma_num(VType::I32, z);
                        assert forall|st: State| #[trigger] eval_spec(st, Expr::Num(VType::I32, z)) == eval_spec(st, e0) by {
                            assert(eval_spec(st, ga) == eval_spec(st, a));
                        }
                    }
                    return Expr::Num(VType::I32, z);
                }
            }
            let r = Expr::Or(t, Box::new(a));
            proof {
                assert forall|st: State| #[trigger] eval_spec(st, r) == eval_spec(st, e0) by {
                    assert(eval_spec(st, ga) == eval_spec(st, a));
                }
            }
            r
        },
        Expr::Xor(t, a) => {
            let ghost ga = *a;
            let a = fold(*a);
            proof {
                lemma_lit_iff(ga, a);
            }
            if let Expr::Num(vt, v) = a {
                proof {
                    lemma_num(vt, v);
                }
                if vt == VType::I16 && v <= 0xFFFF {
                    let z = xor_16(v as u16);
                    proof {
                        lemma_num(VType::I16, z as u32);
                        assert forall|st: State| #[trigger] eval_spec(st, Expr::Num(VType::I16, z as u32)) == eval_spec(st, e0) by {
                            assert(eval_spec(st, ga) == eval_spec(st, a));
                        }
                    }
                    return Expr::Num(VType::I16, z as u32);
                } else {
                    let z = xor_32(v);
                    proof {
                        lemma_num(VType::I32, z);
                        assert forall|st: State| #[trigger] eval_spec(st, Expr::Num(VType::I32, z)) == eval_spec(st, e0) by {
                            assert(eval_spec(st, ga) == eval_spec(st, a));
                        }
                    }
                    return Expr::Num(VType::I32, z);
                }
            }
            let r = Expr::Xor(t, Box::new(a));
            proof {
                assert forall|st: State| #[trigger] eval_spec(st, r) == eval_spec(st, e0) by {
                    assert(eval_spec(st, ga) == eval_spec(st, a));
                }
            }
            r
        },
        Expr::RsNot(a) => {
            let ghost ga = *a;
            let a = fold(*a);
            let r = Expr::RsNot(Box::new(a));
            proof {
                assert forall|st: State| #[trigger] eval_spec(st, r) == eval_spec(st, e0) by {
                    assert(eval_spec(st, ga) == eval_spec(st, a));
                }
            }
            r
        },
        Expr::RsAnd(a, b) => {
            let ghost ga = *a;
            let ghost gb = *b;
            let a = fold(*a);
            let b = fold(*b);
            let r = Expr::RsAnd(Box::new(a), Box::new(b));
            proof {
                assert forall|st: State| #[trigger] eval_spec(st, r) == eval_spec(st, e0) by {
                    assert(eval_spec(st, ga) == eval_spec(st, a));
                    assert(eval_spec(st, gb) == eval_spec(st, b));
                }
            }
            r
        },
        Expr::RsOr(a, b) => {
            let ghost ga = *a;
            let ghost gb = *b;
            let a = fold(*a);
            let b = fold(*b);
            let r = Expr::RsOr(Box::new(a), Box::new(b));
            proof {
                assert forall|st: State| #[trigger] eval_spec(st, r) == eval_spec(st, e0) by {
                    assert(eval_spec(st, ga) == eval_spec(st, a));
                    assert(eval_spec(st, gb) == eval_spec(st, b));
                }
            }
            r
        },
        Expr::RsXor(a, b) => {
            let ghost ga = *a;
            let ghost gb = *b;
            let a = fold(*a);
            let b = fold(*b);
            let r = Expr::RsXor(Box::new(a), Box::new(b));
            proof {
                assert forall|st: State| #[trigger] eval_spec(st, r) == eval_spec(st, e0) by {
                    assert(eval_spec(st, ga) == eval_spec(st, a));
                    assert(eval_spec(st, gb) == eval_spec(st, b));
                }
            }
            r
        },
        Expr::RsRshift(a, b) => {
            let ghost ga = *a;
            let ghost gb = *b;
            let a = fold(*a);
            let b = fold(*b);
            let r = Expr::RsRshift(Box::new(a), Box::new(b));
            proof {
                assert forall|st: State| #[trigger] eval_spec(st, r) == eval_spec(st, e0) by {
                    assert(eval_spec(st, ga) == eval_spec(st, a));
                    assert(eval_spec(st, gb) == eval_spec(st, b));
                }
            }
            r
        },
        Expr::RsLshift(a, b) => {
            let ghost ga = *a;
            let ghost gb = *b;
            let a = fold(*a);
            let b = fold(*b);
            let r = Expr::RsLshift(Box::new(a), Box::new(b));
            proof {
                assert forall|st: State| #[trigger] eval_spec(st, r) == eval_spec(st, e0) by {
                    assert(eval_spec(st, ga) == eval_spec(st, a));
                    assert(eval_spec(st, gb) == eval_spec(st, b));
                }
            }
            r
        },
        Expr::RsNotEqual(a, b) => {
            let ghost ga = *a;
            let ghost gb = *b;
            let a = fold(*a);
            let b = fold(*b);
            let r = Expr::RsNotEqual(Box::new(a), Box::new(b));
            proof {
                assert forall|st: State| #[trigger] eval_spec(st, r) == eval_spec(st, e0) by {
                    assert(eval_spec(st, ga) == eval_spec(st, a));
                    assert(eval_spec(st, gb) == eval_spec(st, b));
                }
            }
            r
        },
        Expr::RsPlus(a, b) => {
            let ghost ga = *a;
            let ghost gb = *b;
            let a = fold(*a);
            let b = fold(*b);
            let r = Expr::RsPlus(Box::new(a), Box::new(b));
            proof {
                assert forall|st: State| #[trigger] eval_spec(st, r) == eval_spec(st, e0) by {
                    assert(eval_spec(st, ga) == eval_spec(st, a));
                    assert(eval_spec(st, gb) == eval_spec(st, b));
                }
            }
            r
        },
        Expr::RsMinus(a, b) => {
            let ghost ga = *a;
            let ghost gb = *b;
            let a = fold(*a);
            let b = fold(*b);
            let r = Expr::RsMinus(Box::new(a), Box::new(b));
            proof {
                assert forall|st: State| #[trigger] eval_spec(st, r) == eval_spec(st, e0) by {
                    assert(eval_spec(st, ga) == eval_spec(st, a));
                    assert(eval_spec(st, gb) == eval_spec(st, b));
                }
            }
            r
        },
    }
}

/// Folds the subscripts of a variable.
pub fn fold_var(v: Var) -> (w: Var)
    ensures
        var_fold_rel(v, w),
        var_subs_same(w, v),
        forall|st: State| #[trigger] lookup_spec(st, w) == lookup_spec(st, v),
    decreases v,
{
    match v {
        Var::I16(n) => Var::I16(n),
        Var::I32(n) => Var::I32(n),
        Var::A16(n, s) => {
            let ghost gs = s;
            let s2 = fold_exprs(s);
            let w = Var::A16(n, s2);
            proof {
                assert forall|st: State| #[trigger] lookup_spec(st, w) == lookup_spec(st, v) by {
                    assert(subs_spec(st, s2, s2@.len() as int) == subs_spec(st, gs, gs@.len() as int));
                }
            }
            w
        },
        Var::A32(n, s) => {
            let ghost gs = s;
            let s2 = fold_exprs(s);
            let w = Var::A32(n, s2);
            proof {
                assert forall|st: State| #[trigger] lookup_spec(st, w) == lookup_spec(st, v) by {
                    assert(subs_spec(st, s2, s2@.len() as int) == subs_spec(st, gs, gs@.len() as int));
                }
            }
            w
        },
    }
}

/// Folds each expression of a list.
fn fold_exprs(s: Vec<Expr>) -> (r: Vec<Expr>)
    ensures
        r@.len() == s@.len(),
        subs_fold_upto(s, r, s@.len() as int),
        forall|st: State| #[trigger] subs_spec(st, r, r@.len() as int) == subs_spec(st, s, s@.len() as int),
    decreases s,
{
    let ghost g = s;
    let n = s.len();
    let mut rest = s;
    let mut out: Vec<Expr> = Vec::new();
    let mut k: usize = 0;
    while k < n
        invariant
            k <= n,
            n == g@.len(),
            g == s,
            out@.len() == k,
            rest@ == g@.subrange(k as int, n as int),
            forall|j: int| 0 <= j < k ==> #[trigger] fold_rel(g@[j], out@[j]),
            forall|j: int| 0 <= j < k ==> #[trigger] same_meaning(out@[j], g@[j]),
        decreases n - k,
    {
        proof {
            assert(decreases_to!(g => g[k as int]));
            assert(rest@[0] == g@[k as int]);
        }
        let x = rest.remove(0);
        proof {
            assert(x == g@[k as int]);
            assert(decreases_to!(g => x));
            assert(g == s);
            assert(decreases_to!(s => x));
        }
        let y = fold(x);
        out.push(y);
        k = k + 1;
        proof {
            assert(rest@ =~= g@.subrange(k as int, n as int));
        }
    }
    proof {
        lemma_fold_upto(g, out, n as int);
        assert forall|st: State| #[trigger] subs_spec(st, out, out@.len() as int) == subs_spec(st, g, g@.len() as int) by {
            assert forall|j: int| 0 <= j < n implies #[trigger] eval_spec(st, out@[j]) == eval_spec(st, g@[j]) by {
                assert(same_meaning(out@[j], g@[j]));
            }
            lemma_subs_same(st, g, out, n as int);
        }
    }
    out
}

/// The number of trailing zero bits (32 for zero).
pub open spec fn trailing_zeros(i: u32) -> nat
    decreases i,
{
    if i == 0 {
        32
    } else if i % 2 == 1 {
        0
    } else {
        1 + trailing_zeros(i / 2)
    }
}

/// The set bits of a nonzero mask form one contiguous run.
pub open spec fn contiguous(i: u32) -> bool {
    i != 0 && ((((i >> trailing_zeros(i)) as u64 + 1) as u64) & ((i >> trailing_zeros(i)) as u64)) == 0
}

proof fn lemma_tz_below(i: u32, k: nat)
    requires
        i != 0,
        i < crate::ops::pow2(k),
    ensures
        trailing_zeros(i) < k,
    decreases i,
{
    if i % 2 == 0 {
        let k1 = (k - 1) as nat;
        assert(k > 0);
        assert(crate::ops::pow2(k) == 2 * crate::ops::pow2(k1));
        lemma_tz_below(i / 2, k1);
    }
}

fn trailing_zeros_of(i: u32) -> (r: u32)
    ensures
        r == trailing_zeros(i),
        i != 0 ==> r < 32,
{
    if i == 0 {
        return 32;
    }
    proof {
        reveal_with_fuel(crate::ops::pow2, 33);
        lemma_tz_below(i, 32);
    }
    let mut x = i;
    let mut n: u32 = 0;
    while x % 2 == 0
        invariant
            x != 0,
            n + trailing_zeros(x) == trailing_zeros(i),
            trailing_zeros(i) < 32,
        decreases x,
    {
        x = x / 2;
        n = n + 1;
    }
    n
}

/// The unary operator of a SELECT-of-MINGLE idiom: 1 for AND, 2 for OR,
/// 3 for XOR, 0 when the expression is no such idiom.
pub open spec fn idiom_op(a: Expr) -> u8 {
    match a {
        Expr::And(_, m) => if (*m) is Mingle { 1 } else { 0 },
        Expr::Or(_, m) => if (*m) is Mingle { 2 } else { 0 },
        Expr::Xor(_, m) => if (*m) is Mingle { 3 } else { 0 },
        _ => 0,
    }
}

/// One lowering rule applied at the root of an expression whose operands
/// are already lowered, if one applies.
pub open spec fn rewrite_root(e: Expr) -> Option<Expr> {
    match e {
        Expr::Select(_, x, w) => match *w {
            Expr::Num(_, i) => if i == 0x5555_5555 && idiom_op(*x) != 0 {
                match *x {
                    Expr::And(_, m) => match *m {
                        Expr::Mingle(m1, m2) => Some(Expr::RsAnd(m1, m2)),
                        _ => None,
                    },
                    Expr::Or(_, m) => match *m {
                        Expr::Mingle(m1, m2) => Some(Expr::RsOr(m1, m2)),
                        _ => None,
                    },
                    Expr::Xor(_, m) => match *m {
                        Expr::Mingle(m1, m2) => Some(Expr::RsXor(m1, m2)),
                        _ => None,
                    },
                    _ => None,
                }
            } else if contiguous(i) {
                let tz = trailing_zeros(i) as u32;
                if tz == 0 {
                    Some(Expr::RsAnd(x, Box::new(Expr::Num(VType::I32, i))))
                } else if i >= 0x8000_0000 {
                    Some(Expr::RsRshift(x, Box::new(Expr::Num(VType::I32, tz))))
                } else {
                    Some(
                        Expr::RsAnd(
                            Box::new(Expr::RsRshift(x, Box::new(Expr::Num(VType::I32, tz)))),
                            Box::new(Expr::Num(VType::I32, i >> tz)),
                        ),
                    )
                }
            } else {
                None
            },
            _ => None,
        },
        Expr::RsAnd(x, w) => match *w {
            Expr::Num(_, 0xFFFF_FFFF) => Some(*x),
            Expr::Num(_, 3) => match *x {
                Expr::Xor(_, m) => match *m {
                    Expr::Mingle(mx, k) => match *k {
                        Expr::Num(_, 1) => Some(
                            Expr::RsPlus(
                                Box::new(Expr::Num(VType::I32, 1)),
                                Box::new(Expr::RsAnd(mx, Box::new(Expr::Num(VType::I32, 1)))),
                            ),
                        ),
                        Expr::Num(_, 2) => Some(
                            Expr::RsMinus(
                                Box::new(Expr::Num(VType::I32, 2)),
                                Box::new(Expr::RsAnd(mx, Box::new(Expr::Num(VType::I32, 1)))),
                            ),
                        ),
                        _ => None,
                    },
                    _ => None,
                },
                _ => None,
            },
            Expr::Num(_, 1) => match *x {
                Expr::Select(_, sx, tx) => if crate::ast::expr_eqv(*sx, *tx) {
                    Some(Expr::RsNotEqual(sx, Box::new(Expr::Num(VType::I32, 0))))
                } else {
                    None
                },
                _ => None,
            },
            _ => None,
        },
        _ => None,
    }
}

/// The expression with its operands lowered, bottom up.
pub open spec fn lower_children(e: Expr, fuel: nat) -> Expr
    decreases fuel, e, 0nat,
{
    match e {
        Expr::Select(t, a, b) => Expr::Select(t, Box::new(lowered(*a, fuel)), Box::new(lowered(*b, fuel))),
        Expr::Mingle(a, b) => Expr::Mingle(Box::new(lowered(*a, fuel)), Box::new(lowered(*b, fuel))),
        Expr::And(t, a) => Expr::And(t, Box::new(lowered(*a, fuel))),
        Expr::Or(t, a) => Expr::Or(t, Box::new(lowered(*a, fuel))),
        Expr::Xor(t, a) => Expr::Xor(t, Box::new(lowered(*a, fuel))),
        Expr::RsNot(a) => Expr::RsNot(Box::new(lowered(*a, fuel))),
        Expr::RsAnd(a, b) => Expr::RsAnd(Box::new(lowered(*a, fuel)), Box::new(lowered(*b, fuel))),
        Expr::RsOr(a, b) => Expr::RsOr(Box::new(lowered(*a, fuel)), Box::new(lowered(*b, fuel))),
        Expr::RsXor(a, b) => Expr::RsXor(Box::new(lowered(*a, fuel)), Box::new(lowered(*b, fuel))),
        Expr::RsRshift(a, b) => Expr::RsRshift(Box::new(lowered(*a, fuel)), Box::new(lowered(*b, fuel))),
        Expr::RsLshift(a, b) => Expr::RsLshift(Box::new(lowered(*a, fuel)), Box::new(lowered(*b, fuel))),
        Expr::RsNotEqual(a, b) => Expr::RsNotEqual(Box::new(lowered(*a, fuel)), Box::new(lowered(*b, fuel))),
        Expr::RsPlus(a, b) => Expr::RsPlus(Box::new(lowered(*a, fuel)), Box::new(lowered(*b, fuel))),
        Expr::RsMinus(a, b) => Expr::RsMinus(Box::new(lowered(*a, fuel)), Box::new(lowered(*b, fuel))),
        _ => e,
    }
}

/// Lowering: operands first, then the root rules, each result lowered
/// again, at most `fuel` rewrites deep.
pub open spec fn lowered(e: Expr, fuel: nat) -> Expr
    decreases fuel, e, 1nat,
{
    let c = lower_children(e, fuel);
    match rewrite_root(c) {
        Some(x) => if fuel > 0 {
            lowered(x, (fuel - 1) as nat)
        } else {
            c
        },
        None => c,
    }
}

/// A boxed 32-bit literal.
pub fn n(i: u32) -> (r: Box<Expr>)
    ensures
        *r == Expr::Num(VType::I32, i),
{
    Box::new(Expr::Num(VType::I32, i))
}

/// How many rewrites deep lowering may go.
pub const LOWER_FUEL: u32 = 16;

fn num_value(e: &Expr) -> (r: Option<u32>)
    ensures
        r == match *e {
            Expr::Num(_, i) => Some(i),
            _ => None::<u32>,
        },
{
    match e {
        Expr::Num(_, i) => Some(*i),
        _ => None,
    }
}

fn idiom_op_of(e: &Expr) -> (r: u8)
    ensures
        r == idiom_op(*e),
{
    match e {
        Expr::And(_, m) => match **m {
            Expr::Mingle(..) => 1,
            _ => 0,
        },
        Expr::Or(_, m) => match **m {
            Expr::Mingle(..) => 2,
            _ => 0,
        },
        Expr::Xor(_, m) => match **m {
            Expr::Mingle(..) => 3,
            _ => 0,
        },
        _ => 0,
    }
}

/// 1 or 2 when the expression is `?(x $ #1)` or `?(x $ #2)`, else 0.
pub open spec fn xor_mingle_k(e: Expr) -> u8 {
    match e {
        Expr::Xor(_, m) => match *m {
            Expr::Mingle(_, k) => match *k {
                Expr::Num(_, 1) => 1,
                Expr::Num(_, 2) => 2,
                _ => 0,
            },
            _ => 0,
        },
        _ => 0,
    }
}

fn xor_mingle_k_of(e: &Expr) -> (r: u8)
    ensures
        r == xor_mingle_k(*e),
{
    match e {
        Expr::Xor(_, m) => match &**m {
            Expr::Mingle(_, k) => match **k {
                Expr::Num(_, 1) => 1,
                Expr::Num(_, 2) => 2,
                _ => 0,
            },
            _ => 0,
        },
        _ => 0,
    }
}

/// The expression is `x ~ x`.
pub open spec fn self_select(e: Expr) -> bool {
    match e {
        Expr::Select(_, sx, tx) => crate::ast::expr_eqv(*sx, *tx),
        _ => false,
    }
}

fn self_select_of(e: &Expr) -> (r: bool)
    ensures
        r == self_select(*e),
{
    match e {
        Expr::Select(_, sx, tx) => sx.same_as(tx),
        _ => false,
    }
}

/// Applies one lowering rule at the root, or gives the expression back.
fn rewrite_root_exec(e: Expr) -> (r: Result<Expr, Expr>)
    ensures
        match rewrite_root(e) {
            Some(x) => r == Ok::<Expr, Expr>(x),
            None => r == Err::<Expr, Expr>(e),
        },
{
    match e {
        Expr::Select(t, x, w) => {
            let wn = num_value(&w);
            match wn {
                None => Err(Expr::Select(t, x, w)),
                Some(i) => {
                    if i == 0x5555_5555 && idiom_op_of(&x) != 0 {
                        match *x {
                            Expr::And(_, m) => match *m {
                                Expr::Mingle(m1, m2) => Ok(Expr::RsAnd(m1, m2)),
                                _ => {
                                    proof {
                                        assert(false);
                                    }
                                    Err(Expr::Num(t, i))
                                },
                            },
                            Expr::Or(_, m) => match *m {
                                Expr::Mingle(m1, m2) => Ok(Expr::RsOr(m1, m2)),
                                _ => {
                                    proof {
                                        assert(false);
                                    }
                                    Err(Expr::Num(t, i))
                                },
                            },
                            Expr::Xor(_, m) => match *m {
                                Expr::Mingle(m1, m2) => Ok(Expr::RsXor(m1, m2)),
                                _ => {
                                    proof {
                                        assert(false);
                                    }
                                    Err(Expr::Num(t, i))
                                },
                            },
                            _ => {
                                proof {
                                    assert(false);
                                }
                                Err(Expr::Num(t, i))
                            },
                        }
                    } else {
                        let tz = trailing_zeros_of(i);
                        if i == 0 {
                            return Err(Expr::Select(t, x, w));
                        }
                        let sh = i >> tz;
                        if ((sh as u64 + 1) & (sh as u64)) != 0 {
                            return Err(Expr::Select(t, x, w));
                        }
                        if tz == 0 {
                            Ok(Expr::RsAnd(x, n(i)))
                        } else if i >= 0x8000_0000 {
                            Ok(Expr::RsRshift(x, n(tz)))
                        } else {
                            Ok(
                                Expr::RsAnd(
                                    Box::new(Expr::RsRshift(x, n(tz))),
                                    n(sh),
                                ),
                            )
                        }
                    }
                },
            }
        },
        Expr::RsAnd(x, w) => {
            let wn = num_value(&w);
            if wn == Some(0xFFFF_FFFFu32) {
                Ok(*x)
            } else if wn == Some(3u32) {
                let k = xor_mingle_k_of(&x);
                if k == 0 {
                    return Err(Expr::RsAnd(x, w));
                }
                match *x {
                    Expr::Xor(_, m) => match *m {
                        Expr::Mingle(mx, _) => {
                            if k == 1 {
                                Ok(
                                    Expr::RsPlus(
                                        n(1),
                                        Box::new(Expr::RsAnd(mx, n(1))),
                                    ),
                                )
                            } else {
                                Ok(
                                    Expr::RsMinus(
                                        n(2),
                                        Box::new(Expr::RsAnd(mx, n(1))),
                                    ),
                                )
                            }
                        },
                        _ => {
                            proof {
                                assert(false);
                            }
                            Err(Expr::Num(VType::I32, 0))
                        },
                    },
                    _ => {
                        proof {
                            assert(false);
                        }
                        Err(Expr::Num(VType::I32, 0))
                    },
                }
            } else if wn == Some(1u32) {
                if !self_select_of(&x) {
                    return Err(Expr::RsAnd(x, w));
                }
                match *x {
                    Expr::Select(_, sx, _) => Ok(Expr::RsNotEqual(sx, n(0))),
                    _ => {
                        proof {
                            assert(false);
                        }
                        Err(Expr::Num(VType::I32, 0))
                    },
                }
            } else {
                Err(Expr::RsAnd(x, w))
            }
        },
        _ => Err(e),
    }
}

/// Lowers the operands of an expression.
fn lower_children_exec(e: Expr, fuel: u32) -> (r: Expr)
    ensures
        r == lower_children(e, fuel as nat),
    decreases fuel, e, 0nat,
{
    match e {
        Expr::Select(t, a, b) => Expr::Select(t, Box::new(opt_expr(*a, fuel)), Box::new(opt_expr(*b, fuel))),
        Expr::Mingle(a, b) => Expr::Mingle(Box::new(opt_expr(*a, fuel)), Box::new(opt_expr(*b, fuel))),
        Expr::And(t, a) => Expr::And(t, Box::new(opt_expr(*a, fuel))),
        Expr::Or(t, a) => Expr::Or(t, Box::new(opt_expr(*a, fuel))),
        Expr::Xor(t, a) => Expr::Xor(t, Box::new(opt_expr(*a, fuel))),
        Expr::RsNot(a) => Expr::RsNot(Box::new(opt_expr(*a, fuel))),
        Expr::RsAnd(a, b) => Expr::RsAnd(Box::new(opt_expr(*a, fuel)), Box::new(opt_expr(*b, fuel))),
        Expr::RsOr(a, b) => Expr::RsOr(Box::new(opt_expr(*a, fuel)), Box::new(opt_expr(*b, fuel))),
        Expr::RsXor(a, b) => Expr::RsXor(Box::new(opt_expr(*a, fuel)), Box::new(opt_expr(*b, fuel))),
        Expr::RsRshift(a, b) => Expr::RsRshift(Box::new(opt_expr(*a, fuel)), Box::new(opt_expr(*b, fuel))),
        Expr::RsLshift(a, b) => Expr::RsLshift(Box::new(opt_expr(*a, fuel)), Box::new(opt_expr(*b, fuel))),
        Expr::RsNotEqual(a, b) => Expr::RsNotEqual(Box::new(opt_expr(*a, fuel)), Box::new(opt_expr(*b, fuel))),
        Expr::RsPlus(a, b) => Expr::RsPlus(Box::new(opt_expr(*a, fuel)), Box::new(opt_expr(*b, fuel))),
        Expr::RsMinus(a, b) => Expr::RsMinus(Box::new(opt_expr(*a, fuel)), Box::new(opt_expr(*b, fuel))),
        _ => e,
    }
}

/// Lowers the INTERCAL idioms of an expression to conventional operators.
pub fn opt_expr(e: Expr, fuel: u32) -> (r: Expr)
    ensures
        r == lowered(e, fuel as nat),
    decreases fuel, e, 1nat,
{
    let c = lower_children_exec(e, fuel);
    if fuel == 0 {
        return c;
    }
    match rewrite_root_exec(c) {
        Ok(x) => opt_expr(x, fuel - 1),
        Err(c) => c,
    }
}

/// Everything of a program but its statements is the same.
pub open spec fn same_tables(a: Program, b: Program) -> bool {
    &&& a.labels == b.labels
    &&& a.stmt_types@ == b.stmt_types@
    &&& a.var_info.0@ == b.var_info.0@
    &&& a.var_info.1@ == b.var_info.1@
    &&& a.var_info.2@ == b.var_info.2@
    &&& a.var_info.3@ == b.var_info.3@
    &&& a.uses_complex_comefrom == b.uses_complex_comefrom
    &&& a.added_syslib == b.added_syslib
    &&& a.added_floatlib == b.added_floatlib
    &&& a.bugline == b.bugline
}

/// Statement `i` kept everything but possibly its body.
pub open spec fn same_meta(a: Program, b: Program, i: int) -> bool {
    &&& b.stmts@[i].props == a.stmts@[i].props
    &&& b.stmts@[i].comefrom == a.stmts@[i].comefrom
    &&& b.stmts@[i].can_abstain == a.stmts@[i].can_abstain
}

/// A body after constant folding: the expressions of CALC, RESUME and
/// FORGET are folded, keeping their meaning; other bodies are untouched.
pub open spec fn folded_body(o: StmtBody, n: StmtBody) -> bool {
    match o {
        StmtBody::Calc(v, e) => match n {
            StmtBody::Calc(v2, e2) => var_fold_rel(v, v2) && var_subs_same(v2, v) && fold_rel(e, e2)
                && same_meaning(e2, e),
            _ => false,
        },
        StmtBody::Resume(e) => match n {
            StmtBody::Resume(e2) => fold_rel(e, e2) && same_meaning(e2, e),
            _ => false,
        },
        StmtBody::Forget(e) => match n {
            StmtBody::Forget(e2) => fold_rel(e, e2) && same_meaning(e2, e),
            _ => false,
        },
        _ => n == o,
    }
}

/// A body after lowering: the expressions of CALC, RESUME and FORGET are
/// lowered; other bodies are untouched.
pub open spec fn lowered_body(o: StmtBody, n: StmtBody) -> bool {
    match o {
        StmtBody::Calc(v, e) => n == StmtBody::Calc(v, lowered(e, LOWER_FUEL as nat)),
        StmtBody::Resume(e) => n == StmtBody::Resume(lowered(e, LOWER_FUEL as nat)),
        StmtBody::Forget(e) => n == StmtBody::Forget(lowered(e, LOWER_FUEL as nat)),
        _ => n == o,
    }
}

fn fold_body(b: StmtBody) -> (r: StmtBody)
    ensures
        folded_body(b, r),
{
    match b {
        StmtBody::Calc(v, e) => StmtBody::Calc(fold_var(v), fold(e)),
        StmtBody::Resume(e) => StmtBody::Resume(fold(e)),
        StmtBody::Forget(e) => StmtBody::Forget(fold(e)),
        other => other,
    }
}

fn lower_body(b: StmtBody) -> (r: StmtBody)
    ensures
        lowered_body(b, r),
{
    match b {
        StmtBody::Calc(v, e) => StmtBody::Calc(v, opt_expr(e, LOWER_FUEL)),
        StmtBody::Resume(e) => StmtBody::Resume(opt_expr(e, LOWER_FUEL)),
        StmtBody::Forget(e) => StmtBody::Forget(opt_expr(e, LOWER_FUEL)),
        other => other,
    }
}

/// Some ABSTAIN or REINSTATE among the first `k` statements names
/// statement `i`.
pub open spec fn targeted_upto(p: Program, k: int, i: int) -> bool {
    exists|j: int| 0 <= j < k && #[trigger] stmt_targets(p, p.stmts@[j].body, i)
}

pub open spec fn stmt_targets(p: Program, b: StmtBody, i: int) -> bool {
    match b {
        StmtBody::Abstain(_, ts) => crate::eval::targets_hit(p, ts@, i),
        StmtBody::Reinstate(ts) => crate::eval::targets_hit(p, ts@, i),
        _ => false,
    }
}

/// Some STASH or RETRIEVE (`stash`) or IGNORE or REMEMBER (not `stash`)
/// among the first `k` statements names variable `n` of kind `kind`.
pub open spec fn var_named_upto(p: Program, k: int, kind: u8, n: int, stash: bool) -> bool {
    exists|j: int| 0 <= j < k && #[trigger] stmt_names(p.stmts@[j].body, kind, n, stash)
}

pub open spec fn stmt_names(b: StmtBody, kind: u8, n: int, stash: bool) -> bool {
    match b {
        StmtBody::Stash(vs) => stash && list_names(vs@, kind, n),
        StmtBody::Retrieve(vs) => stash && list_names(vs@, kind, n),
        StmtBody::Ignore(vs) => !stash && list_names(vs@, kind, n),
        StmtBody::Remember(vs) => !stash && list_names(vs@, kind, n),
        _ => false,
    }
}

pub open spec fn list_names(vs: Seq<Var>, kind: u8, n: int) -> bool {
    exists|m: int| 0 <= m < vs.len() && #[trigger] crate::eval::names_key(vs[m], kind, n)
}

proof fn lemma_targeted_step(p: Program, j: int, i: int)
    requires
        0 <= j,
    ensures
        targeted_upto(p, j + 1, i) == (targeted_upto(p, j, i) || stmt_targets(p, p.stmts@[j].body, i)),
{
    if targeted_upto(p, j + 1, i) {
        let m = choose|m: int| 0 <= m < j + 1 && #[trigger] stmt_targets(p, p.stmts@[m].body, i);
        if m < j {
            assert(targeted_upto(p, j, i));
        }
    }
    if targeted_upto(p, j, i) {
        let m = choose|m: int| 0 <= m < j && #[trigger] stmt_targets(p, p.stmts@[m].body, i);
        assert(targeted_upto(p, j + 1, i));
    }
    if stmt_targets(p, p.stmts@[j].body, i) {
        assert(targeted_upto(p, j + 1, i));
    }
}

proof fn lemma_hit_step(p: Program, ts: Seq<Abstain>, k: int, i: int)
    requires
        0 <= k < ts.len(),
    ensures
        crate::eval::targets_hit(p, ts.subrange(0, k + 1), i) == (crate::eval::targets_hit(p, ts.subrange(0, k), i)
            || crate::eval::target_hits(p, ts[k], i)),
{
    let a = ts.subrange(0, k);
    let b = ts.subrange(0, k + 1);
    if crate::eval::targets_hit(p, b, i) {
        let m = choose|m: int| 0 <= m < b.len() && #[trigger] crate::eval::target_hits(p, b[m], i);
        if m < k {
            assert(a[m] == b[m]);
            assert(crate::eval::targets_hit(p, a, i));
        }
    }
    if crate::eval::targets_hit(p, a, i) {
        let m = choose|m: int| 0 <= m < a.len() && #[trigger] crate::eval::target_hits(p, a[m], i);
        assert(a[m] == b[m]);
        assert(crate::eval::targets_hit(p, b, i));
    }
    if crate::eval::target_hits(p, ts[k], i) {
        assert(b[k] == ts[k]);
        assert(crate::eval::targets_hit(p, b, i));
    }
}

/// Sets the flag of every statement the targets name.
fn mark_targets(p: &Program, ts: &Vec<Abstain>, flags: &mut Vec<bool>)
    requires
        crate::eval::program_wf(*p),
        old(flags)@.len() == p.stmts@.len(),
    ensures
        final(flags)@.len() == old(flags)@.len(),
        forall|i: int| 0 <= i < old(flags)@.len() ==> #[trigger] final(flags)@[i] == (old(flags)@[i]
            || crate::eval::targets_hit(*p, ts@, i)),
{
    let n = flags.len();
    let ghost start = flags@;
    let mut k: usize = 0;
    while k < ts.len()
        invariant
            k <= ts@.len(),
            n == p.stmts@.len(),
            n == p.stmt_types@.len(),
            flags@.len() == n,
            start.len() == n,
            crate::eval::program_wf(*p),
            forall|i: int| 0 <= i < n ==> #[trigger] flags@[i] == (start[i] || crate::eval::targets_hit(*p, ts@.subrange(0, k as int), i)),
        decreases ts@.len() - k,
    {
        let ghost prev = flags@;
        let t = ts[k];
        match t {
            Abstain::Label(l) => {
                match p.labels.get(&l) {
                    Some(idx) => {
                        assert(p.labels@.contains_key(l));
                        flags.set(*idx as usize, true);
                    },
                    None => {},
                }
            },
            _ => {
                let mut i: usize = 0;
                while i < n
                    invariant
                        i <= n,
                        n == p.stmt_types@.len(),
                        flags@.len() == n,
                        prev.len() == n,
                        t == ts@[k as int],
                        k < ts@.len(),
                        !(t is Label),
                        forall|m: int| 0 <= m < i ==> #[trigger] flags@[m] == (prev[m] || crate::eval::target_hits(*p, t, m)),
                        forall|m: int| i <= m < n ==> #[trigger] flags@[m] == prev[m],
                    decreases n - i,
                {
                    if p.stmt_types[i] == t {
                        flags.set(i, true);
                    }
                    i = i + 1;
                }
            },
        }
        proof {
            assert forall|i: int| 0 <= i < n implies #[trigger] flags@[i] == (start[i] || crate::eval::targets_hit(*p, ts@.subrange(0, k + 1), i)) by {
                lemma_hit_step(*p, ts@, k as int, i);
            }
        }
        k = k + 1;
    }
    proof {
        assert(ts@.subrange(0, ts@.len() as int) =~= ts@);
    }
}

/// The variable information table of one kind.
pub open spec fn info_table(p: Program, kind: u8) -> Seq<VarInfo> {
    if kind == 0 {
        p.var_info.0@
    } else if kind == 1 {
        p.var_info.1@
    } else if kind == 2 {
        p.var_info.2@
    } else {
        p.var_info.3@
    }
}

/// A table after var-check pruning: each flag says whether some statement
/// of the program needs it.
pub open spec fn pruned_table(p: Program, old: Seq<VarInfo>, new: Seq<VarInfo>, kind: u8) -> bool {
    &&& new.len() == old.len()
    &&& forall|n: int|
        0 <= n < old.len() ==> {
            &&& #[trigger] new[n].can_stash == var_named_upto(p, p.stmts@.len() as int, kind, n, true)
            &&& new[n].can_ignore == var_named_upto(p, p.stmts@.len() as int, kind, n, false)
        }
}

proof fn lemma_named_step(p: Program, j: int, kind: u8, n: int, stash: bool)
    requires
        0 <= j,
    ensures
        var_named_upto(p, j + 1, kind, n, stash) == (var_named_upto(p, j, kind, n, stash) || stmt_names(
            p.stmts@[j].body,
            kind,
            n,
            stash,
        )),
{
    if var_named_upto(p, j + 1, kind, n, stash) {
        let m = choose|m: int| 0 <= m < j + 1 && #[trigger] stmt_names(p.stmts@[m].body, kind, n, stash);
        if m < j {
            assert(var_named_upto(p, j, kind, n, stash));
        }
    }
    if var_named_upto(p, j, kind, n, stash) {
        let m = choose|m: int| 0 <= m < j && #[trigger] stmt_names(p.stmts@[m].body, kind, n, stash);
        assert(var_named_upto(p, j + 1, kind, n, stash));
    }
    if stmt_names(p.stmts@[j].body, kind, n, stash) {
        assert(var_named_upto(p, j + 1, kind, n, stash));
    }
}

proof fn lemma_list_step(vs: Seq<Var>, k: int, kind: u8, n: int)
    requires
        0 <= k < vs.len(),
    ensures
        list_names(vs.subrange(0, k + 1), kind, n) == (list_names(vs.subrange(0, k), kind, n)
            || crate::eval::names_key(vs[k], kind, n)),
{
    let a = vs.subrange(0, k);
    let b = vs.subrange(0, k + 1);
    if list_names(b, kind, n) {
        let m = choose|m: int| 0 <= m < b.len() && #[trigger] crate::eval::names_key(b[m], kind, n);
        if m < k {
            assert(a[m] == b[m]);
            assert(list_names(a, kind, n));
        }
    }
    if list_names(a, kind, n) {
        let m = choose|m: int| 0 <= m < a.len() && #[trigger] crate::eval::names_key(a[m], kind, n);
        assert(a[m] == b[m]);
        assert(list_names(b, kind, n));
    }
    if crate::eval::names_key(vs[k], kind, n) {
        assert(b[k] == vs[k]);
        assert(list_names(b, kind, n));
    }
}

/// An entry with one of its flags raised when `hit` holds.
pub open spec fn set_flag(i: VarInfo, stash: bool, hit: bool) -> VarInfo {
    if stash {
        VarInfo { can_ignore: i.can_ignore, can_stash: i.can_stash || hit }
    } else {
        VarInfo { can_ignore: i.can_ignore || hit, can_stash: i.can_stash }
    }
}

/// Sets a flag on every listed variable of one kind.
fn mark_vars(vs: &Vec<Var>, kind: u8, table: &mut Vec<VarInfo>, stash: bool)
    ensures
        final(table)@.len() == old(table)@.len(),
        forall|n: int|
            0 <= n < old(table)@.len() ==> #[trigger] final(table)@[n] == set_flag(
                old(table)@[n],
                stash,
                list_names(vs@, kind, n),
            ),
{
    let ghost start = table@;
    let mut k: usize = 0;
    while k < vs.len()
        invariant
            k <= vs@.len(),
            table@.len() == start.len(),
            forall|n: int|
                0 <= n < start.len() ==> #[trigger] table@[n] == set_flag(
                    start[n],
                    stash,
                    list_names(vs@.subrange(0, k as int), kind, n),
                ),
        decreases vs@.len() - k,
    {
        let ghost prev = table@;
        let (kd, idx) = vs[k].unique();
        if kd == kind && idx < table.len() {
            let mut info = table[idx];
            if stash {
                info.can_stash = true;
            } else {
                info.can_ignore = true;
            }
            table.set(idx, info);
        }
        proof {
            assert forall|n: int| 0 <= n < start.len() implies #[trigger] table@[n] == set_flag(
                start[n],
                stash,
                list_names(vs@.subrange(0, k + 1), kind, n),
            ) by {
                lemma_list_step(vs@, k as int, kind, n);
                assert(prev[n] == set_flag(start[n], stash, list_names(vs@.subrange(0, k as int), kind, n)));
                if kd == kind && idx as int == n {
                    assert(crate::eval::names_key(vs@[k as int], kind, n));
                } else {
                    assert(!crate::eval::names_key(vs@[k as int], kind, n));
                    assert(table@[n] == prev[n]);
                }
            }
        }
        k = k + 1;
    }
    proof {
        assert(vs@.subrange(0, vs@.len() as int) =~= vs@);
    }
}

/// Clears both flags of every entry.
fn reset_table(table: &mut Vec<VarInfo>)
    ensures
        final(table)@.len() == old(table)@.len(),
        forall|n: int| 0 <= n < old(table)@.len() ==> #[trigger] final(table)@[n] == (VarInfo { can_ignore: false, can_stash: false }),
{
    let mut i: usize = 0;
    let ghost len = table@.len();
    while i < table.len()
        invariant
            i <= table@.len(),
            table@.len() == len,
            forall|n: int| 0 <= n < i ==> #[trigger] table@[n] == (VarInfo { can_ignore: false, can_stash: false }),
        decreases table@.len() - i,
    {
        table.set(i, VarInfo { can_ignore: false, can_stash: false });
        i = i + 1;
    }
}

/// Marks one statement's variables in all four tables.
fn mark_stmt(b: &StmtBody, vi: &mut (Vec<VarInfo>, Vec<VarInfo>, Vec<VarInfo>, Vec<VarInfo>))
    ensures
        final(vi).0@.len() == old(vi).0@.len(),
        final(vi).1@.len() == old(vi).1@.len(),
        final(vi).2@.len() == old(vi).2@.len(),
        final(vi).3@.len() == old(vi).3@.len(),
        forall|n: int| 0 <= n < old(vi).0@.len() ==> #[trigger] final(vi).0@[n] == marked(old(vi).0@[n], *b, 0, n),
        forall|n: int| 0 <= n < old(vi).1@.len() ==> #[trigger] final(vi).1@[n] == marked(old(vi).1@[n], *b, 1, n),
        forall|n: int| 0 <= n < old(vi).2@.len() ==> #[trigger] final(vi).2@[n] == marked(old(vi).2@[n], *b, 2, n),
        forall|n: int| 0 <= n < old(vi).3@.len() ==> #[trigger] final(vi).3@[n] == marked(old(vi).3@[n], *b, 3, n),
{
    match b {
        StmtBody::Stash(vs) | StmtBody::Retrieve(vs) => {
            mark_vars(vs, 0, &mut vi.0, true);
            mark_vars(vs, 1, &mut vi.1, true);
            mark_vars(vs, 2, &mut vi.2, true);
            mark_vars(vs, 3, &mut vi.3, true);
            proof {
                assert(forall|kind: u8, n: int| #[trigger] stmt_names(*b, kind, n, true) == list_names(vs@, kind, n));
                assert(forall|kind: u8, n: int| #[trigger] stmt_names(*b, kind, n, false) == false);
            }
        },
        StmtBody::Ignore(vs) | StmtBody::Remember(vs) => {
            mark_vars(vs, 0, &mut vi.0, false);
            mark_vars(vs, 1, &mut vi.1, false);
            mark_vars(vs, 2, &mut vi.2, false);
            mark_vars(vs, 3, &mut vi.3, false);
            proof {
                assert(forall|kind: u8, n: int| #[trigger] stmt_names(*b, kind, n, false) == list_names(vs@, kind, n));
                assert(forall|kind: u8, n: int| #[trigger] stmt_names(*b, kind, n, true) == false);
            }
        },
        _ => {
            proof {
                assert(forall|kind: u8, n: int, st: bool| #[trigger] stmt_names(*b, kind, n, st) == false);
            }
        },
    }
}

/// An entry after marking the variables one statement names.
pub open spec fn marked(i: VarInfo, b: StmtBody, kind: u8, n: int) -> VarInfo {
    VarInfo {
        can_ignore: i.can_ignore || stmt_names(b, kind, n, false),
        can_stash: i.can_stash || stmt_names(b, kind, n, true),
    }
}

/// Every flag of a table says whether one of the first `j` statements
/// needs it.
pub open spec fn table_upto(p: Program, t: Seq<VarInfo>, kind: u8, j: int) -> bool {
    forall|m: int|
        0 <= m < t.len() ==> {
            &&& #[trigger] t[m].can_stash == var_named_upto(p, j, kind, m, true)
            &&& t[m].can_ignore == var_named_upto(p, j, kind, m, false)
        }
}

proof fn lemma_table_step(p: Program, old: Seq<VarInfo>, new: Seq<VarInfo>, kind: u8, j: int)
    requires
        0 <= j,
        table_upto(p, old, kind, j),
        new.len() == old.len(),
        forall|n: int| 0 <= n < old.len() ==> #[trigger] new[n] == marked(old[n], p.stmts@[j].body, kind, n),
    ensures
        table_upto(p, new, kind, j + 1),
{
    assert forall|m: int| 0 <= m < new.len() implies {
        &&& #[trigger] new[m].can_stash == var_named_upto(p, j + 1, kind, m, true)
        &&& new[m].can_ignore == var_named_upto(p, j + 1, kind, m, false)
    } by {
        lemma_named_step(p, j, kind, m, true);
        lemma_named_step(p, j, kind, m, false);
        assert(new[m] == marked(old[m], p.stmts@[j].body, kind, m));
        assert(old[m].can_stash == var_named_upto(p, j, kind, m, true));
    }
}

/// The label of the statement before `i`, zero for the first.
pub open spec fn prev_label(p: Program, i: int) -> u16 {
    if i == 0 {
        0
    } else {
        p.stmts@[i - 1].props.label
    }
}

/// Statement `i` rules out the constant-output reduction: it reads input,
/// has a chance (outside the system library's own random routine), or
/// calls the system library's random routines.
pub open spec fn blocks_const_output(p: Program, i: int) -> bool {
    let s = p.stmts@[i];
    ||| s.body is WriteIn
    ||| (s.props.chance < 100 && !(p.added_syslib && prev_label(p, i) == 1901))
    ||| match s.body {
        StmtBody::DoNext(n) => (n == 1900 || n == 1910) && prev_label(p, i) != 1911,
        _ => false,
    }
}

/// No statement rules out the constant-output reduction.
pub open spec fn const_eligible(p: Program) -> bool {
    forall|i: int| 0 <= i < p.stmts@.len() ==> !#[trigger] blocks_const_output(p, i)
}

/// The program that prints `b` and gives up.
pub open spec fn print_program(r: Program, b: Seq<u8>) -> bool {
    &&& r.stmts@.len() == 2
    &&& r.stmts@[0].body matches StmtBody::Print(v) && v@ == b
    &&& r.stmts@[1].body is GiveUp
    &&& r.labels@ == Map::<u16, u16>::empty()
    &&& program_wf(r)
}

/// Every output item is a byte.
pub open spec fn text_only(out: Seq<Output>) -> bool {
    forall|i: int| 0 <= i < out.len() ==> #[trigger] out[i] is Byte
}

/// The bounded run the reduction makes: from a fresh interpreter with no
/// input and the fixed seed, for the step budget.
pub open spec fn const_run(p: Program, e: Eval, g: Rng, res: Result<Option<usize>, RtError>) -> bool {
    exists|e0: Eval|
        fresh_eval(e0, p, Seq::empty(), Seq::empty()) && #[trigger] run_ok(
            e0,
            Rng { state: CONST_OUTPUT_SEED },
            CONST_OUTPUT_STEPS as nat,
            e,
            g,
            res,
        )
}

/// How many steps the constant-output reduction lets a program run.
pub const CONST_OUTPUT_STEPS: usize = 10_000_000;

/// The seed of the generator the constant-output reduction runs with.
pub const CONST_OUTPUT_SEED: u64 = 1;

fn eligible(p: &Program) -> (r: bool)
    ensures
        r == const_eligible(*p),
{
    let mut prev: u16 = 0;
    let mut i: usize = 0;
    while i < p.stmts.len()
        invariant
            i <= p.stmts@.len(),
            prev == prev_label(*p, i as int),
            forall|j: int| 0 <= j < i ==> !#[trigger] blocks_const_output(*p, j),
        decreases p.stmts@.len() - i,
    {
        let s = &p.stmts[i];
        let mut blocked = false;
        if s.props.chance < 100 && !(p.added_syslib && prev == 1901) {
            blocked = true;
        }
        match &s.body {
            StmtBody::WriteIn(_) => {
                blocked = true;
            },
            StmtBody::DoNext(n) => {
                if (*n == 1900 || *n == 1910) && prev != 1911 {
                    blocked = true;
                }
            },
            _ => {},
        }
        if blocked {
            proof {
                assert(blocks_const_output(*p, i as int));
            }
            return false;
        }
        prev = s.props.label;
        i = i + 1;
    }
    true
}

/// The output as bytes, if it holds no numbers.
fn bytes_of(out: &Vec<Output>) -> (r: Option<Vec<u8>>)
    ensures
        r.is_some() ==> out@ == bytes_out(r.unwrap()@),
        r.is_none() ==> !text_only(out@),
{
    let mut b: Vec<u8> = Vec::new();
    let mut i: usize = 0;
    while i < out.len()
        invariant
            i <= out@.len(),
            b@.len() == i,
            forall|j: int| 0 <= j < i ==> out@[j] == Output::Byte(#[trigger] b@[j]),
        decreases out@.len() - i,
    {
        match out[i] {
            Output::Byte(x) => b.push(x),
            Output::Number(_) => {
                proof {
                    assert(!(out@[i as int] is Byte));
                }
                return None;
            },
        }
        i = i + 1;
    }
    proof {
        assert(out@ =~= bytes_out(b@));
    }
    Some(b)
}

/// A program keeps its shape when only bodies and abstain marks change.
proof fn lemma_wf_kept(p: Program, r: Program)
    requires
        program_wf(p),
        same_tables(p, r),
        r.stmts@.len() == p.stmts@.len(),
        forall|i: int| 0 <= i < p.stmts@.len() ==> #[trigger] r.stmts@[i].props == p.stmts@[i].props
            && r.stmts@[i].comefrom == p.stmts@[i].comefrom,
    ensures
        program_wf(r),
{
    assert forall|i: int| 0 <= i < r.stmts@.len() implies match #[trigger] r.stmts@[i].comefrom {
        Some(t) => (t as int) < r.stmts@.len(),
        None => true,
    } by {
        assert(r.stmts@[i].props == p.stmts@[i].props);
        assert(match p.stmts@[i].comefrom {
            Some(t) => (t as int) < p.stmts@.len(),
            None => true,
        });
    }
    assert forall|i: int| 0 <= i < r.stmts@.len() implies #[trigger] r.stmts@[i].props.chance <= 100 by {
        assert(r.stmts@[i].props == p.stmts@[i].props);
        assert(p.stmts@[i].props.chance <= 100);
    }
}

/// The result of constant folding: same tables and metadata, bodies folded.
pub open spec fn folded(p: Program, r: Program) -> bool {
    &&& same_tables(p, r)
    &&& r.stmts@.len() == p.stmts@.len()
    &&& forall|i: int|
        0 <= i < p.stmts@.len() ==> same_meta(p, r, i) && #[trigger] folded_body(p.stmts@[i].body, r.stmts@[i].body)
}

/// The result of lowering: same tables and metadata, bodies lowered.
pub open spec fn lowered_program(p: Program, r: Program) -> bool {
    &&& same_tables(p, r)
    &&& r.stmts@.len() == p.stmts@.len()
    &&& forall|i: int|
        0 <= i < p.stmts@.len() ==> same_meta(p, r, i) && #[trigger] lowered_body(p.stmts@[i].body, r.stmts@[i].body)
}

/// The result of the constant-output reduction.
pub open spec fn const_output_done(p: Program, r: Program) -> bool {
    &&& program_wf(r)
    &&& !const_eligible(p) ==> r == p
    &&& r == p || (const_eligible(p) && exists|b: Seq<u8>, e: Eval, g: Rng, c: usize|
        #[trigger] const_run(p, e, g, Ok(Some(c))) && #[trigger] print_program(r, b) && e.state.output@ == bytes_out(b))
    &&& const_eligible(p) ==> exists|e: Eval, g: Rng, res: Result<Option<usize>, RtError>|
        #[trigger] const_run(p, e, g, res) && ((res matches Ok(Some(_)) && text_only(e.state.output@))
            ==> exists|b: Seq<u8>| print_program(r, b) && e.state.output@ == bytes_out(b))
}

/// The result of abstain-check pruning.
pub open spec fn abstain_checked(p: Program, r: Program) -> bool {
    &&& same_tables(p, r)
    &&& r.stmts@.len() == p.stmts@.len()
    &&& forall|i: int|
        0 <= i < p.stmts@.len() ==> {
            &&& #[trigger] r.stmts@[i].body == p.stmts@[i].body
            &&& r.stmts@[i].props == p.stmts@[i].props
            &&& r.stmts@[i].comefrom == p.stmts@[i].comefrom
            &&& r.stmts@[i].can_abstain == if p.stmts@[i].body is GiveUp {
                false
            } else {
                targeted_upto(p, p.stmts@.len() as int, i)
            }
        }
}

/// The result of var-check pruning.
pub open spec fn var_checked(p: Program, r: Program) -> bool {
    &&& r.stmts == p.stmts
    &&& r.labels == p.labels
    &&& r.stmt_types == p.stmt_types
    &&& r.uses_complex_comefrom == p.uses_complex_comefrom
    &&& r.added_syslib == p.added_syslib
    &&& r.added_floatlib == p.added_floatlib
    &&& r.bugline == p.bugline
    &&& pruned_table(p, p.var_info.0@, r.var_info.0@, 0)
    &&& pruned_table(p, p.var_info.1@, r.var_info.1@, 1)
    &&& pruned_table(p, p.var_info.2@, r.var_info.2@, 2)
    &&& pruned_table(p, p.var_info.3@, r.var_info.3@, 3)
}

/// The optimizer, holding the program it works on.
pub struct Optimizer {
    pub program: Program,
}

impl Optimizer {
    pub fn new(program: Program) -> (r: Optimizer)
        ensures
            r.program == program,
    {
        Optimizer { program: program }
    }

    /// Runs the passes in order: constant folding, idiom lowering, the
    /// constant-output reduction, abstain-check and var-check pruning.
    pub fn optimize(self) -> (r: Program)
        requires
            program_wf(self.program),
        ensures
            program_wf(r),
            exists|p1: Program, p2: Program, p3: Program, p4: Program|
                folded(self.program, p1) && lowered_program(p1, p2) && const_output_done(p2, p3)
                    && abstain_checked(p3, p4) && var_checked(p4, r),
    {
        let p0 = self.program;
        let ghost g0 = p0;
        let p1 = Optimizer::opt_constant_fold(p0);
        let ghost g1 = p1;
        proof {
            assert forall|i: int| 0 <= i < g0.stmts@.len() implies #[trigger] g1.stmts@[i].props == g0.stmts@[i].props
                && g1.stmts@[i].comefrom == g0.stmts@[i].comefrom by {
                assert(folded_body(g0.stmts@[i].body, g1.stmts@[i].body));
                assert(same_meta(g0, g1, i));
            }
            lemma_wf_kept(g0, g1);
        }
        let p2 = Optimizer::opt_expressions(p1);
        let ghost g2 = p2;
        proof {
            assert forall|i: int| 0 <= i < p1.stmts@.len() implies #[trigger] p2.stmts@[i].props == p1.stmts@[i].props
                && p2.stmts@[i].comefrom == p1.stmts@[i].comefrom by {
                assert(lowered_body(p1.stmts@[i].body, p2.stmts@[i].body));
                assert(same_meta(p1, p2, i));
            }
            lemma_wf_kept(p1, p2);
        }
        let p3 = Optimizer::opt_const_output(p2);
        let ghost g3 = p3;
        let p4 = Optimizer::opt_abstain_check(p3);
        let ghost g4 = p4;
        proof {
            assert forall|i: int| 0 <= i < p3.stmts@.len() implies #[trigger] p4.stmts@[i].props == p3.stmts@[i].props
                && p4.stmts@[i].comefrom == p3.stmts@[i].comefrom by {
                assert(p4.stmts@[i].body == p3.stmts@[i].body);
            }
            lemma_wf_kept(p3, p4);
        }
        let p5 = Optimizer::opt_var_check(p4);
        proof {
            assert(folded(g0, g1));
            assert(lowered_program(g1, g2));
            assert(const_output_done(g2, g3));
            assert(abstain_checked(g3, g4));
            assert(var_checked(g4, p5));
        }
        p5
    }

    /// Folds the literal operands of CALC, RESUME and FORGET expressions.
    pub fn opt_constant_fold(program: Program) -> (r: Program)
        ensures
            folded(program, r),
    {
        let ghost p0 = program;
        let mut program = program;
        let mut i: usize = 0;
        while i < program.stmts.len()
            invariant
                i <= program.stmts@.len(),
                program.stmts@.len() == p0.stmts@.len(),
                same_tables(p0, program),
                forall|j: int| 0 <= j < program.stmts@.len() ==> same_meta(p0, program, j),
                forall|j: int| 0 <= j < i ==> #[trigger] folded_body(p0.stmts@[j].body, program.stmts@[j].body),
                forall|j: int| i <= j < program.stmts@.len() ==> #[trigger] program.stmts@[j].body == p0.stmts@[j].body,
            decreases program.stmts@.len() - i,
        {
            let ghost prev = program;
            let mut b = StmtBody::GiveUp;
            std::mem::swap(&mut program.stmts[i].body, &mut b);
            let nb = fold_body(b);
            program.stmts[i].body = nb;
            proof {
                assert forall|j: int| 0 <= j < program.stmts@.len() implies same_meta(p0, program, j) by {
                    assert(same_meta(p0, prev, j));
                    if j != i {
                        assert(program.stmts@[j] == prev.stmts@[j]);
                    }
                }
            }
            i = i + 1;
        }
        program
    }

    /// Lowers INTERCAL idioms in CALC, RESUME and FORGET expressions.
    pub fn opt_expressions(program: Program) -> (r: Program)
        ensures
            lowered_program(program, r),
    {
        let ghost p0 = program;
        let mut program = program;
        let mut i: usize = 0;
        while i < program.stmts.len()
            invariant
                i <= program.stmts@.len(),
                program.stmts@.len() == p0.stmts@.len(),
                same_tables(p0, program),
                forall|j: int| 0 <= j < program.stmts@.len() ==> same_meta(p0, program, j),
                forall|j: int| 0 <= j < i ==> #[trigger] lowered_body(p0.stmts@[j].body, program.stmts@[j].body),
                forall|j: int| i <= j < program.stmts@.len() ==> #[trigger] program.stmts@[j].body == p0.stmts@[j].body,
            decreases program.stmts@.len() - i,
        {
            let ghost prev = program;
            let mut b = StmtBody::GiveUp;
            std::mem::swap(&mut program.stmts[i].body, &mut b);
            let nb = lower_body(b);
            program.stmts[i].body = nb;
            proof {
                assert forall|j: int| 0 <= j < program.stmts@.len() implies same_meta(p0, program, j) by {
                    assert(same_meta(p0, prev, j));
                    if j != i {
                        assert(program.stmts@[j] == prev.stmts@[j]);
                    }
                }
            }
            i = i + 1;
        }
        program
    }

    /// Runs a program that takes no input and draws no chance, and
    /// replaces it by one that prints what it printed, if it gave up
    /// normally within the step budget having written only text.
    pub fn opt_const_output(program: Program) -> (r: Program)
        requires
            program_wf(program),
        ensures
            const_output_done(program, r),
    {
        if !eligible(&program) {
            return program;
        }
        let ghost p0 = program;
        let mut ev = Eval::new(program, Vec::new(), Vec::new());
        let mut rng = Rng::new(CONST_OUTPUT_SEED);
        let ghost ev0 = ev;
        let ghost rng0 = rng;
        let res = ev.eval(&mut rng, CONST_OUTPUT_STEPS);
        proof {
            assert(fresh_eval(ev0, p0, Seq::empty(), Seq::empty()));
            assert(rng0 == Rng { state: CONST_OUTPUT_SEED });
            assert(const_run(p0, ev, rng, res));
        }
        let bytes = match res {
            Ok(Some(_)) => bytes_of(&ev.state.output),
            _ => None,
        };
        match bytes {
            None => ev.program,
            Some(b) => {
                let ghost gb = b@;
                let mut stmts: Vec<Stmt> = Vec::new();
                stmts.push(Stmt::new_with(StmtBody::Print(b)));
                stmts.push(Stmt::new_with(StmtBody::GiveUp));
                let mut types: Vec<Abstain> = Vec::new();
                types.push(Abstain::Label(0));
                types.push(Abstain::Label(0));
                let r = Program {
                    stmts,
                    labels: BTreeMap::new(),
                    stmt_types: types,
                    var_info: (Vec::new(), Vec::new(), Vec::new(), Vec::new()),
                    uses_complex_comefrom: false,
                    added_syslib: false,
                    added_floatlib: false,
                    bugline: 2,
                };
                proof {
                    assert(r.labels@ =~= Map::<u16, u16>::empty());
                    assert(print_program(r, gb));
                    assert(ev.state.output@ == bytes_out(gb));
                    assert(const_run(p0, ev, rng, res));
                }
                r
            },
        }
    }

    /// Marks as abstainable exactly the statements that some ABSTAIN or
    /// REINSTATE names; GIVE UP never is.
    pub fn opt_abstain_check(program: Program) -> (r: Program)
        requires
            crate::eval::program_wf(program),
        ensures
            abstain_checked(program, r),
    {
        let ghost p0 = program;
        let mut program = program;
        let n = program.stmts.len();
        let mut flags: Vec<bool> = Vec::new();
        let mut i: usize = 0;
        while i < n
            invariant
                i <= n,
                flags@.len() == i,
                forall|m: int| 0 <= m < i ==> #[trigger] flags@[m] == false,
            decreases n - i,
        {
            flags.push(false);
            i = i + 1;
        }
        let mut j: usize = 0;
        while j < n
            invariant
                j <= n,
                n == program.stmts@.len(),
                program == p0,
                crate::eval::program_wf(program),
                flags@.len() == n,
                forall|m: int| 0 <= m < n ==> #[trigger] flags@[m] == targeted_upto(p0, j as int, m),
            decreases n - j,
        {
            let ghost prev = flags@;
            match &program.stmts[j].body {
                StmtBody::Abstain(_, ts) | StmtBody::Reinstate(ts) => {
                    mark_targets(&program, ts, &mut flags);
                },
                _ => {},
            }
            proof {
                assert forall|m: int| 0 <= m < n implies #[trigger] flags@[m] == targeted_upto(p0, j + 1, m) by {
                    lemma_targeted_step(p0, j as int, m);
                }
            }
            j = j + 1;
        }
        let mut i: usize = 0;
        while i < n
            invariant
                i <= n,
                n == program.stmts@.len(),
                n == p0.stmts@.len(),
                flags@.len() == n,
                same_tables(p0, program),
                forall|m: int| 0 <= m < n ==> #[trigger] flags@[m] == targeted_upto(p0, n as int, m),
                forall|m: int| 0 <= m < n ==> {
                    &&& #[trigger] program.stmts@[m].body == p0.stmts@[m].body
                    &&& program.stmts@[m].props == p0.stmts@[m].props
                    &&& program.stmts@[m].comefrom == p0.stmts@[m].comefrom
                },
                forall|m: int| 0 <= m < i ==> #[trigger] program.stmts@[m].can_abstain == if p0.stmts@[m].body is GiveUp {
                    false
                } else {
                    flags@[m]
                },
                forall|m: int| i <= m < n ==> #[trigger] program.stmts@[m].can_abstain == p0.stmts@[m].can_abstain,
            decreases n - i,
        {
            let give_up = match program.stmts[i].body {
                StmtBody::GiveUp => true,
                _ => false,
            };
            let f = if give_up {
                false
            } else {
                flags[i]
            };
            program.stmts[i].can_abstain = f;
            i = i + 1;
        }
        program
    }

    /// Sets each variable's `can_stash` and `can_ignore` to whether some
    /// statement STASHes or RETRIEVEs it, or IGNOREs or REMEMBERs it.
    pub fn opt_var_check(program: Program) -> (r: Program)
        ensures
            var_checked(program, r),
    {
        let ghost p0 = program;
        let mut program = program;
        reset_table(&mut program.var_info.0);
        reset_table(&mut program.var_info.1);
        reset_table(&mut program.var_info.2);
        reset_table(&mut program.var_info.3);
        proof {
            assert forall|kind: u8, m: int| !#[trigger] var_named_upto(p0, 0, kind, m, true) && !var_named_upto(p0, 0, kind, m, false) by {}
        }
        let n = program.stmts.len();
        let mut j: usize = 0;
        while j < n
            invariant
                j <= n,
                n == program.stmts@.len(),
                program.stmts == p0.stmts,
                program.labels == p0.labels,
                program.stmt_types == p0.stmt_types,
                program.uses_complex_comefrom == p0.uses_complex_comefrom,
                program.added_syslib == p0.added_syslib,
                program.added_floatlib == p0.added_floatlib,
                program.bugline == p0.bugline,
                program.var_info.0@.len() == p0.var_info.0@.len(),
                program.var_info.1@.len() == p0.var_info.1@.len(),
                program.var_info.2@.len() == p0.var_info.2@.len(),
                program.var_info.3@.len() == p0.var_info.3@.len(),
                table_upto(p0, program.var_info.0@, 0, j as int),
                table_upto(p0, program.var_info.1@, 1, j as int),
                table_upto(p0, program.var_info.2@, 2, j as int),
                table_upto(p0, program.var_info.3@, 3, j as int),
            decreases n - j,
        {
            let ghost prev = program;
            mark_stmt(&program.stmts[j].body, &mut program.var_info);
            proof {
                lemma_table_step(p0, prev.var_info.0@, program.var_info.0@, 0, j as int);
                lemma_table_step(p0, prev.var_info.1@, program.var_info.1@, 1, j as int);
                lemma_table_step(p0, prev.var_info.2@, program.var_info.2@, 2, j as int);
                lemma_table_step(p0, prev.var_info.3@, program.var_info.3@, 3, j as int);
            }
            j = j + 1;
        }
        proof {
            lemma_pruned(p0, p0.var_info.0@, program.var_info.0@, 0);
            lemma_pruned(p0, p0.var_info.1@, program.var_info.1@, 1);
            lemma_pruned(p0, p0.var_info.2@, program.var_info.2@, 2);
            lemma_pruned(p0, p0.var_info.3@, program.var_info.3@, 3);
        }
        program
    }
}

proof fn lemma_pruned(p: Program, old: Seq<VarInfo>, t: Seq<VarInfo>, kind: u8)
    requires
        t.len() == old.len(),
        table_upto(p, t, kind, p.stmts@.len() as int),
    ensures
        pruned_table(p, old, t, kind),
{
}

proof fn lemma_table_of_kind(p: Program, r: Program, k: u8, n: int)
    requires
        pruned_table(p, p.var_info.0@, r.var_info.0@, 0),
        pruned_table(p, p.var_info.1@, r.var_info.1@, 1),
        pruned_table(p, p.var_info.2@, r.var_info.2@, 2),
        pruned_table(p, p.var_info.3@, r.var_info.3@, 3),
        0 <= n < info_table(p, k).len(),
        k <= 3,
    ensures
        info_table(r, k)[n].can_stash == var_named_upto(p, p.stmts@.len() as int, k, n, true),
        info_table(r, k)[n].can_ignore == var_named_upto(p, p.stmts@.len() as int, k, n, false),
{
    if k == 0 {
        assert(r.var_info.0@[n].can_stash == var_named_upto(p, p.stmts@.len() as int, 0, n, true));
    } else if k == 1 {
        assert(r.var_info.1@[n].can_stash == var_named_upto(p, p.stmts@.len() as int, 1, n, true));
    } else if k == 2 {
        assert(r.var_info.2@[n].can_stash == var_named_upto(p, p.stmts@.len() as int, 2, n, true));
    } else {
        assert(r.var_info.3@[n].can_stash == var_named_upto(p, p.stmts@.len() as int, 3, n, true));
    }
}

/// After var-check pruning, a variable that a STASH or RETRIEVE names is
/// marked `can_stash`, and one that an IGNORE or REMEMBER names is marked
/// `can_ignore`.
pub proof fn lemma_named_vars_marked(p: Program, r: Program, i: int, m: int)
    requires
        pruned_table(p, p.var_info.0@, r.var_info.0@, 0),
        pruned_table(p, p.var_info.1@, r.var_info.1@, 1),
        pruned_table(p, p.var_info.2@, r.var_info.2@, 2),
        pruned_table(p, p.var_info.3@, r.var_info.3@, 3),
        0 <= i < p.stmts@.len(),
    ensures
        match p.stmts@[i].body {
            StmtBody::Stash(vs) | StmtBody::Retrieve(vs) => 0 <= m < vs@.len() && (var_key(vs@[m]).1 as int)
                < info_table(p, var_key(vs@[m]).0).len() ==> info_table(r, var_key(vs@[m]).0)[var_key(
                vs@[m],
            ).1 as int].can_stash,
            StmtBody::Ignore(vs) | StmtBody::Remember(vs) => 0 <= m < vs@.len() && (var_key(vs@[m]).1 as int)
                < info_table(p, var_key(vs@[m]).0).len() ==> info_table(r, var_key(vs@[m]).0)[var_key(
                vs@[m],
            ).1 as int].can_ignore,
            _ => true,
        },
{
    match p.stmts@[i].body {
        StmtBody::Stash(vs) | StmtBody::Retrieve(vs) | StmtBody::Ignore(vs) | StmtBody::Remember(vs) => {
            if 0 <= m < vs@.len() {
                let k = var_key(vs@[m]).0;
                let n = var_key(vs@[m]).1 as int;
                assert(crate::eval::names_key(vs@[m], k, n));
                assert(list_names(vs@, k, n));
                let stash = p.stmts@[i].body is Stash || p.stmts@[i].body is Retrieve;
                assert(stmt_names(p.stmts@[i].body, k, n, stash));
                assert(var_named_upto(p, p.stmts@.len() as int, k, n, stash));
                if n < info_table(p, k).len() {
                    lemma_table_of_kind(p, r, k, n);
                }
            }
        },
        _ => {},
    }
}

} // verus!
