//! Semantic analysis: the label table, COME FROM binding, statement kind
//! tags and variable table sizes, with unresolved label references turned
//! into errors that surface only if the statement runs.

use std::collections::BTreeMap;

use vstd::prelude::*;

use crate::ast::{Abstain, ComeFrom, Expr, Program, StmtBody, Var, VarInfo, body_tag, var_key};
use crate::err::{ErrCode, RtError, with_line};
use crate::eval::program_wf;

verus! {

/// Every label a body refers to is in the table.
pub open spec fn refs_resolve(labels: Map<u16, u16>, b: StmtBody) -> bool {
    match b {
        StmtBody::DoNext(l) => labels.get(l).is_some(),
        StmtBody::ComeFrom(ComeFrom::Label(l)) => labels.get(l).is_some(),
        StmtBody::Abstain(_, ts) => targets_resolve(labels, ts@),
        StmtBody::Reinstate(ts) => targets_resolve(labels, ts@),
        _ => true,
    }
}

pub open spec fn targets_resolve(labels: Map<u16, u16>, ts: Seq<Abstain>) -> bool {
    forall|k: int|
        0 <= k < ts.len() ==> match #[trigger] ts[k] {
            Abstain::Label(l) => labels.get(l).is_some(),
            _ => true,
        }
}

/// The error a body with an unresolved label raises when it runs.
pub open spec fn unresolved_code(b: StmtBody) -> ErrCode {
    match b {
        StmtBody::DoNext(_) => ErrCode::IE129,
        StmtBody::ComeFrom(_) => ErrCode::IE444,
        _ => ErrCode::IE139,
    }
}

/// The label table of a program: each nonzero label maps to the statement
/// that carries it.
pub open spec fn label_table(p: Program, labels: Map<u16, u16>) -> bool {
    &&& forall|l: u16| #[trigger] labels.contains_key(l) <==> (l != 0 && exists|i: int|
        0 <= i < p.stmts@.len() && #[trigger] p.stmts@[i].props.label == l)
    &&& forall|l: u16| #[trigger] labels.contains_key(l) ==> (labels[l] as int) < p.stmts@.len()
        && p.stmts@[labels[l] as int].props.label == l
}

/// Two statements carry the same nonzero label.
pub open spec fn duplicate_label(p: Program) -> bool {
    exists|i: int, j: int|
        0 <= i < j < p.stmts@.len() && #[trigger] p.stmts@[i].props.label == #[trigger] p.stmts@[j].props.label
            && p.stmts@[i].props.label != 0
}

fn targets_ok(labels: &BTreeMap<u16, u16>, ts: &Vec<Abstain>) -> (r: bool)
    ensures
        r == targets_resolve(labels@, ts@),
{
    let mut k: usize = 0;
    while k < ts.len()
        invariant
            k <= ts@.len(),
            forall|m: int|
                0 <= m < k ==> match #[trigger] ts@[m] {
                    Abstain::Label(l) => labels@.contains_key(l),
                    _ => true,
                },
        decreases ts@.len() - k,
    {
        if let Abstain::Label(l) = ts[k] {
            if labels.get(&l).is_none() {
                proof {
                    assert(match ts@[k as int] {
                        Abstain::Label(l) => !labels@.contains_key(l),
                        _ => false,
                    });
                }
                return false;
            }
        }
        k = k + 1;
    }
    true
}

fn resolves(labels: &BTreeMap<u16, u16>, b: &StmtBody) -> (r: bool)
    ensures
        r == refs_resolve(labels@, *b),
{
    match b {
        StmtBody::DoNext(l) => labels.get(l).is_some(),
        StmtBody::ComeFrom(ComeFrom::Label(l)) => labels.get(l).is_some(),
        StmtBody::Abstain(_, ts) => targets_ok(labels, ts),
        StmtBody::Reinstate(ts) => targets_ok(labels, ts),
        _ => true,
    }
}

/// Builds the label table, refusing a label used twice.
pub fn build_labels(p: &Program) -> (r: Result<BTreeMap<u16, u16>, RtError>)
    requires
        p.stmts@.len() <= 0xFFFF,
    ensures
        r.is_ok() == !duplicate_label(*p),
        r matches Ok(m) ==> label_table(*p, m@),
        r matches Err(e) ==> e.code == ErrCode::IE182,
{
    let mut labels: BTreeMap<u16, u16> = BTreeMap::new();
    let mut i: usize = 0;
    while i < p.stmts.len()
        invariant
            i <= p.stmts@.len(),
            p.stmts@.len() <= 0xFFFF,
            forall|l: u16| #[trigger] labels@.contains_key(l) <==> (l != 0 && exists|j: int|
                0 <= j < i && #[trigger] p.stmts@[j].props.label == l),
            forall|l: u16| #[trigger] labels@.contains_key(l) ==> (labels@[l] as int) < i
                && p.stmts@[labels@[l] as int].props.label == l,
            forall|a: int, b: int|
                0 <= a < b < i ==> #[trigger] p.stmts@[a].props.label != #[trigger] p.stmts@[b].props.label
                    || p.stmts@[a].props.label == 0,
        decreases p.stmts@.len() - i,
    {
        let l = p.stmts[i].props.label;
        if l != 0 {
            if labels.get(&l).is_some() {
                proof {
                    let a = labels@[l] as int;
                    assert(p.stmts@[a].props.label == p.stmts@[i as int].props.label);
                    assert(duplicate_label(*p));
                }
                return Err(with_line(ErrCode::IE182, p.stmts[i].props.srcline));
            }
            labels.insert(l, i as u16);
        }
        proof {
            assert forall|m: u16| #[trigger] labels@.contains_key(m) <==> (m != 0 && exists|j: int|
                0 <= j < i + 1 && #[trigger] p.stmts@[j].props.label == m) by {
                if m != 0 && p.stmts@[i as int].props.label == m {
                    assert(labels@.contains_key(m));
                }
                if m != 0 && (exists|j: int| 0 <= j < i + 1 && #[trigger] p.stmts@[j].props.label == m) {
                    let j = choose|j: int| 0 <= j < i + 1 && #[trigger] p.stmts@[j].props.label == m;
                    if j < i {
                        assert(exists|j: int| 0 <= j < i && #[trigger] p.stmts@[j].props.label == m);
                    }
                }
            }
        }
        i = i + 1;
    }
    Ok(labels)
}

/// Table sizes by variable kind: spot, twospot, tail, hybrid.
#[derive(Clone, Copy, PartialEq, Eq, Structural, Debug)]
pub struct Sizes {
    pub spot: usize,
    pub twospot: usize,
    pub tail: usize,
    pub hybrid: usize,
}

pub open spec fn size_of_kind(sz: Sizes, k: u8) -> usize {
    if k == 0 {
        sz.spot
    } else if k == 1 {
        sz.twospot
    } else if k == 2 {
        sz.tail
    } else {
        sz.hybrid
    }
}

pub open spec fn sizes_le(a: Sizes, b: Sizes) -> bool {
    a.spot <= b.spot && a.twospot <= b.twospot && a.tail <= b.tail && a.hybrid <= b.hybrid
}

/// Every variable in the expression lies within the sizes.
pub open spec fn expr_fits(e: Expr, sz: Sizes) -> bool
    decreases e, 0int,
{
    match e {
        Expr::Num(..) => true,
        Expr::Var(v) => var_fits(v, sz),
        Expr::And(_, a) | Expr::Or(_, a) | Expr::Xor(_, a) | Expr::RsNot(a) => expr_fits(*a, sz),
        Expr::Mingle(a, b) | Expr::Select(_, a, b) | Expr::RsAnd(a, b) | Expr::RsOr(a, b)
        | Expr::RsXor(a, b) | Expr::RsRshift(a, b) | Expr::RsLshift(a, b) | Expr::RsNotEqual(a, b)
        | Expr::RsPlus(a, b) | Expr::RsMinus(a, b) => expr_fits(*a, sz) && expr_fits(*b, sz),
    }
}

/// The variable, and every variable in its subscripts, lies within the
/// sizes (an index no table can reach is left to fail when used).
pub open spec fn var_fits(v: Var, sz: Sizes) -> bool
    decreases v, 0int,
{
    ((var_key(v).1 as int) < size_of_kind(sz, var_key(v).0) || var_key(v).1 == usize::MAX) && match v {
        Var::A16(_, s) => exprs_fit(s, s@.len() as int, sz),
        Var::A32(_, s) => exprs_fit(s, s@.len() as int, sz),
        _ => true,
    }
}

/// The first `k` expressions fit.
pub open spec fn exprs_fit(s: Vec<Expr>, k: int, sz: Sizes) -> bool
    decreases s, k,
{
    if k <= 0 || k > s@.len() {
        true
    } else {
        exprs_fit(s, k - 1, sz) && expr_fits(s[k - 1], sz)
    }
}

proof fn lemma_fits_grow(e: Expr, a: Sizes, b: Sizes)
    requires
        sizes_le(a, b),
    ensures
        expr_fits(e, a) ==> expr_fits(e, b),
    decreases e, 0int,
{
    match e {
        Expr::Num(..) => {},
        Expr::Var(v) => lemma_var_fits_grow(v, a, b),
        Expr::And(_, x) | Expr::Or(_, x) | Expr::Xor(_, x) | Expr::RsNot(x) => lemma_fits_grow(*x, a, b),
        Expr::Mingle(x, y) | Expr::Select(_, x, y) | Expr::RsAnd(x, y) | Expr::RsOr(x, y)
        | Expr::RsXor(x, y) | Expr::RsRshift(x, y) | Expr::RsLshift(x, y) | Expr::RsNotEqual(x, y)
        | Expr::RsPlus(x, y) | Expr::RsMinus(x, y) => {
            lemma_fits_grow(*x, a, b);
            lemma_fits_grow(*y, a, b);
        },
    }
}

proof fn lemma_var_fits_grow(v: Var, a: Sizes, b: Sizes)
    requires
        sizes_le(a, b),
    ensures
        var_fits(v, a) ==> var_fits(v, b),
    decreases v, 0int,
{
    match v {
        Var::A16(_, s) => lemma_exprs_fit_grow(s, s@.len() as int, a, b),
        Var::A32(_, s) => lemma_exprs_fit_grow(s, s@.len() as int, a, b),
        _ => {},
    }
}

proof fn lemma_exprs_fit_grow(s: Vec<Expr>, k: int, a: Sizes, b: Sizes)
    requires
        sizes_le(a, b),
    ensures
        exprs_fit(s, k, a) ==> exprs_fit(s, k, b),
    decreases s, k,
{
    if 0 < k <= s@.len() {
        lemma_exprs_fit_grow(s, k - 1, a, b);
        assert(decreases_to!(s => s[k - 1]));
        lemma_fits_grow(s[k - 1], a, b);
    }
}

/// Grows the sizes so that the variable fits.
fn note_var(v: &Var, sz: &mut Sizes)
    ensures
        sizes_le(*old(sz), *final(sz)),
        var_fits(*v, *final(sz)),
    decreases v, 0int,
{
    match v {
        Var::I16(n) => {
            if sz.spot <= *n && *n < usize::MAX {
                sz.spot = *n + 1;
            }
        },
        Var::I32(n) => {
            if sz.twospot <= *n && *n < usize::MAX {
                sz.twospot = *n + 1;
            }
        },
        Var::A16(n, s) => {
            note_exprs(s, sz);
            let ghost mid = *sz;
            if sz.tail <= *n && *n < usize::MAX {
                sz.tail = *n + 1;
            }
            proof {
                lemma_exprs_fit_grow(*s, s@.len() as int, mid, *sz);
            }
        },
        Var::A32(n, s) => {
            note_exprs(s, sz);
            let ghost mid = *sz;
            if sz.hybrid <= *n && *n < usize::MAX {
                sz.hybrid = *n + 1;
            }
            proof {
                lemma_exprs_fit_grow(*s, s@.len() as int, mid, *sz);
            }
        },
    }
}

/// Grows the sizes so that every variable of the list of expressions fits.
fn note_exprs(s: &Vec<Expr>, sz: &mut Sizes)
    ensures
        sizes_le(*old(sz), *final(sz)),
        exprs_fit(*s, s@.len() as int, *final(sz)),
    decreases s, s@.len(),
{
    let mut i: usize = 0;
    while i < s.len()
        invariant
            i <= s@.len(),
            sizes_le(*old(sz), *sz),
            exprs_fit(*s, i as int, *sz),
        decreases s@.len() - i,
    {
        proof {
            assert(decreases_to!(s => s[i as int]));
        }
        let ghost before = *sz;
        note_expr(&s[i], sz);
        proof {
            lemma_exprs_fit_grow(*s, i as int, before, *sz);
        }
        i = i + 1;
    }
}

/// Grows the sizes so that every variable of the expression fits.
fn note_expr(e: &Expr, sz: &mut Sizes)
    ensures
        sizes_le(*old(sz), *final(sz)),
        expr_fits(*e, *final(sz)),
    decreases e, 0int,
{
    match e {
        Expr::Num(..) => {},
        Expr::Var(v) => note_var(v, sz),
        Expr::And(_, a) | Expr::Or(_, a) | Expr::Xor(_, a) | Expr::RsNot(a) => note_expr(a, sz),
        Expr::Mingle(a, b) | Expr::Select(_, a, b) | Expr::RsAnd(a, b) | Expr::RsOr(a, b)
        | Expr::RsXor(a, b) | Expr::RsRshift(a, b) | Expr::RsLshift(a, b) | Expr::RsNotEqual(a, b)
        | Expr::RsPlus(a, b) | Expr::RsMinus(a, b) => {
            note_expr(a, sz);
            let ghost mid = *sz;
            note_expr(b, sz);
            proof {
                lemma_fits_grow(**a, mid, *sz);
            }
        },
    }
}

/// Every listed variable fits.
pub open spec fn vars_fit(vs: Seq<Var>, sz: Sizes) -> bool {
    forall|k: int| 0 <= k < vs.len() ==> #[trigger] var_fits(vs[k], sz)
}

/// Every variable a statement body names fits.
pub open spec fn body_fits(b: StmtBody, sz: Sizes) -> bool {
    match b {
        StmtBody::Calc(v, e) => var_fits(v, sz) && expr_fits(e, sz),
        StmtBody::Dim(v, es) => var_fits(v, sz) && exprs_fit(es, es@.len() as int, sz),
        StmtBody::Resume(e) => expr_fits(e, sz),
        StmtBody::Forget(e) => expr_fits(e, sz),
        StmtBody::Ignore(vs) => vars_fit(vs@, sz),
        StmtBody::Remember(vs) => vars_fit(vs@, sz),
        StmtBody::Stash(vs) => vars_fit(vs@, sz),
        StmtBody::Retrieve(vs) => vars_fit(vs@, sz),
        StmtBody::WriteIn(vs) => vars_fit(vs@, sz),
        StmtBody::Abstain(Some(e), _) => expr_fits(e, sz),
        StmtBody::ReadOut(es) => exprs_fit(es, es@.len() as int, sz),
        StmtBody::ComeFrom(ComeFrom::Expr(e)) => expr_fits(e, sz),
        _ => true,
    }
}

proof fn lemma_body_fits_grow(b: StmtBody, x: Sizes, y: Sizes)
    requires
        sizes_le(x, y),
        body_fits(b, x),
    ensures
        body_fits(b, y),
{
    match b {
        StmtBody::Calc(v, e) => {
            lemma_var_fits_grow(v, x, y);
            lemma_fits_grow(e, x, y);
        },
        StmtBody::Dim(v, es) => {
            lemma_var_fits_grow(v, x, y);
            lemma_exprs_fit_grow(es, es@.len() as int, x, y);
        },
        StmtBody::Resume(e) | StmtBody::Forget(e) | StmtBody::Abstain(Some(e), _)
        | StmtBody::ComeFrom(ComeFrom::Expr(e)) => lemma_fits_grow(e, x, y),
        StmtBody::Ignore(vs) | StmtBody::Remember(vs) | StmtBody::Stash(vs) | StmtBody::Retrieve(vs)
        | StmtBody::WriteIn(vs) => {
            assert forall|k: int| 0 <= k < vs@.len() implies #[trigger] var_fits(vs@[k], y) by {
                lemma_var_fits_grow(vs@[k], x, y);
            }
        },
        StmtBody::ReadOut(es) => lemma_exprs_fit_grow(es, es@.len() as int, x, y),
        _ => {},
    }
}

fn note_vars(vs: &Vec<Var>, sz: &mut Sizes)
    ensures
        sizes_le(*old(sz), *final(sz)),
        vars_fit(vs@, *final(sz)),
{
    let mut i: usize = 0;
    while i < vs.len()
        invariant
            i <= vs@.len(),
            sizes_le(*old(sz), *sz),
            forall|k: int| 0 <= k < i ==> #[trigger] var_fits(vs@[k], *sz),
        decreases vs@.len() - i,
    {
        let ghost before = *sz;
        note_var(&vs[i], sz);
        proof {
            assert forall|k: int| 0 <= k < i implies #[trigger] var_fits(vs@[k], *sz) by {
                lemma_var_fits_grow(vs@[k], before, *sz);
            }
        }
        i = i + 1;
    }
}

fn note_body(b: &StmtBody, sz: &mut Sizes)
    ensures
        sizes_le(*old(sz), *final(sz)),
        body_fits(*b, *final(sz)),
{
    match b {
        StmtBody::Calc(v, e) => {
            note_var(v, sz);
            let ghost mid = *sz;
            note_expr(e, sz);
            proof {
                lemma_var_fits_grow(*v, mid, *sz);
            }
        },
        StmtBody::Dim(v, es) => {
            note_var(v, sz);
            let ghost mid = *sz;
            note_exprs(es, sz);
            proof {
                lemma_var_fits_grow(*v, mid, *sz);
            }
        },
        StmtBody::Resume(e) | StmtBody::Forget(e) | StmtBody::Abstain(Some(e), _)
        | StmtBody::ComeFrom(ComeFrom::Expr(e)) => note_expr(e, sz),
        StmtBody::Ignore(vs) | StmtBody::Remember(vs) | StmtBody::Stash(vs) | StmtBody::Retrieve(vs)
        | StmtBody::WriteIn(vs) => note_vars(vs, sz),
        StmtBody::ReadOut(es) => note_exprs(es, sz),
        _ => {},
    }
}

fn unresolved_code_of(b: &StmtBody) -> (r: ErrCode)
    ensures
        r == unresolved_code(*b),
{
    match b {
        StmtBody::DoNext(_) => ErrCode::IE129,
        StmtBody::ComeFrom(_) => ErrCode::IE444,
        _ => ErrCode::IE139,
    }
}

fn fresh_infos(n: usize) -> (r: Vec<VarInfo>)
    ensures
        r@.len() == n,
        forall|i: int| 0 <= i < n ==> #[trigger] r@[i] == (VarInfo { can_ignore: true, can_stash: true }),
{
    let mut r: Vec<VarInfo> = Vec::new();
    let mut i: usize = 0;
    while i < n
        invariant
            i <= n,
            r@.len() == i,
            forall|k: int| 0 <= k < i ==> #[trigger] r@[k] == (VarInfo { can_ignore: true, can_stash: true }),
        decreases n - i,
    {
        r.push(VarInfo::new());
        i = i + 1;
    }
    r
}

/// Variable information asking for every check.
pub open spec fn fresh_info() -> VarInfo {
    VarInfo { can_ignore: true, can_stash: true }
}

/// A COME FROM of a plain label, and the label.
pub open spec fn come_from_label(b: StmtBody) -> Option<u16> {
    match b {
        StmtBody::ComeFrom(ComeFrom::Label(l)) => Some(l),
        _ => None,
    }
}

/// A COME FROM given by an expression or a gerund.
pub open spec fn complex_come_from(b: StmtBody) -> bool {
    match b {
        StmtBody::ComeFrom(ComeFrom::Expr(_)) => true,
        StmtBody::ComeFrom(ComeFrom::Gerund(_)) => true,
        _ => false,
    }
}

/// The table sizes of a program.
pub open spec fn sizes_of(p: Program) -> Sizes {
    Sizes {
        spot: p.var_info.0@.len() as usize,
        twospot: p.var_info.1@.len() as usize,
        tail: p.var_info.2@.len() as usize,
        hybrid: p.var_info.3@.len() as usize,
    }
}

/// The analyzed program: `r` is `p` with its label table, unresolved label
/// references turned into errors, COME FROMs bound, kind tags, and tables
/// sized for every variable.
pub open spec fn analyzed(p: Program, r: Program) -> bool {
    let n = p.stmts@.len();
    &&& r.stmts@.len() == n
    &&& label_table(p, r.labels@)
    &&& forall|i: int| 0 <= i < n ==> #[trigger] r.stmts@[i].props == p.stmts@[i].props
    &&& forall|i: int| 0 <= i < n ==> #[trigger] r.stmts@[i].body == if refs_resolve(r.labels@, p.stmts@[i].body) {
        p.stmts@[i].body
    } else {
        StmtBody::Error(RtError { code: unresolved_code(p.stmts@[i].body), line: p.stmts@[i].props.srcline })
    }
    &&& forall|i: int| 0 <= i < n ==> #[trigger] refs_resolve(r.labels@, r.stmts@[i].body)
    &&& forall|i: int| 0 <= i < n ==> match #[trigger] r.stmts@[i].comefrom {
        Some(j) => (j as int) < n && come_from_label(r.stmts@[j as int].body) == Some(p.stmts@[i].props.label),
        None => true,
    }
    &&& forall|j: int| 0 <= j < n ==> match #[trigger] come_from_label(r.stmts@[j].body) {
        Some(l) => r.stmts@[r.labels@[l] as int].comefrom == Some(j as u16),
        None => true,
    }
    &&& r.uses_complex_comefrom == exists|j: int| 0 <= j < n && #[trigger] complex_come_from(r.stmts@[j].body)
    &&& r.stmt_types@.len() == n
    &&& forall|i: int| 0 <= i < n ==> #[trigger] r.stmt_types@[i] == body_tag(r.stmts@[i].body)
    &&& forall|i: int| 0 <= i < n ==> #[trigger] body_fits(r.stmts@[i].body, sizes_of(r))
    &&& forall|i: int| 0 <= i < r.var_info.0@.len() ==> #[trigger] r.var_info.0@[i] == fresh_info()
    &&& forall|i: int| 0 <= i < r.var_info.1@.len() ==> #[trigger] r.var_info.1@[i] == fresh_info()
    &&& forall|i: int| 0 <= i < r.var_info.2@.len() ==> #[trigger] r.var_info.2@[i] == fresh_info()
    &&& forall|i: int| 0 <= i < r.var_info.3@.len() ==> #[trigger] r.var_info.3@[i] == fresh_info()
    &&& r.added_syslib == p.added_syslib
    &&& r.added_floatlib == p.added_floatlib
    &&& r.bugline == p.bugline
    &&& program_wf(r)
}

/// Some statement carries the nonzero label `l`.
pub open spec fn label_present(p: Program, l: u16) -> bool {
    l != 0 && exists|i: int| 0 <= i < p.stmts@.len() && #[trigger] p.stmts@[i].props.label == l
}

/// The label that statement `j` comes from, when it is a COME FROM of a
/// label that exists.
pub open spec fn resolved_come_from(p: Program, j: int) -> Option<u16> {
    match come_from_label(p.stmts@[j].body) {
        Some(l) => if label_present(p, l) {
            Some(l)
        } else {
            None
        },
        None => None,
    }
}

/// Two COME FROMs aim at one existing label.
pub open spec fn duplicate_come_from(p: Program) -> bool {
    exists|j1: int, j2: int|
        0 <= j1 < j2 < p.stmts@.len() && (#[trigger] resolved_come_from(p, j1)) is Some
            && resolved_come_from(p, j1) == #[trigger] resolved_come_from(p, j2)
}

proof fn lemma_label_in_range(p: Program, m: Map<u16, u16>, l: u16)
    requires
        label_table(p, m),
        m.contains_key(l),
    ensures
        (m[l] as int) < p.stmts@.len(),
        p.stmts@[m[l] as int].props.label == l,
{
}

/// Analyzes a parsed program. Fails on a label carried by two statements
/// (IE182) or two COME FROMs aimed at one label (IE555).
pub fn analyze(program: Program) -> (r: Result<Program, RtError>)
    requires
        program.stmts@.len() <= 0xFFFF,
        forall|i: int| 0 <= i < program.stmts@.len() ==> #[trigger] program.stmts@[i].props.chance <= 100,
    ensures
        r.is_ok() <==> !duplicate_label(program) && !duplicate_come_from(program),
        duplicate_label(program) ==> (r matches Err(e) && e.code == ErrCode::IE182),
        !duplicate_label(program) && duplicate_come_from(program) ==> (r matches Err(e) && e.code
            == ErrCode::IE555),
        r matches Ok(q) ==> analyzed(program, q),
{
    let ghost p0 = program;
    assert(p0 == program);
    assert(duplicate_label(program) == duplicate_label(p0));
    let labels = match build_labels(&program) {
        Ok(m) => m,
        Err(e) => {
            return Err(e);
        },
    };
    proof {
        assert(!duplicate_label(program));
    }
    let mut q = program;
    let n = q.stmts.len();
    let mut i: usize = 0;
    while i < n
        invariant
            i <= n,
            n == q.stmts@.len(),
            n == p0.stmts@.len(),
            n <= 0xFFFF,
            !duplicate_label(p0),
            p0 == program,
            label_table(p0, labels@),
            q.added_syslib == p0.added_syslib,
            q.added_floatlib == p0.added_floatlib,
            q.bugline == p0.bugline,
            forall|m: int| 0 <= m < n ==> #[trigger] q.stmts@[m].props == p0.stmts@[m].props,
            forall|m: int| 0 <= m < i ==> #[trigger] q.stmts@[m].body == if refs_resolve(labels@, p0.stmts@[m].body) {
                p0.stmts@[m].body
            } else {
                StmtBody::Error(RtError { code: unresolved_code(p0.stmts@[m].body), line: p0.stmts@[m].props.srcline })
            },
            forall|m: int| 0 <= m < i ==> #[trigger] q.stmts@[m].comefrom == None::<u16>,
            forall|m: int| i <= m < n ==> #[trigger] q.stmts@[m].body == p0.stmts@[m].body,
        decreases n - i,
    {
        if !resolves(&labels, &q.stmts[i].body) {
            let code = unresolved_code_of(&q.stmts[i].body);
            let line = q.stmts[i].props.srcline;
            q.stmts[i].body = StmtBody::Error(with_line(code, line));
        }
        q.stmts[i].comefrom = None;
        i = i + 1;
    }
    let ghost a = q;
    proof {
        assert forall|m: int| 0 <= m < n implies #[trigger] refs_resolve(labels@, a.stmts@[m].body) by {
            assert(a.stmts@[m].body == if refs_resolve(labels@, p0.stmts@[m].body) {
                p0.stmts@[m].body
            } else {
                StmtBody::Error(RtError { code: unresolved_code(p0.stmts@[m].body), line: p0.stmts@[m].props.srcline })
            });
        }
    }
    proof {
        assert forall|t: int| 0 <= t < n implies #[trigger] come_from_label(a.stmts@[t].body) == resolved_come_from(p0, t) by {
            match come_from_label(p0.stmts@[t].body) {
                Some(l) => {
                    if label_present(p0, l) {
                        assert(labels@.contains_key(l));
                        assert(refs_resolve(labels@, p0.stmts@[t].body));
                    } else {
                        assert(!labels@.contains_key(l));
                        assert(!refs_resolve(labels@, p0.stmts@[t].body));
                    }
                },
                None => {
                    if !refs_resolve(labels@, p0.stmts@[t].body) {
                        assert(a.stmts@[t].body is Error);
                    }
                },
            }
        }
    }
    let mut complex = false;
    let mut j: usize = 0;
    while j < n
        invariant
            j <= n,
            n == q.stmts@.len(),
            n == a.stmts@.len(),
            n == p0.stmts@.len(),
            n <= 0xFFFF,
            !duplicate_label(p0),
            p0 == program,
            label_table(p0, labels@),
            forall|m: int| 0 <= m < n ==> #[trigger] refs_resolve(labels@, a.stmts@[m].body),
            forall|m: int| 0 <= m < n ==> #[trigger] q.stmts@[m].props == a.stmts@[m].props,
            forall|m: int| 0 <= m < n ==> #[trigger] q.stmts@[m].body == a.stmts@[m].body,
            forall|m: int| 0 <= m < n ==> #[trigger] a.stmts@[m].props == p0.stmts@[m].props,
            q.added_syslib == p0.added_syslib,
            q.added_floatlib == p0.added_floatlib,
            q.bugline == p0.bugline,
            forall|m: int| 0 <= m < n ==> match #[trigger] q.stmts@[m].comefrom {
                Some(t) => (t as int) < j && come_from_label(a.stmts@[t as int].body) == Some(p0.stmts@[m].props.label),
                None => true,
            },
            forall|t: int| 0 <= t < j ==> match #[trigger] come_from_label(a.stmts@[t].body) {
                Some(l) => q.stmts@[labels@[l] as int].comefrom == Some(t as u16),
                None => true,
            },
            complex == exists|t: int| 0 <= t < j && #[trigger] complex_come_from(a.stmts@[t].body),
            forall|t: int| 0 <= t < n ==> #[trigger] come_from_label(a.stmts@[t].body) == resolved_come_from(p0, t),
            forall|t1: int, t2: int|
                0 <= t1 < t2 < j && (#[trigger] resolved_come_from(p0, t1)) is Some ==> resolved_come_from(p0, t1)
                    != #[trigger] resolved_come_from(p0, t2),
        decreases n - j,
    {
        let target: Option<u16> = match &q.stmts[j].body {
            StmtBody::ComeFrom(ComeFrom::Label(l)) => Some(*l),
            _ => None,
        };
        let is_complex = match &q.stmts[j].body {
            StmtBody::ComeFrom(ComeFrom::Label(_)) => false,
            StmtBody::ComeFrom(_) => true,
            _ => false,
        };
        proof {
            assert(target == come_from_label(a.stmts@[j as int].body));
            assert(is_complex == complex_come_from(a.stmts@[j as int].body));
            assert(refs_resolve(labels@, a.stmts@[j as int].body));
        }
        if is_complex {
            complex = true;
        }
        if let Some(l) = target {
            proof {
                assert(labels@.contains_key(l));
                lemma_label_in_range(p0, labels@, l);
            }
            let idx: usize = match labels.get(&l) {
                Some(v) => *v as usize,
                None => {
                    proof {
                        assert(false);
                    }
                    0
                },
            };
            proof {
                assert(idx as int == labels@[l] as int);
            }
            if q.stmts[idx].comefrom.is_some() {
                proof {
                    assert(!duplicate_label(p0));
                    let t = q.stmts@[idx as int].comefrom.unwrap() as int;
                    assert(come_from_label(a.stmts@[t].body) == Some(p0.stmts@[idx as int].props.label));
                    assert(p0.stmts@[idx as int].props.label == l);
                    assert(resolved_come_from(p0, t) == Some(l));
                    assert(resolved_come_from(p0, j as int) == Some(l));
                    assert(duplicate_come_from(p0));
                }
                return Err(with_line(ErrCode::IE555, q.stmts[j].props.srcline));
            }
            let ghost prev = q;
            q.stmts[idx].comefrom = Some(j as u16);
            proof {
                assert forall|t1: int| 0 <= t1 < j && (#[trigger] resolved_come_from(p0, t1)) is Some
                    implies resolved_come_from(p0, t1) != resolved_come_from(p0, j as int) by {
                    if resolved_come_from(p0, t1) == resolved_come_from(p0, j as int) {
                        assert(come_from_label(a.stmts@[t1].body) == Some(l));
                        assert(prev.stmts@[labels@[l] as int].comefrom == Some(t1 as u16));
                    }
                }
            }
            proof {
                assert forall|t: int| 0 <= t < j implies match #[trigger] come_from_label(a.stmts@[t].body) {
                    Some(l2) => q.stmts@[labels@[l2] as int].comefrom == Some(t as u16),
                    None => true,
                } by {
                    match come_from_label(a.stmts@[t].body) {
                        Some(l2) => {
                            assert(refs_resolve(labels@, a.stmts@[t].body));
                            lemma_label_in_range(p0, labels@, l2);
                            assert(prev.stmts@[labels@[l2] as int].comefrom == Some(t as u16));
                            if labels@[l2] as int != idx as int {
                                assert(q.stmts@[labels@[l2] as int] == prev.stmts@[labels@[l2] as int]);
                            }
                        },
                        None => {},
                    }
                }
                assert forall|m: int| 0 <= m < n implies match #[trigger] q.stmts@[m].comefrom {
                    Some(t) => (t as int) < j + 1 && come_from_label(a.stmts@[t as int].body) == Some(p0.stmts@[m].props.label),
                    None => true,
                } by {
                    if m != idx as int {
                        assert(q.stmts@[m] == prev.stmts@[m]);
                    } else {
                        assert(p0.stmts@[m].props.label == l);
                    }
                }
            }
        }
        proof {
            if target.is_none() {
                assert(resolved_come_from(p0, j as int).is_none());
            }
            assert forall|t1: int, t2: int|
                0 <= t1 < t2 < j + 1 && (#[trigger] resolved_come_from(p0, t1)) is Some implies resolved_come_from(p0, t1)
                    != #[trigger] resolved_come_from(p0, t2) by {
                if t2 < j {
                } else {
                    assert(t2 == j);
                }
            }
            if !is_complex {
                assert forall|t: int| 0 <= t < j + 1 && #[trigger] complex_come_from(a.stmts@[t].body) implies t < j by {}
            }
        }
        j = j + 1;
    }
    q.uses_complex_comefrom = complex;
    let mut types: Vec<Abstain> = Vec::new();
    let mut i: usize = 0;
    while i < n
        invariant
            i <= n,
            n == q.stmts@.len(),
            types@.len() == i,
            forall|m: int| 0 <= m < i ==> #[trigger] types@[m] == body_tag(q.stmts@[m].body),
        decreases n - i,
    {
        types.push(q.stmts[i].stype());
        i = i + 1;
    }
    q.stmt_types = types;
    let mut sz = Sizes { spot: 0, twospot: 0, tail: 0, hybrid: 0 };
    let mut i: usize = 0;
    while i < n
        invariant
            i <= n,
            n == q.stmts@.len(),
            forall|m: int| 0 <= m < i ==> #[trigger] body_fits(q.stmts@[m].body, sz),
        decreases n - i,
    {
        let ghost before = sz;
        note_body(&q.stmts[i].body, &mut sz);
        proof {
            assert forall|m: int| 0 <= m < i implies #[trigger] body_fits(q.stmts@[m].body, sz) by {
                lemma_body_fits_grow(q.stmts@[m].body, before, sz);
            }
        }
        i = i + 1;
    }
    q.var_info = (fresh_infos(sz.spot), fresh_infos(sz.twospot), fresh_infos(sz.tail), fresh_infos(sz.hybrid));
    q.labels = labels;
    proof {
        assert(sizes_of(q) == sz);
        assert forall|m: int| 0 <= m < n implies #[trigger] q.stmts@[m].props.chance <= 100 by {
            assert(q.stmts@[m].props == p0.stmts@[m].props);
        }
        assert forall|m: int| 0 <= m < n implies match #[trigger] q.stmts@[m].comefrom {
            Some(t) => (t as int) < n,
            None => true,
        } by {}
        assert forall|m: int| 0 <= m < n implies #[trigger] q.stmts@[m].body == if refs_resolve(q.labels@, p0.stmts@[m].body) {
            p0.stmts@[m].body
        } else {
            StmtBody::Error(RtError { code: unresolved_code(p0.stmts@[m].body), line: p0.stmts@[m].props.srcline })
        } by {
            assert(q.stmts@[m].body == a.stmts@[m].body);
        }
        let n0 = p0.stmts@.len();
        assert(q.stmts@.len() == n0);
        assert(label_table(p0, q.labels@));
        assert(forall|i: int| 0 <= i < n0 ==> #[trigger] q.stmts@[i].props == p0.stmts@[i].props);
        assert(forall|i: int| 0 <= i < n0 ==> #[trigger] refs_resolve(q.labels@, q.stmts@[i].body));
        assert(forall|i: int| 0 <= i < n0 ==> match #[trigger] q.stmts@[i].comefrom {
            Some(j) => (j as int) < n0 && come_from_label(q.stmts@[j as int].body) == Some(p0.stmts@[i].props.label),
            None => true,
        });
        assert(forall|j: int| 0 <= j < n0 ==> match #[trigger] come_from_label(q.stmts@[j].body) {
            Some(l) => q.stmts@[q.labels@[l] as int].comefrom == Some(j as u16),
            None => true,
        });
        if q.uses_complex_comefrom {
            let t = choose|t: int| 0 <= t < n0 && #[trigger] complex_come_from(a.stmts@[t].body);
            assert(q.stmts@[t].body == a.stmts@[t].body);
            assert(complex_come_from(q.stmts@[t].body));
        }
        if exists|t: int| 0 <= t < n0 && #[trigger] complex_come_from(q.stmts@[t].body) {
            let t = choose|t: int| 0 <= t < n0 && #[trigger] complex_come_from(q.stmts@[t].body);
            assert(q.stmts@[t].body == a.stmts@[t].body);
            assert(complex_come_from(a.stmts@[t].body));
        }
        assert(q.uses_complex_comefrom == exists|j: int| 0 <= j < n0 && #[trigger] complex_come_from(q.stmts@[j].body));
        assert(forall|i: int| 0 <= i < n0 ==> #[trigger] q.stmt_types@[i] == body_tag(q.stmts@[i].body));
        assert(forall|i: int| 0 <= i < n0 ==> #[trigger] body_fits(q.stmts@[i].body, sizes_of(q)));
        assert(program_wf(q));
        assert(analyzed(p0, q));
    }
    Ok(q)
}

/// How many of the first `k` statements say PLEASE.
pub open spec fn polite_count(p: Program, k: int) -> nat
    decreases k,
{
    if k <= 0 {
        0
    } else {
        polite_count(p, k - 1) + if p.stmts@[k - 1].props.polite {
            1nat
        } else {
            0nat
        }
    }
}

/// The politeness error, if any: too rude under one fifth PLEASE (IE079), too
/// polite over one third (IE099).
pub open spec fn politeness_spec(p: Program) -> Option<ErrCode> {
    let n = p.stmts@.len() as int;
    let c = polite_count(p, n);
    if 5 * c < n {
        Some(ErrCode::IE079)
    } else if 3 * c > n {
        Some(ErrCode::IE099)
    } else {
        None
    }
}

/// Checks that a program says PLEASE often enough, but not too often.
pub fn politeness(p: &Program) -> (r: Option<ErrCode>)
    ensures
        r == politeness_spec(*p),
{
    let n = p.stmts.len();
    let mut c: usize = 0;
    let mut i: usize = 0;
    while i < n
        invariant
            i <= n,
            n == p.stmts@.len(),
            c == polite_count(*p, i as int),
            c <= i,
        decreases n - i,
    {
        if p.stmts[i].props.polite {
            c = c + 1;
        }
        i = i + 1;
    }
    let c64 = c as u128;
    let n64 = n as u128;
    if 5 * c64 < n64 {
        Some(ErrCode::IE079)
    } else if 3 * c64 > n64 {
        Some(ErrCode::IE099)
    } else {
        None
    }
}

/// After analysis every NEXT names a label of the table, unless its
/// statement became an error.
pub proof fn lemma_next_targets_known(p: Program, q: Program, i: int)
    requires
        analyzed(p, q),
        0 <= i < q.stmts@.len(),
    ensures
        match q.stmts@[i].body {
            StmtBody::DoNext(l) => q.labels@.contains_key(l),
            StmtBody::Error(_) => true,
            _ => true,
        },
        (q.stmts@[i].body is DoNext) || (q.stmts@[i].body is Error) || !(p.stmts@[i].body is DoNext),
{
    assert(refs_resolve(q.labels@, q.stmts@[i].body));
    assert(q.stmts@[i].body == if refs_resolve(q.labels@, p.stmts@[i].body) {
        p.stmts@[i].body
    } else {
        StmtBody::Error(RtError { code: unresolved_code(p.stmts@[i].body), line: p.stmts@[i].props.srcline })
    });
}

} // verus!
