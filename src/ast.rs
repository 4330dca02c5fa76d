//! The abstract syntax tree of an INTERCAL program, with the metadata that
//! the analyzer and the interpreter rely on.

use std::collections::BTreeMap;

use vstd::prelude::*;

use crate::err::RtError;
use crate::lex::SrcLine;

verus! {

/// A label, 1 to 65535; zero stands for "no label".
pub type Label = u16;

/// A logical line: the index of a statement in the program.
pub type LogLine = u16;

/// A whole program, with the information the interpreter needs.
#[derive(PartialEq, Eq, Debug)]
pub struct Program {
    /// Statements in the program.
    pub stmts: Vec<Stmt>,
    /// Maps label numbers to logical lines.
    pub labels: BTreeMap<Label, LogLine>,
    /// The kind of each statement, as an ABSTAIN target.
    pub stmt_types: Vec<Abstain>,
    /// Variable information by kind: spot, twospot, tail, hybrid.
    pub var_info: (Vec<VarInfo>, Vec<VarInfo>, Vec<VarInfo>, Vec<VarInfo>),
    /// True if the program has a COME FROM that is not a plain label.
    pub uses_complex_comefrom: bool,
    /// True if the system library was appended.
    pub added_syslib: bool,
    /// True if the floating-point library was appended.
    pub added_floatlib: bool,
    /// The logical line on which the compiler bug fires; disabled when at
    /// or beyond the number of statements.
    pub bugline: LogLine,
}

/// A single statement.
#[derive(PartialEq, Eq, Debug)]
pub struct Stmt {
    pub body: StmtBody,
    pub props: StmtProps,
    /// The COME FROM statement aimed at this one, filled in by analysis.
    pub comefrom: Option<LogLine>,
    /// Whether some ABSTAIN or REINSTATE may target this statement.
    pub can_abstain: bool,
}

/// Properties common to all statements.
#[derive(Clone, Copy, PartialEq, Eq, Structural, Debug)]
pub struct StmtProps {
    /// Source line of the statement.
    pub srcline: SrcLine,
    /// Source line of the next statement, for "on the way to" in errors.
    pub onthewayto: SrcLine,
    /// Label of the statement, or zero.
    pub label: Label,
    /// Execution chance in percent, usually 100.
    pub chance: u8,
    /// True if the statement said PLEASE.
    pub polite: bool,
    /// True if the statement starts out abstained (NOT or N'T).
    pub disabled: bool,
}

/// What a statement does.
#[derive(PartialEq, Eq, Debug)]
pub enum StmtBody {
    /// A statement that could not be decoded; raises its error when run.
    Error(RtError),
    Calc(Var, Expr),
    Dim(Var, Vec<Expr>),
    DoNext(Label),
    ComeFrom(ComeFrom),
    Resume(Expr),
    Forget(Expr),
    Ignore(Vec<Var>),
    Remember(Vec<Var>),
    Stash(Vec<Var>),
    Retrieve(Vec<Var>),
    Abstain(Option<Expr>, Vec<Abstain>),
    Reinstate(Vec<Abstain>),
    WriteIn(Vec<Var>),
    ReadOut(Vec<Expr>),
    TryAgain,
    GiveUp,
    /// Emit the given bytes; produced by the constant-output optimization.
    Print(Vec<u8>),
}

/// A variable reference.
#[derive(PartialEq, Eq, Debug)]
pub enum Var {
    /// 16-bit "spot".
    I16(usize),
    /// 32-bit "twospot".
    I32(usize),
    /// 16-bit array "tail", with subscripts.
    A16(usize, Vec<Expr>),
    /// 32-bit array "hybrid", with subscripts.
    A32(usize, Vec<Expr>),
}

/// An expression.
#[derive(PartialEq, Eq, Debug)]
pub enum Expr {
    /// A literal with its width.
    Num(VType, u32),
    Var(Var),
    Mingle(Box<Expr>, Box<Expr>),
    Select(VType, Box<Expr>, Box<Expr>),
    And(VType, Box<Expr>),
    Or(VType, Box<Expr>),
    Xor(VType, Box<Expr>),
    RsNot(Box<Expr>),
    RsAnd(Box<Expr>, Box<Expr>),
    RsOr(Box<Expr>, Box<Expr>),
    RsXor(Box<Expr>, Box<Expr>),
    RsRshift(Box<Expr>, Box<Expr>),
    RsLshift(Box<Expr>, Box<Expr>),
    RsNotEqual(Box<Expr>, Box<Expr>),
    RsPlus(Box<Expr>, Box<Expr>),
    RsMinus(Box<Expr>, Box<Expr>),
}

/// The width of a value.
#[derive(Clone, Copy, PartialEq, Eq, Structural, Debug)]
pub enum VType {
    I16,
    I32,
}

/// A target of ABSTAIN or REINSTATE: a label or a kind of statement.
#[derive(Clone, Copy, PartialEq, Eq, Structural, Debug)]
pub enum Abstain {
    Label(Label),
    Calc,
    Next,
    Resume,
    Forget,
    Ignore,
    Remember,
    Stash,
    Retrieve,
    Abstain,
    Reinstate,
    ComeFrom,
    ReadOut,
    WriteIn,
    TryAgain,
}

/// The target of a COME FROM.
#[derive(PartialEq, Eq, Debug)]
pub enum ComeFrom {
    Label(Label),
    Expr(Expr),
    Gerund(Abstain),
}

/// What the interpreter must check for a variable.
#[derive(Clone, Copy, PartialEq, Eq, Structural, Debug)]
pub struct VarInfo {
    /// The variable is named in some IGNORE or REMEMBER.
    pub can_ignore: bool,
    /// The variable is named in some STASH or RETRIEVE.
    pub can_stash: bool,
}

/// The ABSTAIN kind of a statement body; `Label(0)` for bodies that no
/// gerund can name.
pub open spec fn body_tag(b: StmtBody) -> Abstain {
    match b {
        StmtBody::Error(_) => Abstain::Label(0),
        StmtBody::Calc(..) => Abstain::Calc,
        StmtBody::Dim(..) => Abstain::Calc,
        StmtBody::DoNext(_) => Abstain::Next,
        StmtBody::ComeFrom(_) => Abstain::ComeFrom,
        StmtBody::Resume(_) => Abstain::Resume,
        StmtBody::Forget(_) => Abstain::Forget,
        StmtBody::Ignore(_) => Abstain::Ignore,
        StmtBody::Remember(_) => Abstain::Remember,
        StmtBody::Stash(_) => Abstain::Stash,
        StmtBody::Retrieve(_) => Abstain::Retrieve,
        StmtBody::Abstain(..) => Abstain::Abstain,
        StmtBody::Reinstate(_) => Abstain::Reinstate,
        StmtBody::WriteIn(_) => Abstain::WriteIn,
        StmtBody::ReadOut(_) => Abstain::ReadOut,
        StmtBody::TryAgain => Abstain::TryAgain,
        StmtBody::GiveUp => Abstain::Label(0),
        StmtBody::Print(_) => Abstain::Label(0),
    }
}

/// The default properties: no label, line zero, always executed.
pub open spec fn default_props() -> StmtProps {
    StmtProps { srcline: 0, onthewayto: 0, label: 0, chance: 100, polite: false, disabled: false }
}

impl Stmt {
    /// The ABSTAIN kind of the statement.
    pub fn stype(&self) -> (r: Abstain)
        ensures
            r == body_tag(self.body),
    {
        match self.body {
            StmtBody::Error(_) => Abstain::Label(0),
            StmtBody::Calc(..) => Abstain::Calc,
            StmtBody::Dim(..) => Abstain::Calc,
            StmtBody::DoNext(_) => Abstain::Next,
            StmtBody::ComeFrom(_) => Abstain::ComeFrom,
            StmtBody::Resume(_) => Abstain::Resume,
            StmtBody::Forget(_) => Abstain::Forget,
            StmtBody::Ignore(_) => Abstain::Ignore,
            StmtBody::Remember(_) => Abstain::Remember,
            StmtBody::Stash(_) => Abstain::Stash,
            StmtBody::Retrieve(_) => Abstain::Retrieve,
            StmtBody::Abstain(..) => Abstain::Abstain,
            StmtBody::Reinstate(_) => Abstain::Reinstate,
            StmtBody::WriteIn(_) => Abstain::WriteIn,
            StmtBody::ReadOut(_) => Abstain::ReadOut,
            StmtBody::TryAgain => Abstain::TryAgain,
            StmtBody::GiveUp => Abstain::Label(0),
            StmtBody::Print(_) => Abstain::Label(0),
        }
    }

    /// A statement with the given body and default metadata.
    pub fn new_with(body: StmtBody) -> (r: Stmt)
        ensures
            r.body == body,
            r.props == default_props(),
            r.comefrom.is_none(),
            r.can_abstain,
    {
        Stmt { body: body, props: StmtProps::default(), comefrom: None, can_abstain: true }
    }
}

impl Default for StmtProps {
    fn default() -> (r: StmtProps)
        ensures
            r == default_props(),
    {
        StmtProps { label: 0, srcline: 0, onthewayto: 0, chance: 100, polite: false, disabled: false }
    }
}

/// The width of a variable, by its kind.
pub open spec fn var_vtype(v: Var) -> VType {
    match v {
        Var::I16(..) | Var::A16(..) => VType::I16,
        Var::I32(..) | Var::A32(..) => VType::I32,
    }
}

/// The width of an expression; 32 bits where the expression says nothing.
pub open spec fn expr_vtype(e: Expr) -> VType {
    match e {
        Expr::Num(t, _) => t,
        Expr::And(t, _) | Expr::Or(t, _) | Expr::Xor(t, _) => t,
        Expr::Select(t, _, _) => t,
        Expr::Var(v) => var_vtype(v),
        _ => VType::I32,
    }
}

/// The key that tells variables apart across all kinds.
pub open spec fn var_key(v: Var) -> (u8, usize) {
    match v {
        Var::I16(n) => (0, n),
        Var::I32(n) => (1, n),
        Var::A16(n, _) => (2, n),
        Var::A32(n, _) => (3, n),
    }
}

/// The same variable under another number, subscripts kept.
pub open spec fn var_renamed(v: Var, k: usize) -> Var {
    match v {
        Var::I16(_) => Var::I16(k),
        Var::I32(_) => Var::I32(k),
        Var::A16(_, s) => Var::A16(k, s),
        Var::A32(_, s) => Var::A32(k, s),
    }
}

impl Expr {
    /// The width of the expression.
    pub fn get_vtype(&self) -> (r: VType)
        ensures
            r == expr_vtype(*self),
    {
        match self {
            Expr::Num(vtype, _) => *vtype,
            Expr::And(vtype, _) | Expr::Or(vtype, _) | Expr::Xor(vtype, _) => *vtype,
            Expr::Select(vtype, _, _) => *vtype,
            Expr::Mingle(..) => VType::I32,
            Expr::RsAnd(..) | Expr::RsOr(..) | Expr::RsXor(..) | Expr::RsNot(..)
            | Expr::RsRshift(..) | Expr::RsLshift(..) | Expr::RsNotEqual(..)
            | Expr::RsMinus(..) | Expr::RsPlus(..) => VType::I32,
            Expr::Var(v) => v.get_vtype(),
        }
    }
}

impl Var {
    /// Whether this is an array named without subscripts (as DIM uses it).
    pub fn is_dim(&self) -> (r: bool)
        ensures
            r == match *self {
                Var::A16(_, s) => s@.len() == 0,
                Var::A32(_, s) => s@.len() == 0,
                _ => false,
            },
    {
        match self {
            Var::A16(_, v) => v.len() == 0,
            Var::A32(_, v) => v.len() == 0,
            _ => false,
        }
    }

    /// A key that identifies the variable among all kinds.
    pub fn unique(&self) -> (r: (u8, usize))
        ensures
            r == var_key(*self),
    {
        match self {
            Var::I16(n) => (0, *n),
            Var::I32(n) => (1, *n),
            Var::A16(n, _) => (2, *n),
            Var::A32(n, _) => (3, *n),
        }
    }

    /// Gives the variable a new number.
    pub fn rename(&mut self, new: usize)
        ensures
            *final(self) == var_renamed(*old(self), new),
    {
        match self {
            Var::I16(n) => {
                *n = new;
            },
            Var::I32(n) => {
                *n = new;
            },
            Var::A16(n, _) => {
                *n = new;
            },
            Var::A32(n, _) => {
                *n = new;
            },
        }
    }

    /// The width of the variable.
    pub fn get_vtype(&self) -> (r: VType)
        ensures
            r == var_vtype(*self),
    {
        match self {
            Var::I16(..) | Var::A16(..) => VType::I16,
            Var::I32(..) | Var::A32(..) => VType::I32,
        }
    }
}

impl VarInfo {
    /// Information that asks for every check.
    pub fn new() -> (r: VarInfo)
        ensures
            r.can_ignore && r.can_stash,
    {
        VarInfo { can_ignore: true, can_stash: true }
    }
}

/// Two expressions are the same tree, subscript lists compared element by
/// element.
pub open spec fn expr_eqv(a: Expr, b: Expr) -> bool
    decreases a, 0int,
{
    match (a, b) {
        (Expr::Num(t, n), Expr::Num(u, m)) => t == u && n == m,
        (Expr::Var(v), Expr::Var(w)) => var_eqv(v, w),
        (Expr::Mingle(a1, a2), Expr::Mingle(b1, b2)) => expr_eqv(*a1, *b1) && expr_eqv(*a2, *b2),
        (Expr::Select(t, a1, a2), Expr::Select(u, b1, b2)) => t == u && expr_eqv(*a1, *b1)
            && expr_eqv(*a2, *b2),
        (Expr::And(t, a1), Expr::And(u, b1)) => t == u && expr_eqv(*a1, *b1),
        (Expr::Or(t, a1), Expr::Or(u, b1)) => t == u && expr_eqv(*a1, *b1),
        (Expr::Xor(t, a1), Expr::Xor(u, b1)) => t == u && expr_eqv(*a1, *b1),
        (Expr::RsNot(a1), Expr::RsNot(b1)) => expr_eqv(*a1, *b1),
        (Expr::RsAnd(a1, a2), Expr::RsAnd(b1, b2)) => expr_eqv(*a1, *b1) && expr_eqv(*a2, *b2),
        (Expr::RsOr(a1, a2), Expr::RsOr(b1, b2)) => expr_eqv(*a1, *b1) && expr_eqv(*a2, *b2),
        (Expr::RsXor(a1, a2), Expr::RsXor(b1, b2)) => expr_eqv(*a1, *b1) && expr_eqv(*a2, *b2),
        (Expr::RsRshift(a1, a2), Expr::RsRshift(b1, b2)) => expr_eqv(*a1, *b1) && expr_eqv(
            *a2,
            *b2,
        ),
        (Expr::RsLshift(a1, a2), Expr::RsLshift(b1, b2)) => expr_eqv(*a1, *b1) && expr_eqv(
            *a2,
            *b2,
        ),
        (Expr::RsNotEqual(a1, a2), Expr::RsNotEqual(b1, b2)) => expr_eqv(*a1, *b1) && expr_eqv(
            *a2,
            *b2,
        ),
        (Expr::RsPlus(a1, a2), Expr::RsPlus(b1, b2)) => expr_eqv(*a1, *b1) && expr_eqv(*a2, *b2),
        (Expr::RsMinus(a1, a2), Expr::RsMinus(b1, b2)) => expr_eqv(*a1, *b1) && expr_eqv(
            *a2,
            *b2,
        ),
        _ => false,
    }
}

/// Two variable references are the same.
pub open spec fn var_eqv(a: Var, b: Var) -> bool
    decreases a, 0int,
{
    match (a, b) {
        (Var::I16(n), Var::I16(m)) => n == m,
        (Var::I32(n), Var::I32(m)) => n == m,
        (Var::A16(n, s), Var::A16(m, t)) => n == m && s@.len() == t@.len() && exprs_eqv_upto(
            s,
            t,
            s@.len() as int,
        ),
        (Var::A32(n, s), Var::A32(m, t)) => n == m && s@.len() == t@.len() && exprs_eqv_upto(
            s,
            t,
            s@.len() as int,
        ),
        _ => false,
    }
}

/// The first `k` elements of two lists of expressions are the same.
pub open spec fn exprs_eqv_upto(s: Vec<Expr>, t: Vec<Expr>, k: int) -> bool
    decreases s, k,
{
    if k <= 0 || k > s@.len() {
        true
    } else {
        expr_eqv(s[k - 1], t[k - 1]) && exprs_eqv_upto(s, t, k - 1)
    }
}

/// Two lists of expressions are the same, element by element.
pub open spec fn exprs_eqv(s: Vec<Expr>, t: Vec<Expr>) -> bool {
    s@.len() == t@.len() && exprs_eqv_upto(s, t, s@.len() as int)
}

impl Expr {
    /// Whether two expressions are the same tree.
    pub fn same_as(&self, o: &Expr) -> (r: bool)
        ensures
            r == expr_eqv(*self, *o),
        decreases self,
    {
        match (self, o) {
            (Expr::Num(t, n), Expr::Num(u, m)) => *t == *u && *n == *m,
            (Expr::Var(v), Expr::Var(w)) => v.same_as(w),
            (Expr::Mingle(a, b), Expr::Mingle(c, d)) => a.same_as(c) && b.same_as(d),
            (Expr::Select(t, a, b), Expr::Select(u, c, d)) => *t == *u && a.same_as(c) && b.same_as(d),
            (Expr::And(t, a), Expr::And(u, c)) => *t == *u && a.same_as(c),
            (Expr::Or(t, a), Expr::Or(u, c)) => *t == *u && a.same_as(c),
            (Expr::Xor(t, a), Expr::Xor(u, c)) => *t == *u && a.same_as(c),
            (Expr::RsNot(a), Expr::RsNot(c)) => a.same_as(c),
            (Expr::RsAnd(a, b), Expr::RsAnd(c, d)) => a.same_as(c) && b.same_as(d),
            (Expr::RsOr(a, b), Expr::RsOr(c, d)) => a.same_as(c) && b.same_as(d),
            (Expr::RsXor(a, b), Expr::RsXor(c, d)) => a.same_as(c) && b.same_as(d),
            (Expr::RsRshift(a, b), Expr::RsRshift(c, d)) => a.same_as(c) && b.same_as(d),
            (Expr::RsLshift(a, b), Expr::RsLshift(c, d)) => a.same_as(c) && b.same_as(d),
            (Expr::RsNotEqual(a, b), Expr::RsNotEqual(c, d)) => a.same_as(c) && b.same_as(d),
            (Expr::RsPlus(a, b), Expr::RsPlus(c, d)) => a.same_as(c) && b.same_as(d),
            (Expr::RsMinus(a, b), Expr::RsMinus(c, d)) => a.same_as(c) && b.same_as(d),
            _ => false,
        }
    }
}

impl Var {
    /// Whether two variable references are the same.
    pub fn same_as(&self, o: &Var) -> (r: bool)
        ensures
            r == var_eqv(*self, *o),
        decreases self,
    {
        match (self, o) {
            (Var::I16(n), Var::I16(m)) => *n == *m,
            (Var::I32(n), Var::I32(m)) => *n == *m,
            (Var::A16(n, s), Var::A16(m, t)) => *n == *m && same_exprs(s, t),
            (Var::A32(n, s), Var::A32(m, t)) => *n == *m && same_exprs(s, t),
            _ => false,
        }
    }
}

proof fn lemma_eqv_upto_prefix(s: Vec<Expr>, t: Vec<Expr>, j: int, k: int)
    requires
        0 <= j <= k <= s@.len(),
        exprs_eqv_upto(s, t, k),
    ensures
        exprs_eqv_upto(s, t, j),
    decreases k - j,
{
    if j < k {
        lemma_eqv_upto_prefix(s, t, j, k - 1);
    }
}

/// Whether two lists of expressions are the same.
pub fn same_exprs(v: &Vec<Expr>, w: &Vec<Expr>) -> (r: bool)
    ensures
        r == exprs_eqv(*v, *w),
    decreases v,
{
    if v.len() != w.len() {
        return false;
    }
    let mut i: usize = 0;
    while i < v.len()
        invariant
            i <= v.len(),
            v.len() == w.len(),
            exprs_eqv_upto(*v, *w, i as int),
        decreases v.len() - i,
    {
        proof {
            assert(decreases_to!(v => v[i as int]));
        }
        if !v[i].same_as(&w[i]) {
            proof {
                if exprs_eqv(*v, *w) {
                    lemma_eqv_upto_prefix(*v, *w, i + 1, v@.len() as int);
                }
            }
            return false;
        }
        i = i + 1;
    }
    true
}

} // verus!
