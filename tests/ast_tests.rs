use rick::ast::{Abstain, ComeFrom, Expr, Stmt, StmtBody, StmtProps, VType, Var, VarInfo};

#[test]
fn statement_kinds() {
    assert_eq!(Stmt::new_with(StmtBody::Calc(Var::I16(1), Expr::Num(VType::I16, 1))).stype(), Abstain::Calc);
    assert_eq!(Stmt::new_with(StmtBody::Dim(Var::A16(1, vec![]), vec![])).stype(), Abstain::Calc);
    assert_eq!(Stmt::new_with(StmtBody::DoNext(3)).stype(), Abstain::Next);
    assert_eq!(Stmt::new_with(StmtBody::ComeFrom(ComeFrom::Label(3))).stype(), Abstain::ComeFrom);
    assert_eq!(Stmt::new_with(StmtBody::GiveUp).stype(), Abstain::Label(0));
    assert_eq!(Stmt::new_with(StmtBody::Print(vec![])).stype(), Abstain::Label(0));
    assert_eq!(Stmt::new_with(StmtBody::TryAgain).stype(), Abstain::TryAgain);
}

#[test]
fn default_metadata() {
    let s = Stmt::new_with(StmtBody::GiveUp);
    assert_eq!(s.props, StmtProps::default());
    assert_eq!(s.props.chance, 100);
    assert_eq!(s.props.label, 0);
    assert!(!s.props.polite && !s.props.disabled);
    assert_eq!(s.comefrom, None);
    assert!(s.can_abstain);
    let i = VarInfo::new();
    assert!(i.can_ignore && i.can_stash);
}

#[test]
fn variables() {
    assert!(Var::A16(1, vec![]).is_dim());
    assert!(!Var::A32(1, vec![Expr::Num(VType::I16, 1)]).is_dim());
    assert!(!Var::I16(1).is_dim());
    assert_eq!(Var::I16(4).unique(), (0, 4));
    assert_eq!(Var::I32(4).unique(), (1, 4));
    assert_eq!(Var::A16(4, vec![]).unique(), (2, 4));
    assert_eq!(Var::A32(4, vec![]).unique(), (3, 4));
    let mut v = Var::A32(4, vec![Expr::Num(VType::I16, 2)]);
    v.rename(9);
    assert_eq!(v, Var::A32(9, vec![Expr::Num(VType::I16, 2)]));
    assert_eq!(Var::A16(1, vec![]).get_vtype(), VType::I16);
    assert_eq!(Var::I32(1).get_vtype(), VType::I32);
}

#[test]
fn expression_widths() {
    assert_eq!(Expr::Num(VType::I16, 1).get_vtype(), VType::I16);
    assert_eq!(Expr::Var(Var::I32(1)).get_vtype(), VType::I32);
    let m = Expr::Mingle(Box::new(Expr::Num(VType::I16, 1)), Box::new(Expr::Num(VType::I16, 1)));
    assert_eq!(m.get_vtype(), VType::I32);
    let s = Expr::Select(VType::I16, Box::new(Expr::Var(Var::I16(1))), Box::new(Expr::Num(VType::I16, 1)));
    assert_eq!(s.get_vtype(), VType::I16);
    assert_eq!(Expr::And(VType::I16, Box::new(Expr::Var(Var::I16(1)))).get_vtype(), VType::I16);
    assert_eq!(Expr::RsNot(Box::new(Expr::Var(Var::I16(1)))).get_vtype(), VType::I32);
}

#[test]
fn structural_equality() {
    let a = Expr::Var(Var::A16(2, vec![Expr::Num(VType::I16, 1)]));
    let b = Expr::Var(Var::A16(2, vec![Expr::Num(VType::I16, 1)]));
    let c = Expr::Var(Var::A16(2, vec![Expr::Num(VType::I16, 2)]));
    assert!(a.same_as(&b));
    assert!(!a.same_as(&c));
}
