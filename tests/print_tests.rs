use rick::ast::{Abstain, ComeFrom, Expr, Program, Stmt, StmtBody, VType, Var};
use rick::err::{ErrCode, RtError};
use rick::print::{fmt_bylist, fmt_pluslist};
use std::collections::BTreeMap;

fn s(v: Vec<u8>) -> String {
    String::from_utf8(v).unwrap()
}

#[test]
fn expressions_as_text() {
    let m = Expr::Mingle(Box::new(Expr::Var(Var::I16(1))), Box::new(Expr::Var(Var::I32(2))));
    assert_eq!(s(m.text()), "(.1 $ :2)");
    let a = Expr::And(VType::I16, Box::new(Expr::Var(Var::A16(3, vec![Expr::Num(VType::I16, 1)]))));
    assert_eq!(s(a.text()), "&16 ,3 SUB #1");
    let x = Expr::Xor(VType::I32, Box::new(Expr::Num(VType::I32, 0xABCD)));
    assert_eq!(s(x.text()), "?32 #ABCD");
    let r = Expr::RsRshift(Box::new(Expr::Var(Var::A32(1, vec![]))), Box::new(Expr::Num(VType::I32, 8)));
    assert_eq!(s(r.text()), "(;1 >> #8)");
    assert_eq!(s(Expr::RsNot(Box::new(Expr::Num(VType::I16, 0))).text()), "!#0");
}

#[test]
fn statements_as_text() {
    let mut st = Stmt::new_with(StmtBody::Calc(Var::I16(1), Expr::Num(VType::I16, 255)));
    st.props.srcline = 7;
    st.props.label = 10;
    st.props.polite = true;
    st.props.chance = 50;
    assert_eq!(s(st.text()), "#007  (   10) PLEASE     %50 .1 <- #FF");
    let mut st = Stmt::new_with(StmtBody::DoNext(3));
    st.props.srcline = 1234;
    st.props.disabled = true;
    assert_eq!(s(st.text()), "#1234          DO     NOT (3) NEXT");
}

#[test]
fn bodies_as_text() {
    let e = StmtBody::Error(RtError { code: ErrCode::IE129, line: 3 });
    assert_eq!(s(e.text()), "* IE129");
    let a = StmtBody::Abstain(Some(Expr::Num(VType::I16, 2)), vec![Abstain::Label(5), Abstain::Calc]);
    assert_eq!(s(a.text()), "ABSTAIN #2 FROM (5) + CALCULATING");
    let r = StmtBody::Reinstate(vec![Abstain::ComeFrom, Abstain::TryAgain]);
    assert_eq!(s(r.text()), "REINSTATE COMING FROM + TRYING AGAIN");
    assert_eq!(s(StmtBody::ComeFrom(ComeFrom::Label(30)).text()), "COME FROM (30)");
    let d = StmtBody::Dim(Var::A16(1, vec![]), vec![Expr::Num(VType::I16, 2), Expr::Num(VType::I16, 3)]);
    assert_eq!(s(d.text()), ",1 <- #2 BY #3");
    let o = StmtBody::ReadOut(vec![Expr::Var(Var::I16(1)), Expr::Var(Var::A16(2, vec![]))]);
    assert_eq!(s(o.text()), "READ OUT .1 + ,2");
    assert_eq!(s(StmtBody::Print(vec![1, 2]).text()), "<PRINT>");
    assert_eq!(s(fmt_pluslist(&vec![Var::I16(1), Var::I32(2), Var::A32(3, vec![])])), ".1 + :2 + ;3");
    assert_eq!(s(fmt_bylist(&vec![])), "");
}

#[test]
fn program_listing() {
    let p = Program {
        stmts: vec![Stmt::new_with(StmtBody::TryAgain), Stmt::new_with(StmtBody::GiveUp)],
        labels: BTreeMap::new(),
        stmt_types: vec![],
        var_info: (vec![], vec![], vec![], vec![]),
        uses_complex_comefrom: false,
        added_syslib: false,
        added_floatlib: false,
        bugline: 2,
    };
    assert_eq!(s(p.text()), "#000          DO         TRY AGAIN\n#000          DO         GIVE UP\n");
}
