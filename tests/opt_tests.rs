use std::collections::BTreeMap;

use rick::analyze::analyze;
use rick::ast::{Abstain, ComeFrom, Expr, Program, Stmt, StmtBody, VType, Var, VarInfo};
use rick::err::ErrCode;
use rick::eval::{Eval, Output, Rng};
use rick::opt::{fold, opt_expr, Optimizer, LOWER_FUEL};

fn stmt(body: StmtBody, label: u16) -> Stmt {
    let mut s = Stmt::new_with(body);
    s.props.label = label;
    s
}

fn program(stmts: Vec<Stmt>) -> Program {
    Program {
        stmts,
        labels: BTreeMap::new(),
        stmt_types: vec![],
        var_info: (vec![], vec![], vec![], vec![]),
        uses_complex_comefrom: false,
        added_syslib: false,
        added_floatlib: false,
        bugline: 0xFFFF,
    }
}

fn n16(n: u32) -> Box<Expr> {
    Box::new(Expr::Num(VType::I16, n))
}

fn n32(n: u32) -> Box<Expr> {
    Box::new(Expr::Num(VType::I32, n))
}

fn v1() -> Box<Expr> {
    Box::new(Expr::Var(Var::I16(1)))
}

fn v2() -> Box<Expr> {
    Box::new(Expr::Var(Var::I16(2)))
}

#[test]
fn folding_literals() {
    assert_eq!(fold(Expr::Mingle(n16(1), n16(0))), Expr::Num(VType::I32, 2));
    assert_eq!(fold(Expr::Select(VType::I16, n16(0b1010), n16(0b1110))), Expr::Num(VType::I16, 0b101));
    assert_eq!(fold(Expr::And(VType::I16, n16(3))), Expr::Num(VType::I16, 1));
    assert_eq!(fold(Expr::Xor(VType::I32, Box::new(Expr::Mingle(n16(0), n16(3))))), Expr::Num(VType::I32, 0x8000_0007));
    assert_eq!(fold(Expr::Mingle(v1(), n16(0))), Expr::Mingle(v1(), n16(0)));
    assert_eq!(fold(Expr::Mingle(n32(0x10000), n16(0))), Expr::Mingle(n32(0x10000), n16(0)));
}

#[test]
fn lowering_select_of_mingle() {
    let e = Expr::Select(VType::I32, Box::new(Expr::And(VType::I32, Box::new(Expr::Mingle(v1(), v2())))), n32(0x5555_5555));
    assert_eq!(opt_expr(e, LOWER_FUEL), Expr::RsAnd(v1(), v2()));
    let e = Expr::Select(VType::I32, Box::new(Expr::Xor(VType::I32, Box::new(Expr::Mingle(v1(), v2())))), n32(0x5555_5555));
    assert_eq!(opt_expr(e, LOWER_FUEL), Expr::RsXor(v1(), v2()));
}

#[test]
fn lowering_contiguous_masks() {
    assert_eq!(opt_expr(Expr::Select(VType::I32, v1(), n32(0xFF)), LOWER_FUEL), Expr::RsAnd(v1(), n32(0xFF)));
    assert_eq!(opt_expr(Expr::Select(VType::I32, v1(), n32(0xFF00_0000)), LOWER_FUEL), Expr::RsRshift(v1(), n32(24)));
    assert_eq!(
        opt_expr(Expr::Select(VType::I32, v1(), n32(0xFF00)), LOWER_FUEL),
        Expr::RsAnd(Box::new(Expr::RsRshift(v1(), n32(8))), n32(0xFF))
    );
    assert_eq!(opt_expr(Expr::Select(VType::I32, v1(), n32(0xFFFF_FFFF)), LOWER_FUEL), *v1());
    assert_eq!(opt_expr(Expr::Select(VType::I32, v1(), n32(0b101)), LOWER_FUEL), Expr::Select(VType::I32, v1(), n32(0b101)));
}

#[test]
fn lowering_and_idioms() {
    let sel = Expr::Select(VType::I32, v1(), v1());
    assert_eq!(opt_expr(Expr::RsAnd(Box::new(sel), n32(1)), LOWER_FUEL), Expr::RsNotEqual(v1(), n32(0)));
    let x = Expr::Xor(VType::I32, Box::new(Expr::Mingle(v1(), n16(1))));
    assert_eq!(
        opt_expr(Expr::RsAnd(Box::new(x), n32(3)), LOWER_FUEL),
        Expr::RsPlus(n32(1), Box::new(Expr::RsAnd(v1(), n32(1))))
    );
    let x = Expr::Xor(VType::I32, Box::new(Expr::Mingle(v1(), n16(2))));
    assert_eq!(
        opt_expr(Expr::RsAnd(Box::new(x), n32(3)), LOWER_FUEL),
        Expr::RsMinus(n32(2), Box::new(Expr::RsAnd(v1(), n32(1))))
    );
    assert_eq!(opt_expr(Expr::RsAnd(v2(), n32(0xFFFF_FFFF)), LOWER_FUEL), *v2());
    assert_eq!(opt_expr(Expr::Select(VType::I32, v1(), n32(0xFF)), 0), Expr::Select(VType::I32, v1(), n32(0xFF)));
}

#[test]
fn abstain_check_marks_targets() {
    let stmts = vec![
        stmt(StmtBody::Calc(Var::I16(1), *n16(1)), 1),
        stmt(StmtBody::Abstain(None, vec![Abstain::Label(1), Abstain::Next]), 0),
        stmt(StmtBody::DoNext(1), 0),
        stmt(StmtBody::Calc(Var::I16(2), *n16(1)), 0),
        stmt(StmtBody::GiveUp, 0),
    ];
    let p = Optimizer::opt_abstain_check(analyze(program(stmts)).unwrap());
    let marks: Vec<bool> = p.stmts.iter().map(|s| s.can_abstain).collect();
    assert_eq!(marks, vec![true, false, true, false, false]);
}

#[test]
fn var_check_marks_stashed_and_ignored() {
    let stmts = vec![
        stmt(StmtBody::Calc(Var::I16(3), *n16(1)), 0),
        stmt(StmtBody::Stash(vec![Var::I16(1), Var::A32(2, vec![])]), 0),
        stmt(StmtBody::Ignore(vec![Var::I16(2)]), 0),
        stmt(StmtBody::GiveUp, 0),
    ];
    let p = Optimizer::opt_var_check(analyze(program(stmts)).unwrap());
    let f = |v: &Vec<VarInfo>| v.iter().map(|i| (i.can_stash, i.can_ignore)).collect::<Vec<_>>();
    assert_eq!(f(&p.var_info.0), vec![(false, false), (true, false), (false, true), (false, false)]);
    assert_eq!(f(&p.var_info.3), vec![(false, false), (false, false), (true, false)]);
    assert!(p.var_info.1.is_empty());
}

fn rev8(c: u8) -> u8 {
    c.reverse_bits()
}

fn hello_world() -> Program {
    let text = b"Hello, world!\n";
    let mut stmts = vec![stmt(StmtBody::Dim(Var::A16(1, vec![]), vec![*n16(text.len() as u32)]), 0)];
    let mut prev: u8 = 0;
    for (i, c) in text.iter().enumerate() {
        let t = rev8(*c);
        let x = prev.wrapping_sub(t);
        prev = t;
        stmts.push(stmt(StmtBody::Calc(Var::A16(1, vec![*n16(i as u32 + 1)]), *n16(x as u32)), 0));
    }
    stmts.push(stmt(StmtBody::ReadOut(vec![Expr::Var(Var::A16(1, vec![]))]), 0));
    stmts.push(stmt(StmtBody::GiveUp, 0));
    analyze(program(stmts)).unwrap()
}

#[test]
fn hello_world_becomes_a_print() {
    let p = Optimizer::new(hello_world()).optimize();
    assert_eq!(p.stmts.len(), 2);
    assert_eq!(p.stmts[0].body, StmtBody::Print(b"Hello, world!\n".to_vec()));
    assert_eq!(p.stmts[1].body, StmtBody::GiveUp);
    let mut e = Eval::new(p, vec![], vec![]);
    let r = e.eval(&mut Rng::new(1), 100);
    assert!(r.is_ok());
    let bytes: Vec<u8> = e.state.output.iter().map(|o| match o {
        Output::Byte(b) => *b,
        Output::Number(_) => 0,
    }).collect();
    assert_eq!(bytes, b"Hello, world!\n".to_vec());
}

#[test]
fn const_output_refuses_input_and_numbers() {
    let p = analyze(program(vec![stmt(StmtBody::WriteIn(vec![Var::I16(1)]), 0), stmt(StmtBody::GiveUp, 0)])).unwrap();
    assert_eq!(Optimizer::opt_const_output(p).stmts.len(), 2);
    let p = analyze(program(vec![stmt(StmtBody::ReadOut(vec![*n16(3)]), 0), stmt(StmtBody::GiveUp, 0)])).unwrap();
    let q = Optimizer::opt_const_output(p);
    assert!(matches!(q.stmts[0].body, StmtBody::ReadOut(_)));
    let mut chancy = stmt(StmtBody::Calc(Var::I16(1), *n16(1)), 0);
    chancy.props.chance = 40;
    let p = analyze(program(vec![chancy, stmt(StmtBody::GiveUp, 0)])).unwrap();
    let q = Optimizer::opt_const_output(p);
    assert_eq!(q.stmts[0].props.chance, 40);
}

#[test]
fn analysis_builds_labels_and_binds_come_from() {
    let stmts = vec![
        stmt(StmtBody::Calc(Var::I16(1), *n16(1)), 10),
        stmt(StmtBody::ComeFrom(ComeFrom::Label(10)), 20),
        stmt(StmtBody::DoNext(99), 0),
        stmt(StmtBody::ComeFrom(ComeFrom::Gerund(Abstain::Calc)), 0),
        stmt(StmtBody::Calc(Var::A32(4, vec![Expr::Var(Var::I32(6))]), *n16(1)), 0),
    ];
    let p = analyze(program(stmts)).unwrap();
    assert_eq!(p.labels.get(&10), Some(&0));
    assert_eq!(p.labels.get(&20), Some(&1));
    assert_eq!(p.labels.len(), 2);
    assert_eq!(p.stmts[0].comefrom, Some(1));
    assert!(matches!(p.stmts[2].body, StmtBody::Error(e) if e.code == ErrCode::IE129));
    assert!(p.uses_complex_comefrom);
    assert_eq!(p.stmt_types[0], Abstain::Calc);
    assert_eq!(p.stmt_types[1], Abstain::ComeFrom);
    assert_eq!(p.stmt_types[2], Abstain::Label(0));
    assert_eq!(p.var_info.0.len(), 2);
    assert_eq!(p.var_info.1.len(), 7);
    assert_eq!(p.var_info.3.len(), 5);
    assert_eq!(p.var_info.2.len(), 0);
}

#[test]
fn analysis_refuses_duplicates() {
    let stmts = vec![stmt(StmtBody::GiveUp, 5), stmt(StmtBody::GiveUp, 5)];
    assert_eq!(analyze(program(stmts)).unwrap_err().code, ErrCode::IE182);
    let stmts = vec![
        stmt(StmtBody::GiveUp, 5),
        stmt(StmtBody::ComeFrom(ComeFrom::Label(5)), 0),
        stmt(StmtBody::ComeFrom(ComeFrom::Label(5)), 0),
    ];
    assert_eq!(analyze(program(stmts)).unwrap_err().code, ErrCode::IE555);
    let stmts = vec![stmt(StmtBody::ComeFrom(ComeFrom::Label(8)), 0)];
    let p = analyze(program(stmts)).unwrap();
    assert!(matches!(p.stmts[0].body, StmtBody::Error(e) if e.code == ErrCode::IE444));
}

#[test]
fn folding_reaches_subscripts() {
    let e = Expr::Var(Var::A16(1, vec![Expr::Mingle(n16(1), n16(2))]));
    assert_eq!(fold(e), Expr::Var(Var::A16(1, vec![Expr::Num(VType::I32, 6)])));
    let e = Expr::RsPlus(Box::new(Expr::And(VType::I16, n16(3))), v1());
    assert_eq!(fold(e), Expr::RsPlus(Box::new(Expr::Num(VType::I16, 1)), v1()));
    let target = Var::A32(2, vec![Expr::Select(VType::I16, n16(0b1010), n16(0b1110))]);
    let p = program(vec![stmt(StmtBody::Calc(target, *n16(1)), 0), stmt(StmtBody::GiveUp, 0)]);
    let p = Optimizer::opt_constant_fold(analyze(p).unwrap());
    assert_eq!(
        p.stmts[0].body,
        StmtBody::Calc(Var::A32(2, vec![Expr::Num(VType::I16, 0b101)]), Expr::Num(VType::I16, 1))
    );
}

#[test]
fn folding_select_of_mingle_gives_back_operands() {
    let mk = |mask: u32| {
        Expr::Select(VType::I32, Box::new(Expr::Mingle(n16(0x1234), n16(0xBEEF))), n32(mask))
    };
    assert_eq!(fold(mk(0xAAAA_AAAA)), Expr::Num(VType::I32, 0x1234));
    assert_eq!(fold(mk(0x5555_5555)), Expr::Num(VType::I32, 0xBEEF));
}

#[test]
fn lowering_changes_the_width_an_and_sees() {
    // .1 = 0x8001: a 16-bit select by #65535 keeps 0x8001 at 16 bits, whose
    // unary AND is 0x8000; lowered to a 32-bit AND mask, the unary AND
    // rotates bit 0 to bit 31 instead and gives 0.
    let e = Expr::And(VType::I16, Box::new(Expr::Select(VType::I16, v1(), n16(0xFFFF))));
    let lowered = opt_expr(e, LOWER_FUEL);
    assert_eq!(lowered, Expr::And(VType::I16, Box::new(Expr::RsAnd(v1(), n32(0xFFFF)))));
}

#[test]
fn lowering_changes_a_value_under_a_unary_and() {
    let p = analyze(program(vec![stmt(StmtBody::Calc(Var::I16(1), *n16(0x8001)), 0), stmt(StmtBody::GiveUp, 0)])).unwrap();
    let mut ev = Eval::new(p, vec![], vec![]);
    assert!(ev.eval(&mut Rng::new(1), 10).is_ok());
    let e = Expr::And(VType::I16, Box::new(Expr::Select(VType::I16, v1(), n16(0xFFFF))));
    let before = ev.state.eval_expr(&e).unwrap();
    let after = ev.state.eval_expr(&opt_expr(e, LOWER_FUEL)).unwrap();
    assert_eq!(rick::eval::val_to_u32(before), 0x8000);
    assert_eq!(rick::eval::val_to_u32(after), 0);
}
