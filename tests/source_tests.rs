use rick::analyze::{analyze, politeness};
use rick::ast::{ComeFrom, Expr, StmtBody, VType, Var};
use rick::err::ErrCode;
use rick::eval::{Eval, Flow, Output, Rng, StmtRes};
use rick::parse::parse;

fn load(src: &str) -> Eval {
    let p = analyze(parse(src.as_bytes().to_vec(), 1)).unwrap();
    Eval::new(p, vec![], vec![])
}

#[test]
fn parses_statement_shapes() {
    let p = parse(b"(10) PLEASE NOT %40 .1 <- '#1$:2'~#3\nDO ,1 <- #2 BY #3\nDO (10) NEXT".to_vec(), 1);
    assert_eq!(p.stmts.len(), 3);
    let s = &p.stmts[0];
    assert_eq!((s.props.label, s.props.polite, s.props.disabled, s.props.chance), (10, true, true, 40));
    let sel = Expr::Select(
        VType::I32,
        Box::new(Expr::Mingle(Box::new(Expr::Num(VType::I16, 1)), Box::new(Expr::Var(Var::I32(2))))),
        Box::new(Expr::Num(VType::I16, 3)),
    );
    assert_eq!(s.body, StmtBody::Calc(Var::I16(1), sel));
    assert_eq!(p.stmts[1].body, StmtBody::Dim(Var::A16(1, vec![]), vec![Expr::Num(VType::I16, 2), Expr::Num(VType::I16, 3)]));
    assert_eq!(p.stmts[1].props.srcline, 2);
    assert_eq!(p.stmts[0].props.onthewayto, 2);
    assert_eq!(p.stmts[2].body, StmtBody::DoNext(10));
}

#[test]
fn malformed_statement_becomes_an_error() {
    let p = parse(b"DO .1 <- DO GIVE UP DO %101 .1 <- #1".to_vec(), 1);
    assert_eq!(p.stmts.len(), 3);
    assert!(matches!(p.stmts[0].body, StmtBody::Error(e) if e.code == ErrCode::IE000));
    assert_eq!(p.stmts[1].body, StmtBody::GiveUp);
    assert!(matches!(p.stmts[2].body, StmtBody::Error(_)));
}

#[test]
fn parses_come_from_and_abstain_forms() {
    let p = parse(b"DO COME FROM (5) DO COME FROM CALCULATING PLEASE ABSTAIN FROM (5) + NEXTING DO REINSTATE READING OUT DO ABSTAIN #2 FROM (5)".to_vec(), 1);
    assert_eq!(p.stmts[0].body, StmtBody::ComeFrom(ComeFrom::Label(5)));
    assert!(matches!(p.stmts[1].body, StmtBody::ComeFrom(ComeFrom::Gerund(_))));
    assert!(matches!(&p.stmts[2].body, StmtBody::Abstain(None, ts) if ts.len() == 2));
    assert!(matches!(&p.stmts[3].body, StmtBody::Reinstate(ts) if ts.len() == 1));
    assert!(matches!(&p.stmts[4].body, StmtBody::Abstain(Some(_), _)));
}

#[test]
fn scenario_dim_and_text_readout() {
    let mut e = load("DO ,1 <- #1 DO ,1 SUB #1 <- #255 DO READ OUT ,1 DO GIVE UP");
    assert!(e.eval(&mut Rng::new(1), 100).is_ok());
    assert_eq!(e.state.output, vec![Output::Byte(0x80)]);
}

#[test]
fn scenario_mingle_into_a_spot_overflows() {
    let mut e = load("DO .1 <- #65535 DO .2 <- #65535 DO .3 <- '.1$.2' DO READ OUT .3 DO GIVE UP");
    assert_eq!(e.eval(&mut Rng::new(1), 100).unwrap_err().code, ErrCode::IE275);
    let mut e = load("DO .1 <- #65535 DO .2 <- #65535 DO :3 <- '.1$.2' DO READ OUT :3 DO GIVE UP");
    assert!(e.eval(&mut Rng::new(1), 100).is_ok());
    assert_eq!(e.state.output, vec![Output::Number(0xFFFF_FFFF)]);
}

#[test]
fn scenario_come_from_label_after_give_up() {
    let mut e = load(" (10) DO .1 <- #1 (20) DO COME FROM (30) DO .1 <- #2 DO GIVE UP (30) DO .1 <- #3");
    assert_eq!(e.program.stmts[4].comefrom, Some(1));
    assert!(e.eval(&mut Rng::new(1), 100).is_ok());
    assert_eq!(e.state.spot[1].val, 2);
}

#[test]
fn scenario_chance_draw() {
    for seed in 1..20u64 {
        let mut e = load("DO %50 .1 <- #0 DO GIVE UP");
        let mut rng = Rng::new(seed);
        let draw = Rng::new(seed).next_percent();
        let f = e.step(&mut rng).unwrap();
        assert_eq!(f == Flow::Skipped, draw >= 50);
        assert_eq!(e.state.spot[1].val, 0);
        assert_eq!(e.step(&mut rng), Ok(Flow::Ran(StmtRes::End)));
    }
}

#[test]
fn scenario_abstain_reinstate_label() {
    let mut e = load("(1) DO .1 <- #1 DO ABSTAIN FROM (1) DO REINSTATE (1)");
    let mut rng = Rng::new(1);
    let r = e.eval(&mut rng, 100);
    assert_eq!(r.unwrap_err().code, ErrCode::IE663);
    assert!(!e.state.abstentions[0]);
    assert_eq!(e.state.spot[1].val, 1);
}

#[test]
fn politeness_is_checked() {
    let rude = parse(b"DO GIVE UP DO GIVE UP".to_vec(), 1);
    assert_eq!(politeness(&rude), Some(ErrCode::IE079));
    let fawning = parse(b"PLEASE GIVE UP PLEASE GIVE UP DO GIVE UP".to_vec(), 1);
    assert_eq!(politeness(&fawning), Some(ErrCode::IE099));
    let fine = parse(b"PLEASE GIVE UP DO GIVE UP DO GIVE UP".to_vec(), 1);
    assert_eq!(politeness(&fine), None);
}

#[test]
fn gerund_come_from_matches_at_run_time() {
    let mut e = load("DO STASH .1 DO GIVE UP DO COME FROM STASHING DO .2 <- #5 DO GIVE UP");
    assert!(e.program.uses_complex_comefrom);
    assert!(e.eval(&mut Rng::new(1), 100).is_ok());
    assert_eq!(e.state.spot[2].val, 5);
    assert_eq!(e.state.spot[1].stack.len(), 1);
}

#[test]
fn expression_come_from_matches_a_label() {
    let mut e = load("(10) DO .1 <- #1 DO GIVE UP DO COME FROM #10 DO .2 <- #6 DO GIVE UP");
    assert!(e.eval(&mut Rng::new(1), 100).is_ok());
    assert_eq!(e.state.spot[2].val, 6);
    let mut e = load("(10) DO .1 <- #1 DO GIVE UP DO NOT COME FROM #10 DO .2 <- #6 DO GIVE UP");
    assert!(e.eval(&mut Rng::new(1), 100).is_ok());
    assert_eq!(e.state.spot[2].val, 0);
}

#[test]
fn compiler_bug_line_raises_its_error() {
    let mut p = analyze(parse(b"DO .1 <- #1\nDO .1 <- #2\nDO GIVE UP".to_vec(), 1)).unwrap();
    p.bugline = 1;
    let mut e = Eval::new(p, vec![], vec![]);
    let r = e.eval(&mut Rng::new(1), 100);
    assert_eq!(r.unwrap_err(), rick::err::RtError { code: ErrCode::IE774, line: 2 });
    assert_eq!(e.state.spot[1].val, 1);
}
