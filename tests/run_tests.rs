use std::collections::BTreeMap;

use rick::analyze::analyze;
use rick::ast::{Abstain, ComeFrom, Expr, Program, Stmt, StmtBody, VType, Var};
use rick::err::{ErrCode, RtError};
use rick::eval::{Eval, Flow, Output, Rng, StmtRes};

fn stmt(body: StmtBody, label: u16, line: usize) -> Stmt {
    let mut s = Stmt::new_with(body);
    s.props.label = label;
    s.props.srcline = line;
    s
}

fn program(stmts: Vec<Stmt>) -> Program {
    Program {
        stmts,
        labels: BTreeMap::new(),
        stmt_types: vec![],
        var_info: (vec![], vec![], vec![], vec![]),
        uses_complex_comefrom: false,
        added_syslib: false,
        added_floatlib: false,
        bugline: 0xFFFF,
    }
}

fn num(n: u32) -> Expr {
    Expr::Num(VType::I16, n)
}

fn spot(n: usize) -> Expr {
    Expr::Var(Var::I16(n))
}

fn calc(v: usize, e: Expr) -> StmtBody {
    StmtBody::Calc(Var::I16(v), e)
}

fn run_with(stmts: Vec<Stmt>, numbers: Vec<u32>, bytes: Vec<u8>) -> (Eval, Result<Option<usize>, RtError>) {
    let p = analyze(program(stmts)).unwrap();
    let mut e = Eval::new(p, numbers, bytes);
    let mut rng = Rng::new(1);
    let r = e.eval(&mut rng, 100_000);
    (e, r)
}

fn run(stmts: Vec<Stmt>) -> (Eval, Result<Option<usize>, RtError>) {
    run_with(stmts, vec![], vec![])
}

fn code_of(r: Result<Option<usize>, RtError>) -> ErrCode {
    r.unwrap_err().code
}

#[test]
fn dim_subscript_and_text_readout() {
    let stmts = vec![
        stmt(StmtBody::Dim(Var::A16(1, vec![]), vec![num(1)]), 0, 1),
        stmt(StmtBody::Calc(Var::A16(1, vec![num(1)]), num(255)), 0, 2),
        stmt(StmtBody::ReadOut(vec![Expr::Var(Var::A16(1, vec![]))]), 0, 3),
        stmt(StmtBody::GiveUp, 0, 4),
    ];
    let (e, r) = run(stmts);
    assert_eq!(r, Ok(Some(4)));
    assert_eq!(e.state.tail[1].arr.elems, vec![255]);
    assert_eq!(e.state.output, vec![Output::Byte(0x80)]);
}

#[test]
fn mingle_of_two_full_words() {
    let stmts = vec![
        stmt(calc(1, num(65535)), 0, 1),
        stmt(calc(2, num(65535)), 0, 2),
        stmt(StmtBody::Calc(Var::I32(3), Expr::Mingle(Box::new(spot(1)), Box::new(spot(2)))), 0, 3),
        stmt(StmtBody::ReadOut(vec![Expr::Var(Var::I32(3))]), 0, 4),
        stmt(StmtBody::GiveUp, 0, 5),
    ];
    let (e, r) = run(stmts);
    assert!(r.is_ok());
    assert_eq!(e.state.output, vec![Output::Number(0xFFFF_FFFF)]);
}

#[test]
fn come_from_after_give_up_is_never_reached() {
    let stmts = vec![
        stmt(calc(1, num(1)), 10, 1),
        stmt(StmtBody::ComeFrom(ComeFrom::Label(30)), 20, 1),
        stmt(calc(1, num(2)), 0, 1),
        stmt(StmtBody::GiveUp, 0, 1),
        stmt(calc(1, num(3)), 30, 1),
    ];
    let (e, r) = run(stmts);
    assert!(r.is_ok());
    assert_eq!(e.program.stmts[4].comefrom, Some(1));
    assert_eq!(e.state.spot[1].val, 2);
}

#[test]
fn come_from_deflects_once_and_not_when_abstained() {
    // (30) .1 <- #3 runs first; the COME FROM sends control to it, then on.
    let stmts = vec![
        stmt(calc(1, num(3)), 30, 1),
        stmt(calc(1, num(9)), 0, 2),
        stmt(StmtBody::ComeFrom(ComeFrom::Label(30)), 0, 3),
        stmt(calc(2, num(7)), 0, 4),
        stmt(StmtBody::GiveUp, 0, 5),
    ];
    let (e, r) = run(stmts);
    assert_eq!(r, Ok(Some(4)));
    assert_eq!(e.state.spot[1].val, 3);
    assert_eq!(e.state.spot[2].val, 7);
    let mut abstained = stmt(StmtBody::ComeFrom(ComeFrom::Label(30)), 0, 3);
    abstained.props.disabled = true;
    let stmts = vec![
        stmt(calc(1, num(3)), 30, 1),
        stmt(calc(1, num(9)), 0, 2),
        abstained,
        stmt(StmtBody::GiveUp, 0, 4),
    ];
    let (e, r) = run(stmts);
    assert!(r.is_ok());
    assert_eq!(e.state.spot[1].val, 9);
}

#[test]
fn next_skips_come_from_and_resume_checks_it() {
    // (1) DO (5) NEXT, bound by a COME FROM (1): the NEXT goes to (5)
    // without deflection; RESUME #1 returns to line 0, whose COME FROM
    // then fires.
    let stmts = vec![
        stmt(StmtBody::DoNext(5), 1, 1),
        stmt(StmtBody::GiveUp, 0, 2),
        stmt(StmtBody::ComeFrom(ComeFrom::Label(1)), 0, 3),
        stmt(calc(2, num(8)), 0, 4),
        stmt(StmtBody::GiveUp, 0, 5),
        stmt(calc(1, num(4)), 5, 6),
        stmt(StmtBody::Resume(num(1)), 0, 7),
    ];
    let p = analyze(program(stmts)).unwrap();
    let mut e = Eval::new(p, vec![], vec![]);
    let mut rng = Rng::new(1);
    assert_eq!(e.step(&mut rng), Ok(Flow::Ran(StmtRes::Jump(5))));
    assert_eq!(e.pc, 5);
    assert_eq!(e.state.jumps, vec![0]);
    e.step(&mut rng).unwrap();
    assert_eq!(e.step(&mut rng), Ok(Flow::Ran(StmtRes::Back(0))));
    assert_eq!(e.pc, 2);
    assert!(e.state.jumps.is_empty());
    let r = e.eval(&mut rng, 100);
    assert!(r.is_ok());
    assert_eq!(e.state.spot[1].val, 4);
    assert_eq!(e.state.spot[2].val, 8);
}

#[test]
fn chance_is_drawn_once_per_statement() {
    for seed in [1u64, 2, 3, 4, 5, 6, 7, 8] {
        let mut e = Eval::new(analyze(program(vec![
            {
                let mut s = stmt(calc(1, num(0)), 0, 1);
                s.props.chance = 50;
                s
            },
            stmt(StmtBody::GiveUp, 0, 2),
        ])).unwrap(), vec![], vec![]);
        let mut rng = Rng::new(seed);
        let mut expect = Rng::new(seed);
        let draw = expect.next_percent();
        let f = e.step(&mut rng).unwrap();
        assert_eq!(rng.state, expect.state);
        assert_eq!(f == Flow::Skipped, draw >= 50);
        assert_eq!(e.state.spot[1].val, 0);
        let before = rng.state;
        assert_eq!(e.step(&mut rng), Ok(Flow::Ran(StmtRes::End)));
        assert_eq!(rng.state, before);
    }
}

#[test]
fn abstain_then_reinstate_restores_the_flag() {
    let stmts = vec![
        stmt(calc(1, num(1)), 1, 1),
        stmt(StmtBody::Abstain(None, vec![Abstain::Label(1)]), 0, 2),
        stmt(StmtBody::Reinstate(vec![Abstain::Label(1)]), 0, 3),
    ];
    let p = analyze(program(stmts)).unwrap();
    let mut e = Eval::new(p, vec![], vec![]);
    let mut rng = Rng::new(1);
    e.step(&mut rng).unwrap();
    e.step(&mut rng).unwrap();
    assert!(e.state.abstentions[0]);
    e.step(&mut rng).unwrap();
    assert!(!e.state.abstentions[0]);
    assert_eq!(e.step(&mut rng).unwrap_err(), RtError { code: ErrCode::IE663, line: 3 });
}

#[test]
fn try_again_reruns_a_reinstated_statement() {
    let stmts = vec![
        stmt(StmtBody::Stash(vec![Var::I16(1)]), 1, 1),
        stmt(StmtBody::Abstain(None, vec![Abstain::Label(1)]), 0, 2),
        stmt(StmtBody::Reinstate(vec![Abstain::Label(1)]), 0, 3),
        stmt(StmtBody::TryAgain, 0, 4),
    ];
    let p = analyze(program(stmts)).unwrap();
    let mut e = Eval::new(p, vec![], vec![]);
    let mut rng = Rng::new(1);
    for _ in 0..4 {
        e.step(&mut rng).unwrap();
    }
    assert_eq!(e.pc, 0);
    assert!(!e.state.abstentions[0]);
    assert_eq!(e.state.spot[1].stack.len(), 1);
    e.step(&mut rng).unwrap();
    assert_eq!(e.state.spot[1].stack.len(), 2);
    assert_eq!(e.state.stmt_ctr, 5);
    assert_eq!(e.state.jumps, vec![3]);
}

#[test]
fn gerund_abstain_hits_every_statement_of_the_kind() {
    let stmts = vec![
        stmt(StmtBody::Abstain(None, vec![Abstain::Calc]), 0, 1),
        stmt(calc(1, num(5)), 0, 2),
        stmt(calc(2, num(6)), 0, 3),
        stmt(StmtBody::GiveUp, 0, 4),
    ];
    let (e, r) = run(stmts);
    assert!(r.is_ok());
    assert_eq!(e.state.abstentions, vec![false, true, true, false]);
    assert_eq!(e.state.spot[1].val, 0);
}

#[test]
fn stash_retrieve_and_ignore() {
    let stmts = vec![
        stmt(calc(1, num(5)), 0, 1),
        stmt(StmtBody::Stash(vec![Var::I16(1)]), 0, 2),
        stmt(calc(1, num(6)), 0, 3),
        stmt(StmtBody::Ignore(vec![Var::I16(1)]), 0, 4),
        stmt(calc(1, num(7)), 0, 5),
        stmt(StmtBody::Remember(vec![Var::I16(1)]), 0, 6),
        stmt(StmtBody::Retrieve(vec![Var::I16(1)]), 0, 7),
        stmt(StmtBody::GiveUp, 0, 8),
    ];
    let (e, r) = run(stmts);
    assert!(r.is_ok());
    assert_eq!(e.state.spot[1].val, 5);
    assert!(e.state.spot[1].stack.is_empty());
    assert!(e.state.spot[1].rw);
}

#[test]
fn forget_drops_entries() {
    let stmts = vec![
        stmt(StmtBody::DoNext(2), 0, 1),
        stmt(StmtBody::GiveUp, 0, 2),
        stmt(StmtBody::Forget(num(1)), 2, 3),
        stmt(StmtBody::GiveUp, 0, 4),
    ];
    let (e, r) = run(stmts);
    assert_eq!(r, Ok(Some(3)));
    assert!(e.state.jumps.is_empty());
}

#[test]
fn write_in_reads_numbers_and_text() {
    let stmts = vec![
        stmt(StmtBody::Dim(Var::A16(1, vec![]), vec![num(2)]), 0, 1),
        stmt(StmtBody::WriteIn(vec![Var::I16(1), Var::A16(1, vec![])]), 0, 2),
        stmt(StmtBody::GiveUp, 0, 3),
    ];
    let (e, r) = run_with(stmts, vec![42], vec![b'A']);
    assert!(r.is_ok());
    assert_eq!(e.state.spot[1].val, 42);
    assert_eq!(e.state.tail[1].arr.elems, vec![65, 256]);
    assert_eq!(e.state.num_pos, 1);
}

#[test]
fn error_fell_off_the_edge() {
    let (_, r) = run(vec![stmt(calc(1, num(1)), 0, 1)]);
    assert_eq!(r.unwrap_err(), RtError { code: ErrCode::IE663, line: 1 });
}

#[test]
fn error_next_stack_overflow() {
    let (e, r) = run(vec![stmt(StmtBody::DoNext(1), 1, 9)]);
    assert_eq!(r.unwrap_err(), RtError { code: ErrCode::IE123, line: 9 });
    assert_eq!(e.state.jumps.len(), 80);
}

#[test]
fn error_unknown_next_label() {
    let (e, r) = run(vec![stmt(StmtBody::DoNext(7), 0, 4)]);
    assert_eq!(r.unwrap_err(), RtError { code: ErrCode::IE129, line: 4 });
    assert!(matches!(e.program.stmts[0].body, StmtBody::Error(_)));
}

#[test]
fn error_unknown_abstain_label() {
    let (_, r) = run(vec![stmt(StmtBody::Abstain(None, vec![Abstain::Label(3)]), 0, 2)]);
    assert_eq!(r.unwrap_err(), RtError { code: ErrCode::IE139, line: 2 });
}

#[test]
fn error_resume_zero_and_past_bottom() {
    assert_eq!(code_of(run(vec![stmt(StmtBody::Resume(num(0)), 0, 1)]).1), ErrCode::IE621);
    assert_eq!(code_of(run(vec![stmt(StmtBody::Resume(num(1)), 0, 1)]).1), ErrCode::IE632);
}

#[test]
fn error_retrieve_without_stash() {
    assert_eq!(code_of(run(vec![stmt(StmtBody::Retrieve(vec![Var::I16(1)]), 0, 1)]).1), ErrCode::IE436);
}

#[test]
fn error_too_wide_for_a_spot() {
    let stmts = vec![stmt(calc(1, Expr::Mingle(Box::new(num(256)), Box::new(num(0)))), 0, 1), stmt(StmtBody::GiveUp, 0, 2)];
    assert_eq!(code_of(run(stmts).1), ErrCode::IE275);
    let stmts = vec![stmt(calc(1, Expr::Mingle(Box::new(num(0)), Box::new(num(1)))), 0, 1), stmt(StmtBody::GiveUp, 0, 2)];
    assert!(run(stmts).1.is_ok());
}

#[test]
fn error_mingle_operand_too_wide() {
    let wide = Expr::Mingle(Box::new(num(256)), Box::new(num(0)));
    let stmts = vec![stmt(StmtBody::Calc(Var::I32(1), Expr::Mingle(Box::new(wide), Box::new(num(0)))), 0, 1)];
    assert_eq!(code_of(run(stmts).1), ErrCode::IE533);
}

#[test]
fn error_subscript_out_of_range() {
    let stmts = vec![
        stmt(StmtBody::Dim(Var::A16(1, vec![]), vec![num(2), num(3)]), 0, 1),
        stmt(StmtBody::Calc(Var::A16(1, vec![num(2), num(3)]), num(9)), 0, 2),
        stmt(StmtBody::Calc(Var::A16(1, vec![num(3), num(1)]), num(9)), 0, 3),
    ];
    let (e, r) = run(stmts);
    assert_eq!(r.unwrap_err(), RtError { code: ErrCode::IE241, line: 3 });
    let mut expect = vec![0u32; 6];
    expect[5] = 9;
    assert_eq!(e.state.tail[1].arr.elems, expect);
}

#[test]
fn error_no_input() {
    let stmts = vec![stmt(StmtBody::WriteIn(vec![Var::I16(1)]), 0, 1)];
    assert_eq!(code_of(run(stmts).1), ErrCode::IE562);
}

#[test]
fn error_statement_raises_its_own_error() {
    let e0 = RtError { code: ErrCode::IE000, line: 0 };
    let stmts = vec![stmt(StmtBody::Error(e0), 0, 6)];
    assert_eq!(run(stmts).1.unwrap_err(), RtError { code: ErrCode::IE000, line: 6 });
    let mut quiet = stmt(StmtBody::Error(e0), 0, 6);
    quiet.props.disabled = true;
    assert!(run(vec![quiet, stmt(StmtBody::GiveUp, 0, 7)]).1.is_ok());
}

#[test]
fn error_codes_and_messages() {
    let e = RtError { code: ErrCode::IE123, line: 0 };
    assert_eq!(e.short_string(), b"IE123".to_vec());
    assert_eq!(ErrCode::IE079.number(), 79);
    assert_eq!(ErrCode::IE663.message(), "PROGRAM FELL OFF THE EDGE");
    assert_eq!(ErrCode::IE123.message(), "PROGRAM HAS DISAPPEARED INTO THE BLACK LAGOON");
}

#[test]
fn abstain_by_zero_still_checks_labels() {
    let mut p = program(vec![
        stmt(StmtBody::Abstain(Some(num(0)), vec![Abstain::Label(9)]), 0, 3),
        stmt(StmtBody::GiveUp, 0, 4),
    ]);
    p.stmt_types = vec![Abstain::Abstain, Abstain::Label(0)];
    let mut e = Eval::new(p, vec![], vec![]);
    let r = e.eval(&mut Rng::new(1), 10);
    assert_eq!(r.unwrap_err(), RtError { code: ErrCode::IE139, line: 3 });
}

#[test]
fn next_pushes_in_the_main_loop() {
    let stmts = vec![
        stmt(StmtBody::DoNext(2), 0, 1),
        stmt(StmtBody::GiveUp, 0, 2),
        stmt(StmtBody::Resume(num(1)), 2, 3),
    ];
    let p = analyze(program(stmts)).unwrap();
    let mut e = Eval::new(p, vec![], vec![]);
    let mut rng = Rng::new(1);
    assert_eq!(e.step(&mut rng), Ok(Flow::Ran(StmtRes::Jump(2))));
    assert_eq!(e.state.jumps, vec![0]);
    assert_eq!(e.step(&mut rng), Ok(Flow::Ran(StmtRes::Back(0))));
    assert_eq!(e.pc, 1);
}
