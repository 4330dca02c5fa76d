//! Rendering of programs as INTERCAL-like listings, for diagnostics and
//! debugging. The text is ASCII, returned as bytes.

use vstd::prelude::*;

use crate::ast::{Abstain, ComeFrom, Expr, Program, Stmt, StmtBody, VType, Var};
use crate::err::three_digits;

verus! {

pub open spec fn w_sub() -> Seq<u8> {
    seq![32u8, 83u8, 85u8, 66u8, 32u8]
}

pub open spec fn w_mingle() -> Seq<u8> {
    seq![32u8, 36u8, 32u8]
}

pub open spec fn w_select() -> Seq<u8> {
    seq![32u8, 126u8, 32u8]
}

pub open spec fn w_plus() -> Seq<u8> {
    seq![32u8, 43u8, 32u8]
}

pub open spec fn w_by() -> Seq<u8> {
    seq![32u8, 66u8, 89u8, 32u8]
}

pub open spec fn w_rsand() -> Seq<u8> {
    seq![32u8, 38u8, 32u8]
}

pub open spec fn w_rsor() -> Seq<u8> {
    seq![32u8, 124u8, 32u8]
}

pub open spec fn w_rsxor() -> Seq<u8> {
    seq![32u8, 94u8, 32u8]
}

pub open spec fn w_rshr() -> Seq<u8> {
    seq![32u8, 62u8, 62u8, 32u8]
}

pub open spec fn w_rshl() -> Seq<u8> {
    seq![32u8, 60u8, 60u8, 32u8]
}

pub open spec fn w_rsne() -> Seq<u8> {
    seq![32u8, 33u8, 61u8, 32u8]
}

pub open spec fn w_rsplus() -> Seq<u8> {
    seq![32u8, 43u8, 32u8]
}

pub open spec fn w_rsminus() -> Seq<u8> {
    seq![32u8, 45u8, 32u8]
}

pub open spec fn w_calculating() -> Seq<u8> {
    seq![67u8, 65u8, 76u8, 67u8, 85u8, 76u8, 65u8, 84u8, 73u8, 78u8, 71u8]
}

pub open spec fn w_nexting() -> Seq<u8> {
    seq![78u8, 69u8, 88u8, 84u8, 73u8, 78u8, 71u8]
}

pub open spec fn w_resuming() -> Seq<u8> {
    seq![82u8, 69u8, 83u8, 85u8, 77u8, 73u8, 78u8, 71u8]
}

pub open spec fn w_forgetting() -> Seq<u8> {
    seq![70u8, 79u8, 82u8, 71u8, 69u8, 84u8, 84u8, 73u8, 78u8, 71u8]
}

pub open spec fn w_ignoring() -> Seq<u8> {
    seq![73u8, 71u8, 78u8, 79u8, 82u8, 73u8, 78u8, 71u8]
}

pub open spec fn w_remembering() -> Seq<u8> {
    seq![82u8, 69u8, 77u8, 69u8, 77u8, 66u8, 69u8, 82u8, 73u8, 78u8, 71u8]
}

pub open spec fn w_stashing() -> Seq<u8> {
    seq![83u8, 84u8, 65u8, 83u8, 72u8, 73u8, 78u8, 71u8]
}

pub open spec fn w_retrieving() -> Seq<u8> {
    seq![82u8, 69u8, 84u8, 82u8, 73u8, 69u8, 86u8, 73u8, 78u8, 71u8]
}

pub open spec fn w_abstaining() -> Seq<u8> {
    seq![65u8, 66u8, 83u8, 84u8, 65u8, 73u8, 78u8, 73u8, 78u8, 71u8]
}

pub open spec fn w_reinstating() -> Seq<u8> {
    seq![82u8, 69u8, 73u8, 78u8, 83u8, 84u8, 65u8, 84u8, 73u8, 78u8, 71u8]
}

pub open spec fn w_comingfrom() -> Seq<u8> {
    seq![67u8, 79u8, 77u8, 73u8, 78u8, 71u8, 32u8, 70u8, 82u8, 79u8, 77u8]
}

pub open spec fn w_readingout() -> Seq<u8> {
    seq![82u8, 69u8, 65u8, 68u8, 73u8, 78u8, 71u8, 32u8, 79u8, 85u8, 84u8]
}

pub open spec fn w_writingin() -> Seq<u8> {
    seq![87u8, 82u8, 73u8, 84u8, 73u8, 78u8, 71u8, 32u8, 73u8, 78u8]
}

pub open spec fn w_tryingagain() -> Seq<u8> {
    seq![84u8, 82u8, 89u8, 73u8, 78u8, 71u8, 32u8, 65u8, 71u8, 65u8, 73u8, 78u8]
}

pub open spec fn w_errstar() -> Seq<u8> {
    seq![42u8, 32u8]
}

pub open spec fn w_gets() -> Seq<u8> {
    seq![32u8, 60u8, 45u8, 32u8]
}

pub open spec fn w_next() -> Seq<u8> {
    seq![41u8, 32u8, 78u8, 69u8, 88u8, 84u8]
}

pub open spec fn w_comefrom() -> Seq<u8> {
    seq![67u8, 79u8, 77u8, 69u8, 32u8, 70u8, 82u8, 79u8, 77u8, 32u8]
}

pub open spec fn w_resume() -> Seq<u8> {
    seq![82u8, 69u8, 83u8, 85u8, 77u8, 69u8, 32u8]
}

pub open spec fn w_forget() -> Seq<u8> {
    seq![70u8, 79u8, 82u8, 71u8, 69u8, 84u8, 32u8]
}

pub open spec fn w_ignore() -> Seq<u8> {
    seq![73u8, 71u8, 78u8, 79u8, 82u8, 69u8, 32u8]
}

pub open spec fn w_remember() -> Seq<u8> {
    seq![82u8, 69u8, 77u8, 69u8, 77u8, 66u8, 69u8, 82u8, 32u8]
}

pub open spec fn w_stash() -> Seq<u8> {
    seq![83u8, 84u8, 65u8, 83u8, 72u8, 32u8]
}

pub open spec fn w_retrieve() -> Seq<u8> {
    seq![82u8, 69u8, 84u8, 82u8, 73u8, 69u8, 86u8, 69u8, 32u8]
}

pub open spec fn w_abstainfrom() -> Seq<u8> {
    seq![65u8, 66u8, 83u8, 84u8, 65u8, 73u8, 78u8, 32u8, 70u8, 82u8, 79u8, 77u8, 32u8]
}

pub open spec fn w_abstain() -> Seq<u8> {
    seq![65u8, 66u8, 83u8, 84u8, 65u8, 73u8, 78u8, 32u8]
}

pub open spec fn w_from() -> Seq<u8> {
    seq![32u8, 70u8, 82u8, 79u8, 77u8, 32u8]
}

pub open spec fn w_reinstate() -> Seq<u8> {
    seq![82u8, 69u8, 73u8, 78u8, 83u8, 84u8, 65u8, 84u8, 69u8, 32u8]
}

pub open spec fn w_writein() -> Seq<u8> {
    seq![87u8, 82u8, 73u8, 84u8, 69u8, 32u8, 73u8, 78u8, 32u8]
}

pub open spec fn w_readout() -> Seq<u8> {
    seq![82u8, 69u8, 65u8, 68u8, 32u8, 79u8, 85u8, 84u8, 32u8]
}

pub open spec fn w_tryagain() -> Seq<u8> {
    seq![84u8, 82u8, 89u8, 32u8, 65u8, 71u8, 65u8, 73u8, 78u8]
}

pub open spec fn w_giveup() -> Seq<u8> {
    seq![71u8, 73u8, 86u8, 69u8, 32u8, 85u8, 80u8]
}

pub open spec fn w_print() -> Seq<u8> {
    seq![60u8, 80u8, 82u8, 73u8, 78u8, 84u8, 62u8]
}

pub open spec fn w_please() -> Seq<u8> {
    seq![80u8, 76u8, 69u8, 65u8, 83u8, 69u8, 32u8]
}

pub open spec fn w_do() -> Seq<u8> {
    seq![68u8, 79u8, 32u8, 32u8, 32u8, 32u8, 32u8]
}

pub open spec fn w_not() -> Seq<u8> {
    seq![78u8, 79u8, 84u8, 32u8]
}

pub open spec fn w_notblank() -> Seq<u8> {
    seq![32u8, 32u8, 32u8, 32u8]
}

pub open spec fn w_nolabel() -> Seq<u8> {
    seq![32u8, 32u8, 32u8, 32u8, 32u8, 32u8, 32u8, 32u8]
}

pub open spec fn w_afterline() -> Seq<u8> {
    seq![32u8, 32u8]
}

fn x_sub() -> (r: Vec<u8>)
    ensures
        r@ == w_sub(),
{
    let r: Vec<u8> = vec![32u8, 83u8, 85u8, 66u8, 32u8];
    proof {
        assert(r@ =~= w_sub());
    }
    r
}

fn x_mingle() -> (r: Vec<u8>)
    ensures
        r@ == w_mingle(),
{
    let r: Vec<u8> = vec![32u8, 36u8, 32u8];
    proof {
        assert(r@ =~= w_mingle());
    }
    r
}

fn x_select() -> (r: Vec<u8>)
    ensures
        r@ == w_select(),
{
    let r: Vec<u8> = vec![32u8, 126u8, 32u8];
    proof {
        assert(r@ =~= w_select());
    }
    r
}

fn x_plus() -> (r: Vec<u8>)
    ensures
        r@ == w_plus(),
{
    let r: Vec<u8> = vec![32u8, 43u8, 32u8];
    proof {
        assert(r@ =~= w_plus());
    }
    r
}

fn x_by() -> (r: Vec<u8>)
    ensures
        r@ == w_by(),
{
    let r: Vec<u8> = vec![32u8, 66u8, 89u8, 32u8];
    proof {
        assert(r@ =~= w_by());
    }
    r
}

fn x_rsand() -> (r: Vec<u8>)
    ensures
        r@ == w_rsand(),
{
    let r: Vec<u8> = vec![32u8, 38u8, 32u8];
    proof {
        assert(r@ =~= w_rsand());
    }
    r
}

fn x_rsor() -> (r: Vec<u8>)
    ensures
        r@ == w_rsor(),
{
    let r: Vec<u8> = vec![32u8, 124u8, 32u8];
    proof {
        assert(r@ =~= w_rsor());
    }
    r
}

fn x_rsxor() -> (r: Vec<u8>)
    ensures
        r@ == w_rsxor(),
{
    let r: Vec<u8> = vec![32u8, 94u8, 32u8];
    proof {
        assert(r@ =~= w_rsxor());
    }
    r
}

fn x_rshr() -> (r: Vec<u8>)
    ensures
        r@ == w_rshr(),
{
    let r: Vec<u8> = vec![32u8, 62u8, 62u8, 32u8];
    proof {
        assert(r@ =~= w_rshr());
    }
    r
}

fn x_rshl() -> (r: Vec<u8>)
    ensures
        r@ == w_rshl(),
{
    let r: Vec<u8> = vec![32u8, 60u8, 60u8, 32u8];
    proof {
        assert(r@ =~= w_rshl());
    }
    r
}

fn x_rsne() -> (r: Vec<u8>)
    ensures
        r@ == w_rsne(),
{
    let r: Vec<u8> = vec![32u8, 33u8, 61u8, 32u8];
    proof {
        assert(r@ =~= w_rsne());
    }
    r
}

fn x_rsplus() -> (r: Vec<u8>)
    ensures
        r@ == w_rsplus(),
{
    let r: Vec<u8> = vec![32u8, 43u8, 32u8];
    proof {
        assert(r@ =~= w_rsplus());
    }
    r
}

fn x_rsminus() -> (r: Vec<u8>)
    ensures
        r@ == w_rsminus(),
{
    let r: Vec<u8> = vec![32u8, 45u8, 32u8];
    proof {
        assert(r@ =~= w_rsminus());
    }
    r
}

fn x_calculating() -> (r: Vec<u8>)
    ensures
        r@ == w_calculating(),
{
    let r: Vec<u8> = vec![67u8, 65u8, 76u8, 67u8, 85u8, 76u8, 65u8, 84u8, 73u8, 78u8, 71u8];
    proof {
        assert(r@ =~= w_calculating());
    }
    r
}

fn x_nexting() -> (r: Vec<u8>)
    ensures
        r@ == w_nexting(),
{
    let r: Vec<u8> = vec![78u8, 69u8, 88u8, 84u8, 73u8, 78u8, 71u8];
    proof {
        assert(r@ =~= w_nexting());
    }
    r
}

fn x_resuming() -> (r: Vec<u8>)
    ensures
        r@ == w_resuming(),
{
    let r: Vec<u8> = vec![82u8, 69u8, 83u8, 85u8, 77u8, 73u8, 78u8, 71u8];
    proof {
        assert(r@ =~= w_resuming());
    }
    r
}

fn x_forgetting() -> (r: Vec<u8>)
    ensures
        r@ == w_forgetting(),
{
    let r: Vec<u8> = vec![70u8, 79u8, 82u8, 71u8, 69u8, 84u8, 84u8, 73u8, 78u8, 71u8];
    proof {
        assert(r@ =~= w_forgetting());
    }
    r
}

fn x_ignoring() -> (r: Vec<u8>)
    ensures
        r@ == w_ignoring(),
{
    let r: Vec<u8> = vec![73u8, 71u8, 78u8, 79u8, 82u8, 73u8, 78u8, 71u8];
    proof {
        assert(r@ =~= w_ignoring());
    }
    r
}

fn x_remembering() -> (r: Vec<u8>)
    ensures
        r@ == w_remembering(),
{
    let r: Vec<u8> = vec![82u8, 69u8, 77u8, 69u8, 77u8, 66u8, 69u8, 82u8, 73u8, 78u8, 71u8];
    proof {
        assert(r@ =~= w_remembering());
    }
    r
}

fn x_stashing() -> (r: Vec<u8>)
    ensures
        r@ == w_stashing(),
{
    let r: Vec<u8> = vec![83u8, 84u8, 65u8, 83u8, 72u8, 73u8, 78u8, 71u8];
    proof {
        assert(r@ =~= w_stashing());
    }
    r
}

fn x_retrieving() -> (r: Vec<u8>)
    ensures
        r@ == w_retrieving(),
{
    let r: Vec<u8> = vec![82u8, 69u8, 84u8, 82u8, 73u8, 69u8, 86u8, 73u8, 78u8, 71u8];
    proof {
        assert(r@ =~= w_retrieving());
    }
    r
}

fn x_abstaining() -> (r: Vec<u8>)
    ensures
        r@ == w_abstaining(),
{
    let r: Vec<u8> = vec![65u8, 66u8, 83u8, 84u8, 65u8, 73u8, 78u8, 73u8, 78u8, 71u8];
    proof {
        assert(r@ =~= w_abstaining());
    }
    r
}

fn x_reinstating() -> (r: Vec<u8>)
    ensures
        r@ == w_reinstating(),
{
    let r: Vec<u8> = vec![82u8, 69u8, 73u8, 78u8, 83u8, 84u8, 65u8, 84u8, 73u8, 78u8, 71u8];
    proof {
        assert(r@ =~= w_reinstating());
    }
    r
}

fn x_comingfrom() -> (r: Vec<u8>)
    ensures
        r@ == w_comingfrom(),
{
    let r: Vec<u8> = vec![67u8, 79u8, 77u8, 73u8, 78u8, 71u8, 32u8, 70u8, 82u8, 79u8, 77u8];
    proof {
        assert(r@ =~= w_comingfrom());
    }
    r
}

fn x_readingout() -> (r: Vec<u8>)
    ensures
        r@ == w_readingout(),
{
    let r: Vec<u8> = vec![82u8, 69u8, 65u8, 68u8, 73u8, 78u8, 71u8, 32u8, 79u8, 85u8, 84u8];
    proof {
        assert(r@ =~= w_readingout());
    }
    r
}

fn x_writingin() -> (r: Vec<u8>)
    ensures
        r@ == w_writingin(),
{
    let r: Vec<u8> = vec![87u8, 82u8, 73u8, 84u8, 73u8, 78u8, 71u8, 32u8, 73u8, 78u8];
    proof {
        assert(r@ =~= w_writingin());
    }
    r
}

fn x_tryingagain() -> (r: Vec<u8>)
    ensures
        r@ == w_tryingagain(),
{
    let r: Vec<u8> = vec![84u8, 82u8, 89u8, 73u8, 78u8, 71u8, 32u8, 65u8, 71u8, 65u8, 73u8, 78u8];
    proof {
        assert(r@ =~= w_tryingagain());
    }
    r
}

fn x_errstar() -> (r: Vec<u8>)
    ensures
        r@ == w_errstar(),
{
    let r: Vec<u8> = vec![42u8, 32u8];
    proof {
        assert(r@ =~= w_errstar());
    }
    r
}

fn x_gets() -> (r: Vec<u8>)
    ensures
        r@ == w_gets(),
{
    let r: Vec<u8> = vec![32u8, 60u8, 45u8, 32u8];
    proof {
        assert(r@ =~= w_gets());
    }
    r
}

fn x_next() -> (r: Vec<u8>)
    ensures
        r@ == w_next(),
{
    let r: Vec<u8> = vec![41u8, 32u8, 78u8, 69u8, 88u8, 84u8];
    proof {
        assert(r@ =~= w_next());
    }
    r
}

fn x_comefrom() -> (r: Vec<u8>)
    ensures
        r@ == w_comefrom(),
{
    let r: Vec<u8> = vec![67u8, 79u8, 77u8, 69u8, 32u8, 70u8, 82u8, 79u8, 77u8, 32u8];
    proof {
        assert(r@ =~= w_comefrom());
    }
    r
}

fn x_resume() -> (r: Vec<u8>)
    ensures
        r@ == w_resume(),
{
    let r: Vec<u8> = vec![82u8, 69u8, 83u8, 85u8, 77u8, 69u8, 32u8];
    proof {
        assert(r@ =~= w_resume());
    }
    r
}

fn x_forget() -> (r: Vec<u8>)
    ensures
        r@ == w_forget(),
{
    let r: Vec<u8> = vec![70u8, 79u8, 82u8, 71u8, 69u8, 84u8, 32u8];
    proof {
        assert(r@ =~= w_forget());
    }
    r
}

fn x_ignore() -> (r: Vec<u8>)
    ensures
        r@ == w_ignore(),
{
    let r: Vec<u8> = vec![73u8, 71u8, 78u8, 79u8, 82u8, 69u8, 32u8];
    proof {
        assert(r@ =~= w_ignore());
    }
    r
}

fn x_remember() -> (r: Vec<u8>)
    ensures
        r@ == w_remember(),
{
    let r: Vec<u8> = vec![82u8, 69u8, 77u8, 69u8, 77u8, 66u8, 69u8, 82u8, 32u8];
    proof {
        assert(r@ =~= w_remember());
    }
    r
}

fn x_stash() -> (r: Vec<u8>)
    ensures
        r@ == w_stash(),
{
    let r: Vec<u8> = vec![83u8, 84u8, 65u8, 83u8, 72u8, 32u8];
    proof {
        assert(r@ =~= w_stash());
    }
    r
}

fn x_retrieve() -> (r: Vec<u8>)
    ensures
        r@ == w_retrieve(),
{
    let r: Vec<u8> = vec![82u8, 69u8, 84u8, 82u8, 73u8, 69u8, 86u8, 69u8, 32u8];
    proof {
        assert(r@ =~= w_retrieve());
    }
    r
}

fn x_abstainfrom() -> (r: Vec<u8>)
    ensures
        r@ == w_abstainfrom(),
{
    let r: Vec<u8> = vec![65u8, 66u8, 83u8, 84u8, 65u8, 73u8, 78u8, 32u8, 70u8, 82u8, 79u8, 77u8, 32u8];
    proof {
        assert(r@ =~= w_abstainfrom());
    }
    r
}

fn x_abstain() -> (r: Vec<u8>)
    ensures
        r@ == w_abstain(),
{
    let r: Vec<u8> = vec![65u8, 66u8, 83u8, 84u8, 65u8, 73u8, 78u8, 32u8];
    proof {
        assert(r@ =~= w_abstain());
    }
    r
}

fn x_from() -> (r: Vec<u8>)
    ensures
        r@ == w_from(),
{
    let r: Vec<u8> = vec![32u8, 70u8, 82u8, 79u8, 77u8, 32u8];
    proof {
        assert(r@ =~= w_from());
    }
    r
}

fn x_reinstate() -> (r: Vec<u8>)
    ensures
        r@ == w_reinstate(),
{
    let r: Vec<u8> = vec![82u8, 69u8, 73u8, 78u8, 83u8, 84u8, 65u8, 84u8, 69u8, 32u8];
    proof {
        assert(r@ =~= w_reinstate());
    }
    r
}

fn x_writein() -> (r: Vec<u8>)
    ensures
        r@ == w_writein(),
{
    let r: Vec<u8> = vec![87u8, 82u8, 73u8, 84u8, 69u8, 32u8, 73u8, 78u8, 32u8];
    proof {
        assert(r@ =~= w_writein());
    }
    r
}

fn x_readout() -> (r: Vec<u8>)
    ensures
        r@ == w_readout(),
{
    let r: Vec<u8> = vec![82u8, 69u8, 65u8, 68u8, 32u8, 79u8, 85u8, 84u8, 32u8];
    proof {
        assert(r@ =~= w_readout());
    }
    r
}

fn x_tryagain() -> (r: Vec<u8>)
    ensures
        r@ == w_tryagain(),
{
    let r: Vec<u8> = vec![84u8, 82u8, 89u8, 32u8, 65u8, 71u8, 65u8, 73u8, 78u8];
    proof {
        assert(r@ =~= w_tryagain());
    }
    r
}

fn x_giveup() -> (r: Vec<u8>)
    ensures
        r@ == w_giveup(),
{
    let r: Vec<u8> = vec![71u8, 73u8, 86u8, 69u8, 32u8, 85u8, 80u8];
    proof {
        assert(r@ =~= w_giveup());
    }
    r
}

fn x_print() -> (r: Vec<u8>)
    ensures
        r@ == w_print(),
{
    let r: Vec<u8> = vec![60u8, 80u8, 82u8, 73u8, 78u8, 84u8, 62u8];
    proof {
        assert(r@ =~= w_print());
    }
    r
}

fn x_please() -> (r: Vec<u8>)
    ensures
        r@ == w_please(),
{
    let r: Vec<u8> = vec![80u8, 76u8, 69u8, 65u8, 83u8, 69u8, 32u8];
    proof {
        assert(r@ =~= w_please());
    }
    r
}

fn x_do() -> (r: Vec<u8>)
    ensures
        r@ == w_do(),
{
    let r: Vec<u8> = vec![68u8, 79u8, 32u8, 32u8, 32u8, 32u8, 32u8];
    proof {
        assert(r@ =~= w_do());
    }
    r
}

fn x_not() -> (r: Vec<u8>)
    ensures
        r@ == w_not(),
{
    let r: Vec<u8> = vec![78u8, 79u8, 84u8, 32u8];
    proof {
        assert(r@ =~= w_not());
    }
    r
}

fn x_notblank() -> (r: Vec<u8>)
    ensures
        r@ == w_notblank(),
{
    let r: Vec<u8> = vec![32u8, 32u8, 32u8, 32u8];
    proof {
        assert(r@ =~= w_notblank());
    }
    r
}

fn x_nolabel() -> (r: Vec<u8>)
    ensures
        r@ == w_nolabel(),
{
    let r: Vec<u8> = vec![32u8, 32u8, 32u8, 32u8, 32u8, 32u8, 32u8, 32u8];
    proof {
        assert(r@ =~= w_nolabel());
    }
    r
}

fn x_afterline() -> (r: Vec<u8>)
    ensures
        r@ == w_afterline(),
{
    let r: Vec<u8> = vec![32u8, 32u8];
    proof {
        assert(r@ =~= w_afterline());
    }
    r
}

/// The decimal digits of a number.
pub open spec fn dec(n: nat) -> Seq<u8>
    decreases n,
{
    if n < 10 {
        seq![(48 + n) as u8]
    } else {
        dec(n / 10).push((48 + n % 10) as u8)
    }
}

pub open spec fn hex_digit(d: nat) -> u8 {
    if d < 10 {
        (48 + d) as u8
    } else {
        (55 + d) as u8
    }
}

/// The upper-case hexadecimal digits of a number.
pub open spec fn hex(n: nat) -> Seq<u8>
    decreases n,
{
    if n < 16 {
        seq![hex_digit(n)]
    } else {
        hex(n / 16).push(hex_digit(n % 16))
    }
}

/// The text right-aligned to width `w` with fill byte `c`.
pub open spec fn pad(s: Seq<u8>, w: nat, c: u8) -> Seq<u8> {
    if s.len() >= w {
        s
    } else {
        Seq::new((w - s.len()) as nat, |_i: int| c) + s
    }
}

fn dec_exec(n: u64) -> (r: Vec<u8>)
    ensures
        r@ == dec(n as nat),
    decreases n,
{
    if n < 10 {
        let mut v: Vec<u8> = Vec::new();
        v.push(48u8 + n as u8);
        proof {
            assert(v@ =~= dec(n as nat));
        }
        v
    } else {
        let mut v = dec_exec(n / 10);
        v.push(48u8 + (n % 10) as u8);
        v
    }
}

fn hex_digit_exec(d: u32) -> (r: u8)
    requires
        d < 16,
    ensures
        r == hex_digit(d as nat),
{
    if d < 10 {
        48u8 + d as u8
    } else {
        55u8 + d as u8
    }
}

fn hex_exec(n: u32) -> (r: Vec<u8>)
    ensures
        r@ == hex(n as nat),
    decreases n,
{
    if n < 16 {
        let mut v: Vec<u8> = Vec::new();
        v.push(hex_digit_exec(n));
        proof {
            assert(v@ =~= hex(n as nat));
        }
        v
    } else {
        let mut v = hex_exec(n / 16);
        v.push(hex_digit_exec(n % 16));
        v
    }
}

fn pad_exec(s: Vec<u8>, w: usize, c: u8) -> (r: Vec<u8>)
    ensures
        r@ == pad(s@, w as nat, c),
{
    if s.len() >= w {
        return s;
    }
    let k = w - s.len();
    let mut r: Vec<u8> = Vec::new();
    let mut i: usize = 0;
    while i < k
        invariant
            i <= k,
            r@ == Seq::new(i as nat, |_i: int| c),
        decreases k - i,
    {
        r.push(c);
        i = i + 1;
        proof {
            assert(r@ =~= Seq::new(i as nat, |_i: int| c));
        }
    }
    let mut s = s;
    r.append(&mut s);
    r
}

pub open spec fn width_text(t: VType) -> Seq<u8> {
    if t == VType::I16 {
        seq![49u8, 54u8]
    } else {
        seq![51u8, 50u8]
    }
}

fn width_exec(t: VType) -> (r: Vec<u8>)
    ensures
        r@ == width_text(t),
{
    let r: Vec<u8> = if t == VType::I16 {
        vec![49u8, 54u8]
    } else {
        vec![51u8, 50u8]
    };
    proof {
        assert(r@ =~= width_text(t));
    }
    r
}

/// `(a op b)`.
pub open spec fn paren2(a: Seq<u8>, op: Seq<u8>, b: Seq<u8>) -> Seq<u8> {
    seq![40u8] + a + op + b + seq![41u8]
}

/// A variable: its sigil, its number, and ` SUB ` before each subscript.
pub open spec fn var_text(v: Var) -> Seq<u8>
    decreases v, 0int,
{
    match v {
        Var::I16(n) => seq![46u8] + dec(n as nat),
        Var::I32(n) => seq![58u8] + dec(n as nat),
        Var::A16(n, s) => seq![44u8] + dec(n as nat) + subs_text(s, s@.len() as int),
        Var::A32(n, s) => seq![59u8] + dec(n as nat) + subs_text(s, s@.len() as int),
    }
}

/// The first `k` subscripts, each after ` SUB `.
pub open spec fn subs_text(s: Vec<Expr>, k: int) -> Seq<u8>
    decreases s, k,
{
    if k <= 0 || k > s@.len() {
        Seq::empty()
    } else {
        subs_text(s, k - 1) + w_sub() + expr_text(s[k - 1])
    }
}

/// An expression: literals in hexadecimal after `#`, binary operators in
/// parentheses, unary ones with their width.
pub open spec fn expr_text(e: Expr) -> Seq<u8>
    decreases e, 0int,
{
    match e {
        Expr::Num(_, n) => seq![35u8] + hex(n as nat),
        Expr::Var(v) => var_text(v),
        Expr::Mingle(a, b) => paren2(expr_text(*a), w_mingle(), expr_text(*b)),
        Expr::Select(_, a, b) => paren2(expr_text(*a), w_select(), expr_text(*b)),
        Expr::And(t, a) => seq![38u8] + width_text(t) + seq![32u8] + expr_text(*a),
        Expr::Or(t, a) => seq![86u8] + width_text(t) + seq![32u8] + expr_text(*a),
        Expr::Xor(t, a) => seq![63u8] + width_text(t) + seq![32u8] + expr_text(*a),
        Expr::RsNot(a) => seq![33u8] + expr_text(*a),
        Expr::RsAnd(a, b) => paren2(expr_text(*a), w_rsand(), expr_text(*b)),
        Expr::RsOr(a, b) => paren2(expr_text(*a), w_rsor(), expr_text(*b)),
        Expr::RsXor(a, b) => paren2(expr_text(*a), w_rsxor(), expr_text(*b)),
        Expr::RsRshift(a, b) => paren2(expr_text(*a), w_rshr(), expr_text(*b)),
        Expr::RsLshift(a, b) => paren2(expr_text(*a), w_rshl(), expr_text(*b)),
        Expr::RsNotEqual(a, b) => paren2(expr_text(*a), w_rsne(), expr_text(*b)),
        Expr::RsPlus(a, b) => paren2(expr_text(*a), w_rsplus(), expr_text(*b)),
        Expr::RsMinus(a, b) => paren2(expr_text(*a), w_rsminus(), expr_text(*b)),
    }
}

fn paren2_exec(a: Vec<u8>, op: Vec<u8>, b: Vec<u8>) -> (r: Vec<u8>)
    ensures
        r@ == paren2(a@, op@, b@),
{
    let ghost ga = a@;
    let ghost gop = op@;
    let ghost gb = b@;
    let mut r: Vec<u8> = Vec::new();
    r.push(40u8);
    let mut a = a;
    let mut op = op;
    let mut b = b;
    r.append(&mut a);
    r.append(&mut op);
    r.append(&mut b);
    r.push(41u8);
    proof {
        assert(r@ =~= paren2(ga, gop, gb));
    }
    r
}

fn prefixed(c: u8, t: VType, a: Vec<u8>) -> (r: Vec<u8>)
    ensures
        r@ == seq![c] + width_text(t) + seq![32u8] + a@,
{
    let ghost ga = a@;
    let mut r: Vec<u8> = Vec::new();
    r.push(c);
    let mut w = width_exec(t);
    r.append(&mut w);
    r.push(32u8);
    let mut a = a;
    r.append(&mut a);
    proof {
        assert(r@ =~= seq![c] + width_text(t) + seq![32u8] + ga);
    }
    r
}

/// `a` followed by `b`.
fn cat(a: Vec<u8>, b: Vec<u8>) -> (r: Vec<u8>)
    ensures
        r@ == a@ + b@,
{
    let mut a = a;
    let mut b = b;
    a.append(&mut b);
    a
}

fn byte(c: u8) -> (r: Vec<u8>)
    ensures
        r@ == seq![c],
{
    let mut r: Vec<u8> = Vec::new();
    r.push(c);
    proof {
        assert(r@ =~= seq![c]);
    }
    r
}

impl Var {
    /// The variable as text.
    pub fn text(&self) -> (r: Vec<u8>)
        ensures
            r@ == var_text(*self),
        decreases self, 0int,
    {
        match self {
            Var::I16(n) => cat(byte(46u8), dec_exec(*n as u64)),
            Var::I32(n) => cat(byte(58u8), dec_exec(*n as u64)),
            Var::A16(n, s) => cat(cat(byte(44u8), dec_exec(*n as u64)), subs_exec(s)),
            Var::A32(n, s) => cat(cat(byte(59u8), dec_exec(*n as u64)), subs_exec(s)),
        }
    }
}

fn subs_exec(s: &Vec<Expr>) -> (r: Vec<u8>)
    ensures
        r@ == subs_text(*s, s@.len() as int),
    decreases s, s@.len(),
{
    let mut out: Vec<u8> = Vec::new();
    let mut i: usize = 0;
    while i < s.len()
        invariant
            i <= s@.len(),
            out@ == subs_text(*s, i as int),
        decreases s@.len() - i,
    {
        proof {
            assert(decreases_to!(s => s[i as int]));
        }
        let mut w = x_sub();
        out.append(&mut w);
        let mut t = s[i].text();
        out.append(&mut t);
        i = i + 1;
    }
    out
}

impl Expr {
    /// The expression as text.
    pub fn text(&self) -> (r: Vec<u8>)
        ensures
            r@ == expr_text(*self),
        decreases self, 0int,
    {
        match self {
            Expr::Num(_, n) => cat(byte(35u8), hex_exec(*n)),
            Expr::Var(v) => v.text(),
            Expr::Mingle(a, b) => paren2_exec(a.text(), x_mingle(), b.text()),
            Expr::Select(_, a, b) => paren2_exec(a.text(), x_select(), b.text()),
            Expr::And(t, a) => prefixed(38u8, *t, a.text()),
            Expr::Or(t, a) => prefixed(86u8, *t, a.text()),
            Expr::Xor(t, a) => prefixed(63u8, *t, a.text()),
            Expr::RsNot(a) => cat(byte(33u8), a.text()),
            Expr::RsAnd(a, b) => paren2_exec(a.text(), x_rsand(), b.text()),
            Expr::RsOr(a, b) => paren2_exec(a.text(), x_rsor(), b.text()),
            Expr::RsXor(a, b) => paren2_exec(a.text(), x_rsxor(), b.text()),
            Expr::RsRshift(a, b) => paren2_exec(a.text(), x_rshr(), b.text()),
            Expr::RsLshift(a, b) => paren2_exec(a.text(), x_rshl(), b.text()),
            Expr::RsNotEqual(a, b) => paren2_exec(a.text(), x_rsne(), b.text()),
            Expr::RsPlus(a, b) => paren2_exec(a.text(), x_rsplus(), b.text()),
            Expr::RsMinus(a, b) => paren2_exec(a.text(), x_rsminus(), b.text()),
        }
    }
}

/// A target of ABSTAIN or REINSTATE: a label in parentheses, or a gerund.
pub open spec fn abstain_text(a: Abstain) -> Seq<u8> {
    match a {
        Abstain::Label(n) => seq![40u8] + dec(n as nat) + seq![41u8],
        Abstain::Calc => w_calculating(),
        Abstain::Next => w_nexting(),
        Abstain::Resume => w_resuming(),
        Abstain::Forget => w_forgetting(),
        Abstain::Ignore => w_ignoring(),
        Abstain::Remember => w_remembering(),
        Abstain::Stash => w_stashing(),
        Abstain::Retrieve => w_retrieving(),
        Abstain::Abstain => w_abstaining(),
        Abstain::Reinstate => w_reinstating(),
        Abstain::ComeFrom => w_comingfrom(),
        Abstain::ReadOut => w_readingout(),
        Abstain::WriteIn => w_writingin(),
        Abstain::TryAgain => w_tryingagain(),
    }
}

/// The target of a COME FROM.
pub open spec fn come_from_text(c: ComeFrom) -> Seq<u8> {
    match c {
        ComeFrom::Label(n) => seq![40u8] + dec(n as nat) + seq![41u8],
        ComeFrom::Expr(e) => expr_text(e),
        ComeFrom::Gerund(g) => abstain_text(g),
    }
}

/// Variables joined by ` + `.
pub open spec fn plus_vars(vs: Seq<Var>) -> Seq<u8>
    decreases vs.len(),
{
    if vs.len() == 0 {
        Seq::empty()
    } else if vs.len() == 1 {
        var_text(vs[0])
    } else {
        plus_vars(vs.drop_last()) + w_plus() + var_text(vs.last())
    }
}

/// Expressions joined by `sep`.
pub open spec fn joined_exprs(es: Seq<Expr>, sep: Seq<u8>) -> Seq<u8>
    decreases es.len(),
{
    if es.len() == 0 {
        Seq::empty()
    } else if es.len() == 1 {
        expr_text(es[0])
    } else {
        joined_exprs(es.drop_last(), sep) + sep + expr_text(es.last())
    }
}

/// Targets joined by ` + `.
pub open spec fn plus_targets(ts: Seq<Abstain>) -> Seq<u8>
    decreases ts.len(),
{
    if ts.len() == 0 {
        Seq::empty()
    } else if ts.len() == 1 {
        abstain_text(ts[0])
    } else {
        plus_targets(ts.drop_last()) + w_plus() + abstain_text(ts.last())
    }
}

/// A statement body as text.
pub open spec fn body_text(b: StmtBody) -> Seq<u8> {
    match b {
        StmtBody::Error(e) => w_errstar() + seq![73u8, 69u8] + three_digits(e.code.number_spec() as nat),
        StmtBody::Calc(v, e) => var_text(v) + w_gets() + expr_text(e),
        StmtBody::Dim(v, es) => var_text(v) + w_gets() + joined_exprs(es@, w_by()),
        StmtBody::DoNext(l) => seq![40u8] + dec(l as nat) + w_next(),
        StmtBody::ComeFrom(c) => w_comefrom() + come_from_text(c),
        StmtBody::Resume(e) => w_resume() + expr_text(e),
        StmtBody::Forget(e) => w_forget() + expr_text(e),
        StmtBody::Ignore(vs) => w_ignore() + plus_vars(vs@),
        StmtBody::Remember(vs) => w_remember() + plus_vars(vs@),
        StmtBody::Stash(vs) => w_stash() + plus_vars(vs@),
        StmtBody::Retrieve(vs) => w_retrieve() + plus_vars(vs@),
        StmtBody::Abstain(None, ts) => w_abstainfrom() + plus_targets(ts@),
        StmtBody::Abstain(Some(e), ts) => w_abstain() + expr_text(e) + w_from() + plus_targets(ts@),
        StmtBody::Reinstate(ts) => w_reinstate() + plus_targets(ts@),
        StmtBody::WriteIn(vs) => w_writein() + plus_vars(vs@),
        StmtBody::ReadOut(es) => w_readout() + joined_exprs(es@, w_plus()),
        StmtBody::TryAgain => w_tryagain(),
        StmtBody::GiveUp => w_giveup(),
        StmtBody::Print(_) => w_print(),
    }
}

/// A statement as a listing line: `#` and the source line in three
/// digits, the label in a field of five, PLEASE or DO, NOT, the chance,
/// and the body.
pub open spec fn stmt_text(s: Stmt) -> Seq<u8> {
    seq![35u8] + pad(dec(s.props.srcline as nat), 3, 48u8) + w_afterline() + (if s.props.label > 0 {
        seq![40u8] + pad(dec(s.props.label as nat), 5, 32u8) + seq![41u8, 32u8]
    } else {
        w_nolabel()
    }) + (if s.props.polite {
        w_please()
    } else {
        w_do()
    }) + (if s.props.disabled {
        w_not()
    } else {
        w_notblank()
    }) + (if s.props.chance < 100 {
        seq![37u8] + dec(s.props.chance as nat) + seq![32u8]
    } else {
        Seq::empty()
    }) + body_text(s.body)
}

/// A program as a listing: each statement on a line of its own.
pub open spec fn program_text(ss: Seq<Stmt>) -> Seq<u8>
    decreases ss.len(),
{
    if ss.len() == 0 {
        Seq::empty()
    } else {
        program_text(ss.drop_last()) + stmt_text(ss.last()) + seq![10u8]
    }
}

impl Abstain {
    /// The target as text.
    pub fn text(&self) -> (r: Vec<u8>)
        ensures
            r@ == abstain_text(*self),
    {
        match self {
            Abstain::Label(n) => cat(cat(byte(40u8), dec_exec(*n as u64)), byte(41u8)),
            Abstain::Calc => x_calculating(),
            Abstain::Next => x_nexting(),
            Abstain::Resume => x_resuming(),
            Abstain::Forget => x_forgetting(),
            Abstain::Ignore => x_ignoring(),
            Abstain::Remember => x_remembering(),
            Abstain::Stash => x_stashing(),
            Abstain::Retrieve => x_retrieving(),
            Abstain::Abstain => x_abstaining(),
            Abstain::Reinstate => x_reinstating(),
            Abstain::ComeFrom => x_comingfrom(),
            Abstain::ReadOut => x_readingout(),
            Abstain::WriteIn => x_writingin(),
            Abstain::TryAgain => x_tryingagain(),
        }
    }
}

impl ComeFrom {
    /// The target as text.
    pub fn text(&self) -> (r: Vec<u8>)
        ensures
            r@ == come_from_text(*self),
    {
        match self {
            ComeFrom::Label(n) => cat(cat(byte(40u8), dec_exec(*n as u64)), byte(41u8)),
            ComeFrom::Expr(e) => e.text(),
            ComeFrom::Gerund(g) => g.text(),
        }
    }
}

/// Variables joined by ` + `.
pub fn fmt_pluslist(vs: &Vec<Var>) -> (r: Vec<u8>)
    ensures
        r@ == plus_vars(vs@),
{
    let mut out: Vec<u8> = Vec::new();
    let mut i: usize = 0;
    while i < vs.len()
        invariant
            i <= vs@.len(),
            out@ == plus_vars(vs@.subrange(0, i as int)),
        decreases vs@.len() - i,
    {
        proof {
            assert(vs@.subrange(0, i + 1).drop_last() =~= vs@.subrange(0, i as int));
        }
        if i > 0 {
            let mut w = x_plus();
            out.append(&mut w);
        }
        let mut t = vs[i].text();
        out.append(&mut t);
        i = i + 1;
        proof {
            assert(out@ =~= plus_vars(vs@.subrange(0, i as int)));
        }
    }
    proof {
        assert(vs@.subrange(0, vs@.len() as int) =~= vs@);
    }
    out
}

/// Expressions joined by `sep`.
fn join_exprs(es: &Vec<Expr>, sep: &Vec<u8>) -> (r: Vec<u8>)
    ensures
        r@ == joined_exprs(es@, sep@),
{
    let mut out: Vec<u8> = Vec::new();
    let mut i: usize = 0;
    while i < es.len()
        invariant
            i <= es@.len(),
            out@ == joined_exprs(es@.subrange(0, i as int), sep@),
        decreases es@.len() - i,
    {
        proof {
            assert(es@.subrange(0, i + 1).drop_last() =~= es@.subrange(0, i as int));
        }
        if i > 0 {
            let mut w = copy_bytes(sep);
            out.append(&mut w);
        }
        let mut t = es[i].text();
        out.append(&mut t);
        i = i + 1;
        proof {
            assert(out@ =~= joined_exprs(es@.subrange(0, i as int), sep@));
        }
    }
    proof {
        assert(es@.subrange(0, es@.len() as int) =~= es@);
    }
    out
}

fn copy_bytes(v: &Vec<u8>) -> (r: Vec<u8>)
    ensures
        r@ == v@,
{
    crate::store::copy_vec(v)
}

/// Expressions joined by ` BY `.
pub fn fmt_bylist(es: &Vec<Expr>) -> (r: Vec<u8>)
    ensures
        r@ == joined_exprs(es@, w_by()),
{
    join_exprs(es, &x_by())
}

fn join_targets(ts: &Vec<Abstain>) -> (r: Vec<u8>)
    ensures
        r@ == plus_targets(ts@),
{
    let mut out: Vec<u8> = Vec::new();
    let mut i: usize = 0;
    while i < ts.len()
        invariant
            i <= ts@.len(),
            out@ == plus_targets(ts@.subrange(0, i as int)),
        decreases ts@.len() - i,
    {
        proof {
            assert(ts@.subrange(0, i + 1).drop_last() =~= ts@.subrange(0, i as int));
        }
        if i > 0 {
            let mut w = x_plus();
            out.append(&mut w);
        }
        let mut t = ts[i].text();
        out.append(&mut t);
        i = i + 1;
        proof {
            assert(out@ =~= plus_targets(ts@.subrange(0, i as int)));
        }
    }
    proof {
        assert(ts@.subrange(0, ts@.len() as int) =~= ts@);
    }
    out
}

impl StmtBody {
    /// The body as text.
    pub fn text(&self) -> (r: Vec<u8>)
        ensures
            r@ == body_text(*self),
    {
        match self {
            StmtBody::Error(e) => cat(x_errstar(), e.short_string()),
            StmtBody::Calc(v, e) => cat(cat(v.text(), x_gets()), e.text()),
            StmtBody::Dim(v, es) => cat(cat(v.text(), x_gets()), fmt_bylist(es)),
            StmtBody::DoNext(l) => cat(cat(byte(40u8), dec_exec(*l as u64)), x_next()),
            StmtBody::ComeFrom(c) => cat(x_comefrom(), c.text()),
            StmtBody::Resume(e) => cat(x_resume(), e.text()),
            StmtBody::Forget(e) => cat(x_forget(), e.text()),
            StmtBody::Ignore(vs) => cat(x_ignore(), fmt_pluslist(vs)),
            StmtBody::Remember(vs) => cat(x_remember(), fmt_pluslist(vs)),
            StmtBody::Stash(vs) => cat(x_stash(), fmt_pluslist(vs)),
            StmtBody::Retrieve(vs) => cat(x_retrieve(), fmt_pluslist(vs)),
            StmtBody::Abstain(None, ts) => cat(x_abstainfrom(), join_targets(ts)),
            StmtBody::Abstain(Some(e), ts) => cat(cat(cat(x_abstain(), e.text()), x_from()), join_targets(ts)),
            StmtBody::Reinstate(ts) => cat(x_reinstate(), join_targets(ts)),
            StmtBody::WriteIn(vs) => cat(x_writein(), fmt_pluslist(vs)),
            StmtBody::ReadOut(es) => cat(x_readout(), join_exprs(es, &x_plus())),
            StmtBody::TryAgain => x_tryagain(),
            StmtBody::GiveUp => x_giveup(),
            StmtBody::Print(_) => x_print(),
        }
    }
}

impl Stmt {
    /// The statement as a listing line.
    pub fn text(&self) -> (r: Vec<u8>)
        ensures
            r@ == stmt_text(*self),
    {
        let mut out = cat(byte(35u8), pad_exec(dec_exec(self.props.srcline as u64), 3, 48u8));
        out = cat(out, x_afterline());
        if self.props.label > 0 {
            out = cat(out, cat(cat(byte(40u8), pad_exec(dec_exec(self.props.label as u64), 5, 32u8)), vec![41u8, 32u8]));
        } else {
            out = cat(out, x_nolabel());
        }
        out = cat(out, if self.props.polite {
            x_please()
        } else {
            x_do()
        });
        out = cat(out, if self.props.disabled {
            x_not()
        } else {
            x_notblank()
        });
        if self.props.chance < 100 {
            out = cat(out, cat(cat(byte(37u8), dec_exec(self.props.chance as u64)), byte(32u8)));
        }
        out = cat(out, self.body.text());
        proof {
            assert(out@ =~= stmt_text(*self));
        }
        out
    }
}

impl Program {
    /// The program as a listing, one statement per line.
    pub fn text(&self) -> (r: Vec<u8>)
        ensures
            r@ == program_text(self.stmts@),
    {
        let mut out: Vec<u8> = Vec::new();
        let mut i: usize = 0;
        while i < self.stmts.len()
            invariant
                i <= self.stmts@.len(),
                out@ == program_text(self.stmts@.subrange(0, i as int)),
            decreases self.stmts@.len() - i,
        {
            proof {
                assert(self.stmts@.subrange(0, i + 1).drop_last() =~= self.stmts@.subrange(0, i as int));
            }
            let mut t = self.stmts[i].text();
            out.append(&mut t);
            out.push(10u8);
            i = i + 1;
            proof {
                assert(out@ =~= program_text(self.stmts@.subrange(0, i as int)));
            }
        }
        proof {
            assert(self.stmts@.subrange(0, self.stmts@.len() as int) =~= self.stmts@);
        }
        out
    }
}

} // verus!
