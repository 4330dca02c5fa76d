//! The interpreter: variable stores, the NEXT stack, the abstention
//! bitmap and the input and output queues, driven one statement at a time.

use vstd::prelude::*;

use crate::ast::{Abstain, ComeFrom, Expr, Program, Stmt, StmtBody, VType, Var, var_key};
use crate::err::{ErrCode, RtError, new_err, with_line};
use crate::ops::{
    and16_spec,
    and32_spec,
    and_16,
    and_32,
    mingle,
    mingle_spec,
    or16_spec,
    or32_spec,
    or_16,
    or_32,
    select,
    select_spec,
    xor16_spec,
    xor32_spec,
    xor_16,
    xor_32,
};
use crate::store::{ArrBind, Array, Bind, array_get, subs_ok, flat_index};

verus! {

/// The deepest the NEXT stack may grow.
pub const MAX_NEXTS: usize = 80;

/// A value with its width.
#[derive(Clone, Copy, PartialEq, Eq, Structural, Debug)]
pub enum Val {
    I16(u16),
    I32(u32),
}

/// One item of program output: a byte of text, or a number for the
/// spelled-out number encoder.
#[derive(Clone, Copy, PartialEq, Eq, Structural, Debug)]
pub enum Output {
    Byte(u8),
    Number(u32),
}

/// What a statement asks of the main loop.
#[derive(Clone, Copy, PartialEq, Eq, Structural, Debug)]
pub enum StmtRes {
    /// Go on to the following statement (after the COME FROM check).
    Next,
    /// Push the current line on the NEXT stack and go to the given line,
    /// without the COME FROM check.
    Jump(usize),
    /// Go back to the given line, then do the COME FROM check there.
    Back(usize),
    /// Stop.
    End,
}

/// The mutable state of one run.
pub struct State {
    pub spot: Vec<Bind>,
    pub twospot: Vec<Bind>,
    pub tail: Vec<ArrBind>,
    pub hybrid: Vec<ArrBind>,
    /// The NEXT stack: logical lines of the NEXT statements taken.
    pub jumps: Vec<u16>,
    /// One flag per statement: set while the statement is abstained.
    pub abstentions: Vec<bool>,
    /// Last byte read, for the text input encoding.
    pub last_in: u8,
    /// Last value written, for the text output encoding.
    pub last_out: u8,
    /// Statements visited so far.
    pub stmt_ctr: usize,
    /// Numbers waiting to be read by WRITE IN of a scalar.
    pub numbers_in: Vec<u32>,
    /// How many of `numbers_in` have been read.
    pub num_pos: usize,
    /// Bytes waiting to be read by WRITE IN of an array.
    pub bytes_in: Vec<u8>,
    /// How many of `bytes_in` have been read.
    pub byte_pos: usize,
    /// Everything written so far.
    pub output: Vec<Output>,
}

pub open spec fn val_u32(v: Val) -> u32 {
    match v {
        Val::I16(x) => x as u32,
        Val::I32(x) => x,
    }
}

/// A literal's value: 16 bits wide where it is declared so and fits.
pub open spec fn num_val(t: VType, n: u32) -> Val {
    if t == VType::I16 && n <= 0xFFFF {
        Val::I16(n as u16)
    } else {
        Val::I32(n)
    }
}

pub open spec fn err(c: ErrCode) -> RtError {
    RtError { code: c, line: 0 }
}

/// The conventional binary operators that optimization introduces.
pub open spec fn rs_apply(e: Expr, x: u32, y: u32) -> u32 {
    match e {
        Expr::RsAnd(..) => x & y,
        Expr::RsOr(..) => x | y,
        Expr::RsXor(..) => x ^ y,
        Expr::RsRshift(..) => if y >= 32 { 0 } else { x >> y },
        Expr::RsLshift(..) => if y >= 32 { 0 } else { x << y },
        Expr::RsNotEqual(..) => if x != y { 1 } else { 0 },
        Expr::RsPlus(..) => ((x as int + y as int) % 0x1_0000_0000) as u32,
        _ => ((x as int + 0x1_0000_0000 - y as int) % 0x1_0000_0000) as u32,
    }
}

/// The value of an expression in a state, or the error its evaluation
/// raises; operands are evaluated left to right.
pub open spec fn eval_spec(st: State, e: Expr) -> Result<Val, RtError>
    decreases e, 0int,
{
    match e {
        Expr::Num(t, n) => Ok(num_val(t, n)),
        Expr::Var(v) => lookup_spec(st, v),
        Expr::Mingle(a, b) => match eval_spec(st, *a) {
            Err(x) => Err(x),
            Ok(x) => match eval_spec(st, *b) {
                Err(y) => Err(y),
                Ok(y) => if val_u32(x) <= 0xFFFF && val_u32(y) <= 0xFFFF {
                    Ok(Val::I32(mingle_spec(val_u32(x) as nat, val_u32(y) as nat) as u32))
                } else {
                    Err(err(ErrCode::IE533))
                },
            },
        },
        Expr::Select(t, a, b) => match eval_spec(st, *a) {
            Err(x) => Err(x),
            Ok(x) => match eval_spec(st, *b) {
                Err(y) => Err(y),
                Ok(y) => Ok(num_val(t, select_spec(val_u32(x) as nat, val_u32(y) as nat) as u32)),
            },
        },
        Expr::And(_, a) => match eval_spec(st, *a) {
            Err(x) => Err(x),
            Ok(Val::I16(x)) => Ok(Val::I16(and16_spec(x))),
            Ok(Val::I32(x)) => Ok(Val::I32(and32_spec(x))),
        },
        Expr::Or(_, a) => match eval_spec(st, *a) {
            Err(x) => Err(x),
            Ok(Val::I16(x)) => Ok(Val::I16(or16_spec(x))),
            Ok(Val::I32(x)) => Ok(Val::I32(or32_spec(x))),
        },
        Expr::Xor(_, a) => match eval_spec(st, *a) {
            Err(x) => Err(x),
            Ok(Val::I16(x)) => Ok(Val::I16(xor16_spec(x))),
            Ok(Val::I32(x)) => Ok(Val::I32(xor32_spec(x))),
        },
        Expr::RsNot(a) => match eval_spec(st, *a) {
            Err(x) => Err(x),
            Ok(x) => Ok(Val::I32(!val_u32(x))),
        },
        Expr::RsAnd(a, b) | Expr::RsOr(a, b) | Expr::RsXor(a, b) | Expr::RsRshift(a, b)
        | Expr::RsLshift(a, b) | Expr::RsNotEqual(a, b) | Expr::RsPlus(a, b)
        | Expr::RsMinus(a, b) => match eval_spec(st, *a) {
            Err(x) => Err(x),
            Ok(x) => match eval_spec(st, *b) {
                Err(y) => Err(y),
                Ok(y) => Ok(Val::I32(rs_apply(e, val_u32(x), val_u32(y)))),
            },
        },
    }
}

/// The value of a variable, or the error its subscripts raise.
pub open spec fn lookup_spec(st: State, v: Var) -> Result<Val, RtError>
    decreases v, 0int,
{
    match v {
        Var::I16(n) => if n < st.spot@.len() {
            Ok(Val::I16(st.spot@[n as int].val as u16))
        } else {
            Err(err(ErrCode::IE241))
        },
        Var::I32(n) => if n < st.twospot@.len() {
            Ok(Val::I32(st.twospot@[n as int].val))
        } else {
            Err(err(ErrCode::IE241))
        },
        Var::A16(n, s) => match subs_spec(st, s, s@.len() as int) {
            Err(x) => Err(x),
            Ok(idx) => if n < st.tail@.len() {
                match array_get(st.tail@[n as int].arr, idx) {
                    Ok(x) => Ok(Val::I16(x as u16)),
                    Err(x) => Err(x),
                }
            } else {
                Err(err(ErrCode::IE241))
            },
        },
        Var::A32(n, s) => match subs_spec(st, s, s@.len() as int) {
            Err(x) => Err(x),
            Ok(idx) => if n < st.hybrid@.len() {
                match array_get(st.hybrid@[n as int].arr, idx) {
                    Ok(x) => Ok(Val::I32(x)),
                    Err(x) => Err(x),
                }
            } else {
                Err(err(ErrCode::IE241))
            },
        },
    }
}

/// The values of the first `k` subscript expressions, left to right.
pub open spec fn subs_spec(st: State, s: Vec<Expr>, k: int) -> Result<Seq<u32>, RtError>
    decreases s, k,
{
    if k <= 0 || k > s@.len() {
        Ok(Seq::empty())
    } else {
        match subs_spec(st, s, k - 1) {
            Err(x) => Err(x),
            Ok(p) => match eval_spec(st, s[k - 1]) {
                Err(x) => Err(x),
                Ok(x) => Ok(p.push(val_u32(x))),
            },
        }
    }
}

/// The variables are the same in both states.
pub open spec fn same_vars(a: State, b: State) -> bool {
    &&& a.spot@ == b.spot@
    &&& a.twospot@ == b.twospot@
    &&& a.tail@ == b.tail@
    &&& a.hybrid@ == b.hybrid@
}

/// Everything but the variables is the same in both states.
pub open spec fn same_rest(a: State, b: State) -> bool {
    &&& a.jumps@ == b.jumps@
    &&& a.abstentions@ == b.abstentions@
    &&& a.last_in == b.last_in
    &&& a.last_out == b.last_out
    &&& a.stmt_ctr == b.stmt_ctr
    &&& a.numbers_in@ == b.numbers_in@
    &&& a.num_pos == b.num_pos
    &&& a.bytes_in@ == b.bytes_in@
    &&& a.byte_pos == b.byte_pos
    &&& a.output@ == b.output@
}

/// Assignment of `x` to scalar `n` of a store: refused when out of the
/// table, a no-op while IGNOREd, a width error when too wide.
pub open spec fn scalar_assigned(
    old: Seq<Bind>,
    new: Seq<Bind>,
    n: usize,
    x: u32,
    wide: bool,
    r: Result<(), RtError>,
) -> bool {
    if n >= old.len() {
        r == Err::<(), RtError>(err(ErrCode::IE241))
    } else if !old[n as int].rw {
        r == Ok::<(), RtError>(()) && new == old
    } else if !wide && x > 0xFFFF {
        r == Err::<(), RtError>(err(ErrCode::IE275))
    } else {
        r == Ok::<(), RtError>(()) && new == old.update(
            n as int,
            Bind { val: x, stack: old[n as int].stack, rw: true },
        )
    }
}

/// Assignment of `x` to element `s` of array `n` of a store.
pub open spec fn array_assigned(
    old: Seq<ArrBind>,
    new: Seq<ArrBind>,
    n: usize,
    s: Seq<u32>,
    x: u32,
    wide: bool,
    r: Result<(), RtError>,
) -> bool {
    if n >= old.len() {
        r == Err::<(), RtError>(err(ErrCode::IE241))
    } else if !old[n as int].rw {
        r == Ok::<(), RtError>(()) && new == old
    } else if !wide && x > 0xFFFF {
        r == Err::<(), RtError>(err(ErrCode::IE275))
    } else if !subs_ok(old[n as int].arr.dims@, s) {
        r == Err::<(), RtError>(err(ErrCode::IE241))
    } else {
        &&& r == Ok::<(), RtError>(())
        &&& new.len() == old.len()
        &&& forall|i: int| 0 <= i < old.len() && i != n ==> new[i] == old[i]
        &&& new[n as int].rw == old[n as int].rw
        &&& new[n as int].stack == old[n as int].stack
        &&& new[n as int].arr.dims == old[n as int].arr.dims
        &&& new[n as int].arr.elems@ == old[n as int].arr.elems@.update(
            flat_index(old[n as int].arr.dims@, s, s.len() as int),
            x,
        )
    }
}

/// Every array of a store, and every stashed copy, is well formed.
pub open spec fn arrays_wf(a: Seq<ArrBind>) -> bool {
    forall|i: int|
        0 <= i < a.len() ==> #[trigger] a[i].arr.wf() && forall|j: int|
            0 <= j < a[i].stack@.len() ==> #[trigger] a[i].stack@[j].wf()
}

/// Assignment of `x` to `v`: the variable tables change as
/// `scalar_assigned` or `array_assigned` say, after the subscripts are
/// evaluated; nothing else changes.
pub open spec fn assign_rel(o: State, n: State, v: Var, x: Val, r: Result<(), RtError>) -> bool {
    &&& same_rest(o, n)
    &&& r.is_err() ==> same_vars(o, n)
    &&& match v {
        Var::I16(k) => scalar_assigned(o.spot@, n.spot@, k, val_u32(x), false, r)
            && n.twospot@ == o.twospot@ && n.tail@ == o.tail@ && n.hybrid@ == o.hybrid@,
        Var::I32(k) => scalar_assigned(o.twospot@, n.twospot@, k, val_u32(x), true, r)
            && n.spot@ == o.spot@ && n.tail@ == o.tail@ && n.hybrid@ == o.hybrid@,
        Var::A16(k, s) => match subs_spec(o, s, s@.len() as int) {
            Err(e) => r == Err::<(), RtError>(e),
            Ok(idx) => array_assigned(o.tail@, n.tail@, k, idx, val_u32(x), false, r)
                && n.spot@ == o.spot@ && n.twospot@ == o.twospot@ && n.hybrid@ == o.hybrid@,
        },
        Var::A32(k, s) => match subs_spec(o, s, s@.len() as int) {
            Err(e) => r == Err::<(), RtError>(e),
            Ok(idx) => array_assigned(o.hybrid@, n.hybrid@, k, idx, val_u32(x), true, r)
                && n.spot@ == o.spot@ && n.twospot@ == o.twospot@ && n.tail@ == o.tail@,
        },
    }
}

/// IGNORE (`flag` false) or REMEMBER (`flag` true) of a list.
pub open spec fn rw_rel(o: State, n: State, vs: Seq<Var>, flag: bool, r: Result<(), RtError>) -> bool {
    &&& same_rest(o, n)
    &&& r.is_ok() == all_in_range(o, vs)
    &&& r.is_err() ==> r == Err::<(), RtError>(err(ErrCode::IE241))
    &&& r.is_ok() ==> {
        &&& rw_scalars(o.spot@, n.spot@, vs, 0, flag)
        &&& rw_scalars(o.twospot@, n.twospot@, vs, 1, flag)
        &&& rw_arrays(o.tail@, n.tail@, vs, 2, flag)
        &&& rw_arrays(o.hybrid@, n.hybrid@, vs, 3, flag)
        &&& same_rest(o, n)
    }
}

/// STASH of a list.
pub open spec fn stash_rel(o: State, n: State, vs: Seq<Var>, r: Result<(), RtError>) -> bool {
    &&& same_rest(o, n)
    &&& r.is_ok() == all_in_range(o, vs)
    &&& r.is_err() ==> r == Err::<(), RtError>(err(ErrCode::IE241))
    &&& r.is_ok() ==> {
        &&& stashed_scalars(o.spot@, n.spot@, vs, 0)
        &&& stashed_scalars(o.twospot@, n.twospot@, vs, 1)
        &&& stashed_arrays(o.tail@, n.tail@, vs, 2)
        &&& stashed_arrays(o.hybrid@, n.hybrid@, vs, 3)
        &&& same_rest(o, n)
    }
}

/// RETRIEVE of a list.
pub open spec fn retrieve_rel(o: State, n: State, vs: Seq<Var>, r: Result<(), RtError>) -> bool {
    &&& same_rest(o, n)
    &&& !all_in_range(o, vs) ==> r == Err::<(), RtError>(err(ErrCode::IE241))
    &&& all_in_range(o, vs) ==> (r.is_ok() <==> !over_retrieved(o, vs))
    &&& all_in_range(o, vs) && r.is_err() ==> r == Err::<(), RtError>(err(ErrCode::IE436))
    &&& r.is_err() ==> same_vars(o, n)
    &&& r.is_err() ==> r == Err::<(), RtError>(err(ErrCode::IE241)) || r == Err::<(), RtError>(
        err(ErrCode::IE436),
    )
    &&& r.is_ok() ==> {
        &&& retrieved_scalars(o.spot@, n.spot@, vs, 0)
        &&& retrieved_scalars(o.twospot@, n.twospot@, vs, 1)
        &&& retrieved_arrays(o.tail@, n.tail@, vs, 2)
        &&& retrieved_arrays(o.hybrid@, n.hybrid@, vs, 3)
        &&& same_rest(o, n)
    }
}

/// Everything but the abstention flags is the same in both states.
pub open spec fn same_but_abstentions(o: State, n: State) -> bool {
    &&& same_vars(o, n)
    &&& n.jumps@ == o.jumps@
    &&& n.output@ == o.output@
    &&& n.last_out == o.last_out
    &&& n.last_in == o.last_in
    &&& n.num_pos == o.num_pos
    &&& n.byte_pos == o.byte_pos
    &&& n.numbers_in@ == o.numbers_in@
    &&& n.bytes_in@ == o.bytes_in@
    &&& n.stmt_ctr == o.stmt_ctr
}

/// Everything but the NEXT stack is the same in both states.
pub open spec fn same_but_jumps(o: State, n: State) -> bool {
    &&& same_vars(o, n)
    &&& n.abstentions@ == o.abstentions@
    &&& n.output@ == o.output@
    &&& n.last_out == o.last_out
    &&& n.last_in == o.last_in
    &&& n.num_pos == o.num_pos
    &&& n.byte_pos == o.byte_pos
    &&& n.numbers_in@ == o.numbers_in@
    &&& n.bytes_in@ == o.bytes_in@
    &&& n.stmt_ctr == o.stmt_ctr
}

/// ABSTAIN (`flag` true) or REINSTATE (`flag` false) of a list of targets.
pub open spec fn abstain_rel(p: Program, o: State, n: State, ts: Seq<Abstain>, flag: bool, r: Result<(), RtError>) -> bool {
    &&& r.is_ok() == labels_known(p, ts)
    &&& r.is_err() ==> r == Err::<(), RtError>(err(ErrCode::IE139))
    &&& r.is_ok() ==> abstained(p, o.abstentions@, n.abstentions@, ts, flag)
    &&& n.abstentions@.len() == o.abstentions@.len()
    &&& same_but_abstentions(o, n)
}

/// Popping `k` entries off the NEXT stack.
pub open spec fn pop_rel(o: State, n: State, k: u32, strict: bool, r: Result<Option<u16>, RtError>) -> bool {
    &&& r.is_err() ==> n.jumps@ == o.jumps@
    &&& popped(o.jumps@, n.jumps@, k, strict, r)
    &&& same_but_jumps(o, n)
}

/// DIM of `v` with the dimensions `ds`.
pub open spec fn dim_rel(o: State, n: State, v: Var, ds: Vec<Expr>, r: Result<(), RtError>) -> bool {
    &&& same_rest(o, n)
    &&& r.is_err() ==> same_vars(o, n)
    &&& match subs_spec(o, ds, ds@.len() as int) {
        Err(x) => r == Err::<(), RtError>(x),
        Ok(d) => match v {
            Var::A16(k, _) => dimensioned(o.tail@, n.tail@, k, d, r) && n.spot@ == o.spot@
                && n.twospot@ == o.twospot@ && n.hybrid@ == o.hybrid@,
            Var::A32(k, _) => dimensioned(o.hybrid@, n.hybrid@, k, d, r) && n.spot@ == o.spot@
                && n.twospot@ == o.twospot@ && n.tail@ == o.tail@,
            _ => r == Err::<(), RtError>(err(ErrCode::IE241)),
        },
    }
}

impl State {
    pub open spec fn wf(&self) -> bool {
        &&& arrays_wf(self.tail@)
        &&& arrays_wf(self.hybrid@)
        &&& self.jumps@.len() <= MAX_NEXTS
        &&& self.num_pos <= self.numbers_in@.len()
        &&& self.byte_pos <= self.bytes_in@.len()
    }

    /// Evaluates an expression.
    pub fn eval_expr(&self, e: &Expr) -> (r: Result<Val, RtError>)
        requires
            self.wf(),
        ensures
            r == eval_spec(*self, *e),
        decreases e, 0int,
    {
        match e {
            Expr::Num(t, n) => {
                if *t == VType::I16 && *n <= 0xFFFF {
                    Ok(Val::I16(*n as u16))
                } else {
                    Ok(Val::I32(*n))
                }
            },
            Expr::Var(v) => self.lookup(v),
            Expr::Mingle(a, b) => {
                let x = self.eval_expr(a)?;
                let y = self.eval_expr(b)?;
                let xv = val_to_u32(x);
                let yv = val_to_u32(y);
                if xv <= 0xFFFF && yv <= 0xFFFF {
                    Ok(Val::I32(mingle(xv, yv)))
                } else {
                    Err(new_err(ErrCode::IE533))
                }
            },
            Expr::Select(t, a, b) => {
                let x = self.eval_expr(a)?;
                let y = self.eval_expr(b)?;
                let z = select(val_to_u32(x), val_to_u32(y));
                if *t == VType::I16 && z <= 0xFFFF {
                    Ok(Val::I16(z as u16))
                } else {
                    Ok(Val::I32(z))
                }
            },
            Expr::And(_, a) => match self.eval_expr(a)? {
                Val::I16(x) => Ok(Val::I16(and_16(x))),
                Val::I32(x) => Ok(Val::I32(and_32(x))),
            },
            Expr::Or(_, a) => match self.eval_expr(a)? {
                Val::I16(x) => Ok(Val::I16(or_16(x))),
                Val::I32(x) => Ok(Val::I32(or_32(x))),
            },
            Expr::Xor(_, a) => match self.eval_expr(a)? {
                Val::I16(x) => Ok(Val::I16(xor_16(x))),
                Val::I32(x) => Ok(Val::I32(xor_32(x))),
            },
            Expr::RsNot(a) => {
                let x = self.eval_expr(a)?;
                Ok(Val::I32(!val_to_u32(x)))
            },
            Expr::RsAnd(a, b) | Expr::RsOr(a, b) | Expr::RsXor(a, b) | Expr::RsRshift(a, b)
            | Expr::RsLshift(a, b) | Expr::RsNotEqual(a, b) | Expr::RsPlus(a, b)
            | Expr::RsMinus(a, b) => {
                let x = self.eval_expr(a)?;
                let y = self.eval_expr(b)?;
                Ok(Val::I32(apply_rs(e, val_to_u32(x), val_to_u32(y))))
            },
        }
    }

    /// Looks up the value of a variable.
    pub fn lookup(&self, v: &Var) -> (r: Result<Val, RtError>)
        requires
            self.wf(),
        ensures
            r == lookup_spec(*self, *v),
        decreases v, 0int,
    {
        match v {
            Var::I16(n) => {
                if *n < self.spot.len() {
                    Ok(Val::I16(self.spot[*n].val as u16))
                } else {
                    Err(new_err(ErrCode::IE241))
                }
            },
            Var::I32(n) => {
                if *n < self.twospot.len() {
                    Ok(Val::I32(self.twospot[*n].val))
                } else {
                    Err(new_err(ErrCode::IE241))
                }
            },
            Var::A16(n, s) => {
                let idx = self.eval_subs(s)?;
                if *n < self.tail.len() {
                    proof {
                        assert(arrays_wf(self.tail@));
                        assert(self.tail@[*n as int].arr.wf());
                    }
                    let x = self.tail[*n].arr.get(&idx)?;
                    Ok(Val::I16(x as u16))
                } else {
                    Err(new_err(ErrCode::IE241))
                }
            },
            Var::A32(n, s) => {
                let idx = self.eval_subs(s)?;
                if *n < self.hybrid.len() {
                    proof {
                        assert(self.hybrid@[*n as int].arr.wf());
                    }
                    let x = self.hybrid[*n].arr.get(&idx)?;
                    Ok(Val::I32(x))
                } else {
                    Err(new_err(ErrCode::IE241))
                }
            },
        }
    }

    /// Evaluates a list of subscripts, left to right.
    pub fn eval_subs(&self, s: &Vec<Expr>) -> (r: Result<Vec<u32>, RtError>)
        requires
            self.wf(),
        ensures
            match subs_spec(*self, *s, s@.len() as int) {
                Ok(p) => r.is_ok() && r.unwrap()@ == p,
                Err(x) => r == Err::<Vec<u32>, RtError>(x),
            },
        decreases s, s@.len(),
    {
        let mut out: Vec<u32> = Vec::new();
        let mut i: usize = 0;
        while i < s.len()
            invariant
                self.wf(),
                i <= s@.len(),
                subs_spec(*self, *s, i as int) == Ok::<Seq<u32>, RtError>(out@),
            decreases s@.len() - i,
        {
            proof {
                assert(decreases_to!(s => s[i as int]));
            }
            let x = self.eval_expr(&s[i]);
            match x {
                Err(e) => {
                    proof {
                        lemma_subs_err_persists(*self, *s, (i + 1) as int, s@.len() as int);
                    }
                    return Err(e);
                },
                Ok(v) => {
                    out.push(val_to_u32(v));
                },
            }
            i = i + 1;
        }
        Ok(out)
    }
}

/// Assigns to scalar `n` of a store.
pub fn assign_scalar(binds: &mut Vec<Bind>, n: usize, x: u32, wide: bool) -> (r: Result<(), RtError>)
    ensures
        scalar_assigned(old(binds)@, final(binds)@, n, x, wide, r),
        r.is_err() ==> final(binds)@ == old(binds)@,
{
    if n >= binds.len() {
        return Err(new_err(ErrCode::IE241));
    }
    if !binds[n].rw {
        return Ok(());
    }
    if !wide && x > 0xFFFF {
        return Err(new_err(ErrCode::IE275));
    }
    binds[n].val = x;
    Ok(())
}

/// Assigns to element `s` of array `n` of a store.
pub fn assign_array(binds: &mut Vec<ArrBind>, n: usize, s: &Vec<u32>, x: u32, wide: bool) -> (r:
    Result<(), RtError>)
    requires
        arrays_wf(old(binds)@),
    ensures
        array_assigned(old(binds)@, final(binds)@, n, s@, x, wide, r),
        r.is_err() ==> final(binds)@ == old(binds)@,
        arrays_wf(final(binds)@),
{
    if n >= binds.len() {
        return Err(new_err(ErrCode::IE241));
    }
    if !binds[n].rw {
        return Ok(());
    }
    if !wide && x > 0xFFFF {
        return Err(new_err(ErrCode::IE275));
    }
    proof {
        assert(binds@[n as int].arr.wf());
    }
    match binds[n].arr.index_of(s) {
        None => Err(new_err(ErrCode::IE241)),
        Some(i) => {
            binds[n].arr.elems.set(i, x);
            proof {
                assert forall|k: int| 0 <= k < binds@.len() implies #[trigger] binds@[k].arr.wf()
                    && forall|j: int|
                    0 <= j < binds@[k].stack@.len() ==> #[trigger] binds@[k].stack@[j].wf() by {
                    if k != n {
                        assert(binds@[k] == old(binds)@[k]);
                    }
                }
            }
            Ok(())
        },
    }
}

impl State {
    /// Assigns a value to a variable, evaluating its subscripts first.
    pub fn assign(&mut self, v: &Var, x: Val) -> (r: Result<(), RtError>)
        requires
            old(self).wf(),
        ensures
            final(self).wf(),
            assign_rel(*old(self), *final(self), *v, x, r),

    {
        match v {
            Var::I16(n) => assign_scalar(&mut self.spot, *n, val_to_u32(x), false),
            Var::I32(n) => assign_scalar(&mut self.twospot, *n, val_to_u32(x), true),
            Var::A16(n, s) => {
                let idx = self.eval_subs(s)?;
                assign_array(&mut self.tail, *n, &idx, val_to_u32(x), false)
            },
            Var::A32(n, s) => {
                let idx = self.eval_subs(s)?;
                assign_array(&mut self.hybrid, *n, &idx, val_to_u32(x), true)
            },
        }
    }
}

/// How many entries of the list name variable `n` of kind `k`
/// (0 spot, 1 twospot, 2 tail, 3 hybrid).
pub open spec fn count_key(vs: Seq<Var>, k: u8, n: int) -> nat
    decreases vs.len(),
{
    if vs.len() == 0 {
        0
    } else {
        count_key(vs.drop_last(), k, n) + if names_key(vs.last(), k, n) {
            1nat
        } else {
            0nat
        }
    }
}

/// The variable is number `n` of kind `k`.
pub open spec fn names_key(v: Var, k: u8, n: int) -> bool {
    var_key(v).0 == k && var_key(v).1 as int == n
}

/// The number of variables of kind `k` in a state.
pub open spec fn kind_len(st: State, k: u8) -> int {
    if k == 0 {
        st.spot@.len() as int
    } else if k == 1 {
        st.twospot@.len() as int
    } else if k == 2 {
        st.tail@.len() as int
    } else {
        st.hybrid@.len() as int
    }
}

/// Every variable of the list is within the state's tables.
pub open spec fn all_in_range(st: State, vs: Seq<Var>) -> bool {
    forall|i: int| 0 <= i < vs.len() ==> #[trigger] var_key(vs[i]).1 < kind_len(st, var_key(vs[i]).0)
}

/// A scalar table after setting the IGNORE flag of the listed variables.
pub open spec fn rw_scalars(old: Seq<Bind>, new: Seq<Bind>, vs: Seq<Var>, k: u8, flag: bool) -> bool {
    &&& new.len() == old.len()
    &&& forall|i: int|
        0 <= i < old.len() ==> #[trigger] new[i] == if count_key(vs, k, i) > 0 {
            Bind { val: old[i].val, stack: old[i].stack, rw: flag }
        } else {
            old[i]
        }
}

/// An array table after setting the IGNORE flag of the listed variables.
pub open spec fn rw_arrays(old: Seq<ArrBind>, new: Seq<ArrBind>, vs: Seq<Var>, k: u8, flag: bool) -> bool {
    &&& new.len() == old.len()
    &&& forall|i: int|
        0 <= i < old.len() ==> #[trigger] new[i] == if count_key(vs, k, i) > 0 {
            ArrBind { arr: old[i].arr, stack: old[i].stack, rw: flag }
        } else {
            old[i]
        }
}

proof fn lemma_count_step(vs: Seq<Var>, i: int, k: u8, n: int)
    requires
        0 <= i < vs.len(),
    ensures
        count_key(vs.subrange(0, i + 1), k, n) == count_key(vs.subrange(0, i), k, n) + if names_key(
            vs[i],
            k,
            n,
        ) {
            1nat
        } else {
            0nat
        },
{
    assert(vs.subrange(0, i + 1).drop_last() =~= vs.subrange(0, i));
}

proof fn lemma_rw_scalars_step(
    start: Seq<Bind>,
    prev: Seq<Bind>,
    new: Seq<Bind>,
    vs: Seq<Var>,
    i: int,
    k: u8,
    flag: bool,
)
    requires
        0 <= i < vs.len(),
        rw_scalars(start, prev, vs.subrange(0, i), k, flag),
        var_key(vs[i]).0 == k ==> var_key(vs[i]).1 < prev.len() && new == prev.update(
            var_key(vs[i]).1 as int,
            Bind {
                val: prev[var_key(vs[i]).1 as int].val,
                stack: prev[var_key(vs[i]).1 as int].stack,
                rw: flag,
            },
        ),
        var_key(vs[i]).0 != k ==> new == prev,
    ensures
        rw_scalars(start, new, vs.subrange(0, i + 1), k, flag),
{
    assert forall|j: int| 0 <= j < start.len() implies #[trigger] new[j] == if count_key(
        vs.subrange(0, i + 1),
        k,
        j,
    ) > 0 {
        Bind { val: start[j].val, stack: start[j].stack, rw: flag }
    } else {
        start[j]
    } by {
        lemma_count_step(vs, i, k, j);
        assert(prev[j] == if count_key(vs.subrange(0, i), k, j) > 0 {
            Bind { val: start[j].val, stack: start[j].stack, rw: flag }
        } else {
            start[j]
        });
        let key = var_key(vs[i]);
        if names_key(vs[i], k, j) {
            assert(new[j] == Bind { val: prev[j].val, stack: prev[j].stack, rw: flag });
        } else {
            if key.0 == k {
                assert(key.1 as int != j);
            }
            assert(new[j] == prev[j]);
        }
    }
}

proof fn lemma_rw_arrays_step(
    start: Seq<ArrBind>,
    prev: Seq<ArrBind>,
    new: Seq<ArrBind>,
    vs: Seq<Var>,
    i: int,
    k: u8,
    flag: bool,
)
    requires
        0 <= i < vs.len(),
        rw_arrays(start, prev, vs.subrange(0, i), k, flag),
        var_key(vs[i]).0 == k ==> var_key(vs[i]).1 < prev.len() && new == prev.update(
            var_key(vs[i]).1 as int,
            ArrBind {
                arr: prev[var_key(vs[i]).1 as int].arr,
                stack: prev[var_key(vs[i]).1 as int].stack,
                rw: flag,
            },
        ),
        var_key(vs[i]).0 != k ==> new == prev,
    ensures
        rw_arrays(start, new, vs.subrange(0, i + 1), k, flag),
{
    assert forall|j: int| 0 <= j < start.len() implies #[trigger] new[j] == if count_key(
        vs.subrange(0, i + 1),
        k,
        j,
    ) > 0 {
        ArrBind { arr: start[j].arr, stack: start[j].stack, rw: flag }
    } else {
        start[j]
    } by {
        lemma_count_step(vs, i, k, j);
        assert(prev[j] == if count_key(vs.subrange(0, i), k, j) > 0 {
            ArrBind { arr: start[j].arr, stack: start[j].stack, rw: flag }
        } else {
            start[j]
        });
        let key = var_key(vs[i]);
        if names_key(vs[i], k, j) {
            assert(new[j] == ArrBind { arr: prev[j].arr, stack: prev[j].stack, rw: flag });
        } else {
            if key.0 == k {
                assert(key.1 as int != j);
            }
            assert(new[j] == prev[j]);
        }
    }
}

impl State {
    /// Sets or clears the IGNORE flag of each listed variable (IGNORE and
    /// REMEMBER).
    pub fn set_rw_all(&mut self, vs: &Vec<Var>, flag: bool) -> (r: Result<(), RtError>)
        requires
            old(self).wf(),
        ensures
            final(self).wf(),
            rw_rel(*old(self), *final(self), vs@, flag, r),

    {
        let mut i: usize = 0;
        while i < vs.len()
            invariant
                i <= vs@.len(),
                *self == *old(self),
                self.wf(),
                forall|j: int| 0 <= j < i ==> #[trigger] var_key(vs@[j]).1 < kind_len(*self, var_key(vs@[j]).0),
            decreases vs@.len() - i,
        {
            let ok = match &vs[i] {
                Var::I16(n) => *n < self.spot.len(),
                Var::I32(n) => *n < self.twospot.len(),
                Var::A16(n, _) => *n < self.tail.len(),
                Var::A32(n, _) => *n < self.hybrid.len(),
            };
            if !ok {
                proof {
                    assert(!(var_key(vs@[i as int]).1 < kind_len(*self, var_key(vs@[i as int]).0)));
                }
                return Err(new_err(ErrCode::IE241));
            }
            i = i + 1;
        }
        let ghost start = *self;
        let mut i: usize = 0;
        while i < vs.len()
            invariant
                i <= vs@.len(),
                all_in_range(start, vs@),
                same_rest(start, *self),
                rw_scalars(start.spot@, self.spot@, vs@.subrange(0, i as int), 0, flag),
                rw_scalars(start.twospot@, self.twospot@, vs@.subrange(0, i as int), 1, flag),
                rw_arrays(start.tail@, self.tail@, vs@.subrange(0, i as int), 2, flag),
                rw_arrays(start.hybrid@, self.hybrid@, vs@.subrange(0, i as int), 3, flag),
                start.wf(),
            decreases vs@.len() - i,
        {
            proof {
                assert forall|k: u8, n: int| true implies count_key(vs@.subrange(0, i + 1), k, n)
                    == count_key(vs@.subrange(0, i as int), k, n) + if names_key(vs@[i as int], k, n) {
                    1nat
                } else {
                    0nat
                } by {
                    lemma_count_step(vs@, i as int, k, n);
                }
                assert(var_key(vs@[i as int]).1 < kind_len(start, var_key(vs@[i as int]).0));
            }
            let ghost prev = *self;
            match &vs[i] {
                Var::I16(n) => {
                    self.spot[*n].rw = flag;
                },
                Var::I32(n) => {
                    self.twospot[*n].rw = flag;
                },
                Var::A16(n, _) => {
                    self.tail[*n].rw = flag;
                },
                Var::A32(n, _) => {
                    self.hybrid[*n].rw = flag;
                },
            }
            proof {
                lemma_rw_scalars_step(start.spot@, prev.spot@, self.spot@, vs@, i as int, 0, flag);
                lemma_rw_scalars_step(start.twospot@, prev.twospot@, self.twospot@, vs@, i as int, 1, flag);
                lemma_rw_arrays_step(start.tail@, prev.tail@, self.tail@, vs@, i as int, 2, flag);
                lemma_rw_arrays_step(start.hybrid@, prev.hybrid@, self.hybrid@, vs@, i as int, 3, flag);
            }
            i = i + 1;
        }
        proof {
            assert(vs@.subrange(0, vs@.len() as int) =~= vs@);
            assert forall|k: int| 0 <= k < self.tail@.len() implies #[trigger] self.tail@[k].arr.wf()
                && forall|j: int|
                0 <= j < self.tail@[k].stack@.len() ==> #[trigger] self.tail@[k].stack@[j].wf() by {
                assert(start.tail@[k].arr.wf());
            }
            assert forall|k: int| 0 <= k < self.hybrid@.len() implies #[trigger] self.hybrid@[k].arr.wf()
                && forall|j: int|
                0 <= j < self.hybrid@[k].stack@.len() ==> #[trigger] self.hybrid@[k].stack@[j].wf() by {
                assert(start.hybrid@[k].arr.wf());
            }
        }
        Ok(())
    }
}

/// A scalar table after STASHing the listed variables: each gets its
/// current value pushed once per mention.
pub open spec fn stashed_scalars(old: Seq<Bind>, new: Seq<Bind>, vs: Seq<Var>, k: u8) -> bool {
    &&& new.len() == old.len()
    &&& forall|i: int|
        0 <= i < old.len() ==> {
            &&& #[trigger] new[i].val == old[i].val
            &&& new[i].rw == old[i].rw
            &&& new[i].stack@ == old[i].stack@ + Seq::new(count_key(vs, k, i), |_j: int| old[i].val)
        }
}

/// An array binding after `c` copies of its contents were stashed.
pub open spec fn array_stashed(o: ArrBind, n: ArrBind, c: nat) -> bool {
    &&& n.arr == o.arr
    &&& n.rw == o.rw
    &&& n.stack@.len() == o.stack@.len() + c
    &&& forall|j: int| 0 <= j < o.stack@.len() ==> n.stack@[j] == o.stack@[j]
    &&& forall|j: int|
        o.stack@.len() <= j < n.stack@.len() ==> n.stack@[j].dims@ == o.arr.dims@
            && n.stack@[j].elems@ == o.arr.elems@
}

/// An array table after STASHing the listed variables: each gets a copy
/// of its current contents pushed once per mention.
pub open spec fn stashed_arrays(old: Seq<ArrBind>, new: Seq<ArrBind>, vs: Seq<Var>, k: u8) -> bool {
    &&& new.len() == old.len()
    &&& forall|i: int|
        0 <= i < old.len() ==> #[trigger] array_stashed(old[i], new[i], count_key(vs, k, i))
}

proof fn lemma_stash_scalars_step(
    start: Seq<Bind>,
    prev: Seq<Bind>,
    new: Seq<Bind>,
    vs: Seq<Var>,
    i: int,
    k: u8,
)
    requires
        0 <= i < vs.len(),
        stashed_scalars(start, prev, vs.subrange(0, i), k),
        var_key(vs[i]).0 == k ==> var_key(vs[i]).1 < prev.len() && new == prev.update(
            var_key(vs[i]).1 as int,
            Bind {
                val: prev[var_key(vs[i]).1 as int].val,
                stack: new[var_key(vs[i]).1 as int].stack,
                rw: prev[var_key(vs[i]).1 as int].rw,
            },
        ) && new[var_key(vs[i]).1 as int].stack@ == prev[var_key(vs[i]).1 as int].stack@.push(
            prev[var_key(vs[i]).1 as int].val,
        ),
        var_key(vs[i]).0 != k ==> new == prev,
    ensures
        stashed_scalars(start, new, vs.subrange(0, i + 1), k),
{
    assert forall|j: int| 0 <= j < start.len() implies {
        &&& #[trigger] new[j].val == start[j].val
        &&& new[j].rw == start[j].rw
        &&& new[j].stack@ == start[j].stack@ + Seq::new(
            count_key(vs.subrange(0, i + 1), k, j),
            |_j: int| start[j].val,
        )
    } by {
        lemma_count_step(vs, i, k, j);
        let c = count_key(vs.subrange(0, i), k, j);
        assert(prev[j].val == start[j].val);
        assert(prev[j].stack@ == start[j].stack@ + Seq::new(c, |_j: int| start[j].val));
        if names_key(vs[i], k, j) {
            assert(new[j].stack@ == prev[j].stack@.push(prev[j].val));
            assert(start[j].stack@ + Seq::new(c + 1, |_j: int| start[j].val) =~= (start[j].stack@
                + Seq::new(c, |_j: int| start[j].val)).push(start[j].val));
        } else {
            if var_key(vs[i]).0 == k {
                assert(var_key(vs[i]).1 as int != j);
            }
            assert(new[j] == prev[j]);
        }
    }
}

proof fn lemma_stash_arrays_step(
    start: Seq<ArrBind>,
    prev: Seq<ArrBind>,
    new: Seq<ArrBind>,
    vs: Seq<Var>,
    i: int,
    k: u8,
)
    requires
        0 <= i < vs.len(),
        stashed_arrays(start, prev, vs.subrange(0, i), k),
        var_key(vs[i]).0 == k ==> {
            let n = var_key(vs[i]).1 as int;
            &&& n < prev.len()
            &&& new.len() == prev.len()
            &&& forall|j: int| 0 <= j < prev.len() && j != n ==> new[j] == prev[j]
            &&& new[n].arr == prev[n].arr
            &&& new[n].rw == prev[n].rw
            &&& new[n].stack@.len() == prev[n].stack@.len() + 1
            &&& forall|j: int| 0 <= j < prev[n].stack@.len() ==> new[n].stack@[j] == prev[n].stack@[j]
            &&& new[n].stack@.last().dims@ == prev[n].arr.dims@
            &&& new[n].stack@.last().elems@ == prev[n].arr.elems@
        },
        var_key(vs[i]).0 != k ==> new == prev,
    ensures
        stashed_arrays(start, new, vs.subrange(0, i + 1), k),
{
    assert forall|j: int| 0 <= j < start.len() implies #[trigger] array_stashed(
        start[j],
        new[j],
        count_key(vs.subrange(0, i + 1), k, j),
    ) by {
        lemma_count_step(vs, i, k, j);
        let c = count_key(vs.subrange(0, i), k, j);
        assert(array_stashed(start[j], prev[j], c));
        if names_key(vs[i], k, j) {
            assert(new[j].stack@.len() == prev[j].stack@.len() + 1);
            assert forall|m: int|
                start[j].stack@.len() <= m < new[j].stack@.len() implies new[j].stack@[m].dims@
                    == start[j].arr.dims@ && new[j].stack@[m].elems@ == start[j].arr.elems@ by {
                if m < prev[j].stack@.len() {
                    assert(new[j].stack@[m] == prev[j].stack@[m]);
                }
            }
        } else {
            if var_key(vs[i]).0 == k {
                assert(var_key(vs[i]).1 as int != j);
            }
            assert(new[j] == prev[j]);
        }
    }
}

impl State {
    /// Pushes the current value of each listed variable onto its stash
    /// (STASH).
    pub fn stash_all(&mut self, vs: &Vec<Var>) -> (r: Result<(), RtError>)
        requires
            old(self).wf(),
        ensures
            final(self).wf(),
            stash_rel(*old(self), *final(self), vs@, r),

    {
        let mut i: usize = 0;
        while i < vs.len()
            invariant
                i <= vs@.len(),
                *self == *old(self),
                self.wf(),
                forall|j: int| 0 <= j < i ==> #[trigger] var_key(vs@[j]).1 < kind_len(*self, var_key(vs@[j]).0),
            decreases vs@.len() - i,
        {
            let ok = match &vs[i] {
                Var::I16(n) => *n < self.spot.len(),
                Var::I32(n) => *n < self.twospot.len(),
                Var::A16(n, _) => *n < self.tail.len(),
                Var::A32(n, _) => *n < self.hybrid.len(),
            };
            if !ok {
                proof {
                    assert(!(var_key(vs@[i as int]).1 < kind_len(*self, var_key(vs@[i as int]).0)));
                }
                return Err(new_err(ErrCode::IE241));
            }
            i = i + 1;
        }
        let ghost start = *self;
        let mut i: usize = 0;
        proof {
            assert forall|k: u8| true implies stashed_scalars(start.spot@, self.spot@, vs@.subrange(0, 0), k)
                && stashed_scalars(start.twospot@, self.twospot@, vs@.subrange(0, 0), k)
                && stashed_arrays(start.tail@, self.tail@, vs@.subrange(0, 0), k)
                && stashed_arrays(start.hybrid@, self.hybrid@, vs@.subrange(0, 0), k) by {
                assert forall|j: int| 0 <= j < start.spot@.len() implies start.spot@[j].stack@ == start.spot@[j].stack@ + Seq::new(
                    count_key(vs@.subrange(0, 0), k, j), |_j: int| start.spot@[j].val) by {
                    assert(start.spot@[j].stack@ =~= start.spot@[j].stack@ + Seq::new(0, |_j: int| start.spot@[j].val));
                }
                assert forall|j: int| 0 <= j < start.twospot@.len() implies start.twospot@[j].stack@ == start.twospot@[j].stack@ + Seq::new(
                    count_key(vs@.subrange(0, 0), k, j), |_j: int| start.twospot@[j].val) by {
                    assert(start.twospot@[j].stack@ =~= start.twospot@[j].stack@ + Seq::new(0, |_j: int| start.twospot@[j].val));
                }
            }
        }
        while i < vs.len()
            invariant
                i <= vs@.len(),
                all_in_range(start, vs@),
                same_rest(start, *self),
                stashed_scalars(start.spot@, self.spot@, vs@.subrange(0, i as int), 0),
                stashed_scalars(start.twospot@, self.twospot@, vs@.subrange(0, i as int), 1),
                stashed_arrays(start.tail@, self.tail@, vs@.subrange(0, i as int), 2),
                stashed_arrays(start.hybrid@, self.hybrid@, vs@.subrange(0, i as int), 3),
                start.wf(),
                self.wf(),
            decreases vs@.len() - i,
        {
            proof {
                assert(var_key(vs@[i as int]).1 < kind_len(start, var_key(vs@[i as int]).0));
            }
            let ghost prev = *self;
            match &vs[i] {
                Var::I16(n) => {
                    let x = self.spot[*n].val;
                    self.spot[*n].stack.push(x);
                },
                Var::I32(n) => {
                    let x = self.twospot[*n].val;
                    self.twospot[*n].stack.push(x);
                },
                Var::A16(n, _) => {
                    let c = self.tail[*n].arr.copy();
                    self.tail[*n].stack.push(c);
                    proof {
                        assert(prev.tail@[*n as int].arr.wf());
                        assert(c.wf());
                        assert forall|k: int| 0 <= k < self.tail@.len() implies #[trigger] self.tail@[k].arr.wf()
                            && forall|j: int| 0 <= j < self.tail@[k].stack@.len() ==> #[trigger] self.tail@[k].stack@[j].wf() by {
                            assert(prev.tail@[k].arr.wf());
                            if k == *n as int {
                                assert forall|j: int| 0 <= j < self.tail@[k].stack@.len() implies #[trigger] self.tail@[k].stack@[j].wf() by {
                                    if j < prev.tail@[k].stack@.len() {
                                        assert(prev.tail@[k].stack@[j].wf());
                                    }
                                }
                            }
                        }
                    }
                },
                Var::A32(n, _) => {
                    let c = self.hybrid[*n].arr.copy();
                    self.hybrid[*n].stack.push(c);
                    proof {
                        assert(prev.hybrid@[*n as int].arr.wf());
                        assert(c.wf());
                        assert forall|k: int| 0 <= k < self.hybrid@.len() implies #[trigger] self.hybrid@[k].arr.wf()
                            && forall|j: int| 0 <= j < self.hybrid@[k].stack@.len() ==> #[trigger] self.hybrid@[k].stack@[j].wf() by {
                            assert(prev.hybrid@[k].arr.wf());
                            if k == *n as int {
                                assert forall|j: int| 0 <= j < self.hybrid@[k].stack@.len() implies #[trigger] self.hybrid@[k].stack@[j].wf() by {
                                    if j < prev.hybrid@[k].stack@.len() {
                                        assert(prev.hybrid@[k].stack@[j].wf());
                                    }
                                }
                            }
                        }
                    }
                },
            }
            proof {
                lemma_stash_scalars_step(start.spot@, prev.spot@, self.spot@, vs@, i as int, 0);
                lemma_stash_scalars_step(start.twospot@, prev.twospot@, self.twospot@, vs@, i as int, 1);
                lemma_stash_arrays_step(start.tail@, prev.tail@, self.tail@, vs@, i as int, 2);
                lemma_stash_arrays_step(start.hybrid@, prev.hybrid@, self.hybrid@, vs@, i as int, 3);
            }
            i = i + 1;
        }
        proof {
            assert(vs@.subrange(0, vs@.len() as int) =~= vs@);
        }
        Ok(())
    }
}

/// A scalar binding after `c` values were RETRIEVEd from its stash: the
/// stash shrinks by `c` and the value is the last one taken.
pub open spec fn scalar_retrieved(o: Bind, n: Bind, c: nat) -> bool {
    let len = o.stack@.len();
    &&& c <= len
    &&& n.rw == o.rw
    &&& n.stack@ == o.stack@.subrange(0, len - c)
    &&& n.val == if c > 0 { o.stack@[len - c] } else { o.val }
}

/// An array binding after `c` copies were RETRIEVEd from its stash.
pub open spec fn array_retrieved(o: ArrBind, n: ArrBind, c: nat) -> bool {
    let len = o.stack@.len();
    &&& c <= len
    &&& n.rw == o.rw
    &&& n.stack@ == o.stack@.subrange(0, len - c)
    &&& n.arr == if c > 0 { o.stack@[len - c] } else { o.arr }
}

pub open spec fn retrieved_scalars(old: Seq<Bind>, new: Seq<Bind>, vs: Seq<Var>, k: u8) -> bool {
    &&& new.len() == old.len()
    &&& forall|i: int|
        0 <= i < old.len() ==> #[trigger] scalar_retrieved(old[i], new[i], count_key(vs, k, i))
}

pub open spec fn retrieved_arrays(old: Seq<ArrBind>, new: Seq<ArrBind>, vs: Seq<Var>, k: u8) -> bool {
    &&& new.len() == old.len()
    &&& forall|i: int|
        0 <= i < old.len() ==> #[trigger] array_retrieved(old[i], new[i], count_key(vs, k, i))
}

/// Entry `i` of the list names a variable more often than its stash is
/// deep.
pub open spec fn over_at(st: State, vs: Seq<Var>, i: int) -> bool {
    let key = var_key(vs[i]);
    let c = count_key(vs, key.0, key.1 as int);
    if key.0 == 0 {
        c > st.spot@[key.1 as int].stack@.len()
    } else if key.0 == 1 {
        c > st.twospot@[key.1 as int].stack@.len()
    } else if key.0 == 2 {
        c > st.tail@[key.1 as int].stack@.len()
    } else {
        c > st.hybrid@[key.1 as int].stack@.len()
    }
}

/// Some listed variable is named more often than its stash is deep.
pub open spec fn over_retrieved(st: State, vs: Seq<Var>) -> bool {
    exists|i: int| 0 <= i < vs.len() && #[trigger] over_at(st, vs, i)
}

proof fn lemma_count_prefix_le(vs: Seq<Var>, a: int, k: u8, n: int)
    requires
        0 <= a <= vs.len(),
    ensures
        count_key(vs.subrange(0, a), k, n) <= count_key(vs, k, n),
    decreases vs.len() - a,
{
    if a < vs.len() {
        lemma_count_prefix_le(vs, a + 1, k, n);
        lemma_count_step(vs, a, k, n);
    } else {
        assert(vs.subrange(0, a) =~= vs);
    }
}

proof fn lemma_retrieve_scalars_step(
    start: Seq<Bind>,
    prev: Seq<Bind>,
    new: Seq<Bind>,
    vs: Seq<Var>,
    i: int,
    k: u8,
)
    requires
        0 <= i < vs.len(),
        retrieved_scalars(start, prev, vs.subrange(0, i), k),
        var_key(vs[i]).0 == k ==> {
            let n = var_key(vs[i]).1 as int;
            &&& n < prev.len()
            &&& prev[n].stack@.len() > 0
            &&& new == prev.update(n, new[n])
            &&& new[n].rw == prev[n].rw
            &&& new[n].stack@ == prev[n].stack@.drop_last()
            &&& new[n].val == prev[n].stack@.last()
        },
        var_key(vs[i]).0 != k ==> new == prev,
    ensures
        retrieved_scalars(start, new, vs.subrange(0, i + 1), k),
{
    assert forall|j: int| 0 <= j < start.len() implies #[trigger] scalar_retrieved(
        start[j],
        new[j],
        count_key(vs.subrange(0, i + 1), k, j),
    ) by {
        lemma_count_step(vs, i, k, j);
        let c = count_key(vs.subrange(0, i), k, j);
        assert(scalar_retrieved(start[j], prev[j], c));
        if names_key(vs[i], k, j) {
            let len = start[j].stack@.len();
            assert(new[j].stack@ =~= start[j].stack@.subrange(0, len - (c + 1)));
        } else {
            if var_key(vs[i]).0 == k {
                assert(var_key(vs[i]).1 as int != j);
            }
            assert(new[j] == prev[j]);
        }
    }
}

proof fn lemma_retrieve_arrays_step(
    start: Seq<ArrBind>,
    prev: Seq<ArrBind>,
    new: Seq<ArrBind>,
    vs: Seq<Var>,
    i: int,
    k: u8,
)
    requires
        0 <= i < vs.len(),
        retrieved_arrays(start, prev, vs.subrange(0, i), k),
        var_key(vs[i]).0 == k ==> {
            let n = var_key(vs[i]).1 as int;
            &&& n < prev.len()
            &&& prev[n].stack@.len() > 0
            &&& new == prev.update(n, new[n])
            &&& new[n].rw == prev[n].rw
            &&& new[n].stack@ == prev[n].stack@.drop_last()
            &&& new[n].arr == prev[n].stack@.last()
        },
        var_key(vs[i]).0 != k ==> new == prev,
    ensures
        retrieved_arrays(start, new, vs.subrange(0, i + 1), k),
{
    assert forall|j: int| 0 <= j < start.len() implies #[trigger] array_retrieved(
        start[j],
        new[j],
        count_key(vs.subrange(0, i + 1), k, j),
    ) by {
        lemma_count_step(vs, i, k, j);
        let c = count_key(vs.subrange(0, i), k, j);
        assert(array_retrieved(start[j], prev[j], c));
        if names_key(vs[i], k, j) {
            let len = start[j].stack@.len();
            assert(new[j].stack@ =~= start[j].stack@.subrange(0, len - (c + 1)));
        } else {
            if var_key(vs[i]).0 == k {
                assert(var_key(vs[i]).1 as int != j);
            }
            assert(new[j] == prev[j]);
        }
    }
}

impl State {
    /// Restores each listed variable from its stash (RETRIEVE).
    pub fn retrieve_all(&mut self, vs: &Vec<Var>) -> (r: Result<(), RtError>)
        requires
            old(self).wf(),
        ensures
            final(self).wf(),
            retrieve_rel(*old(self), *final(self), vs@, r),

    {
        let mut i: usize = 0;
        while i < vs.len()
            invariant
                i <= vs@.len(),
                *self == *old(self),
                self.wf(),
                forall|j: int| 0 <= j < i ==> #[trigger] var_key(vs@[j]).1 < kind_len(*self, var_key(vs@[j]).0),
            decreases vs@.len() - i,
        {
            let ok = match &vs[i] {
                Var::I16(n) => *n < self.spot.len(),
                Var::I32(n) => *n < self.twospot.len(),
                Var::A16(n, _) => *n < self.tail.len(),
                Var::A32(n, _) => *n < self.hybrid.len(),
            };
            if !ok {
                proof {
                    assert(!(var_key(vs@[i as int]).1 < kind_len(*self, var_key(vs@[i as int]).0)));
                }
                return Err(new_err(ErrCode::IE241));
            }
            i = i + 1;
        }
        let mut i: usize = 0;
        while i < vs.len()
            invariant
                i <= vs@.len(),
                *self == *old(self),
                self.wf(),
                all_in_range(*self, vs@),
                forall|j: int| 0 <= j < i ==> !#[trigger] over_at(*self, vs@, j),
            decreases vs@.len() - i,
        {
            let (kd, n) = vs[i].unique();
            let mut c: usize = 0;
            let mut j: usize = 0;
            while j < vs.len()
                invariant
                    j <= vs@.len(),
                    c <= j,
                    c == count_key(vs@.subrange(0, j as int), kd, n as int),
                    (kd, n) == var_key(vs@[i as int]),
                    i < vs@.len(),
                decreases vs@.len() - j,
            {
                proof {
                    lemma_count_step(vs@, j as int, kd, n as int);
                }
                let (k2, n2) = vs[j].unique();
                if k2 == kd && n2 == n {
                    c = c + 1;
                }
                j = j + 1;
            }
            proof {
                assert(vs@.subrange(0, vs@.len() as int) =~= vs@);
                assert(n < kind_len(*self, kd));
            }
            let depth = if kd == 0 {
                self.spot[n].stack.len()
            } else if kd == 1 {
                self.twospot[n].stack.len()
            } else if kd == 2 {
                self.tail[n].stack.len()
            } else {
                self.hybrid[n].stack.len()
            };
            if c > depth {
                proof {
                    assert(over_at(*self, vs@, i as int));
                    assert(over_retrieved(*self, vs@));
                }
                return Err(new_err(ErrCode::IE436));
            }
            i = i + 1;
        }
        proof {
            assert forall|j: int| 0 <= j < vs@.len() implies !(#[trigger] over_at(*self, vs@, j)) by {}
            if over_retrieved(*self, vs@) {
                let w = choose|w: int| 0 <= w < vs@.len() && over_at(*self, vs@, w);
                assert(over_at(*self, vs@, w));
            }
        }
        let ghost start = *self;
        let mut i: usize = 0;
        proof {
            assert(vs@.subrange(0, 0) =~= Seq::<Var>::empty());
            assert forall|k: u8, j: int| count_key(vs@.subrange(0, 0), k, j) == 0 by {}
            assert forall|j: int| 0 <= j < start.spot@.len() implies #[trigger] scalar_retrieved(start.spot@[j], self.spot@[j], count_key(vs@.subrange(0, 0), 0, j)) by {
                assert(start.spot@[j].stack@.subrange(0, start.spot@[j].stack@.len() as int) =~= start.spot@[j].stack@);
            }
            assert forall|j: int| 0 <= j < start.twospot@.len() implies #[trigger] scalar_retrieved(start.twospot@[j], self.twospot@[j], count_key(vs@.subrange(0, 0), 1, j)) by {
                assert(start.twospot@[j].stack@.subrange(0, start.twospot@[j].stack@.len() as int) =~= start.twospot@[j].stack@);
            }
            assert forall|j: int| 0 <= j < start.tail@.len() implies #[trigger] array_retrieved(start.tail@[j], self.tail@[j], count_key(vs@.subrange(0, 0), 2, j)) by {
                assert(start.tail@[j].stack@.subrange(0, start.tail@[j].stack@.len() as int) =~= start.tail@[j].stack@);
            }
            assert forall|j: int| 0 <= j < start.hybrid@.len() implies #[trigger] array_retrieved(start.hybrid@[j], self.hybrid@[j], count_key(vs@.subrange(0, 0), 3, j)) by {
                assert(start.hybrid@[j].stack@.subrange(0, start.hybrid@[j].stack@.len() as int) =~= start.hybrid@[j].stack@);
            }
        }
        while i < vs.len()
            invariant
                i <= vs@.len(),
                all_in_range(start, vs@),
                same_rest(start, *self),
                retrieved_scalars(start.spot@, self.spot@, vs@.subrange(0, i as int), 0),
                retrieved_scalars(start.twospot@, self.twospot@, vs@.subrange(0, i as int), 1),
                retrieved_arrays(start.tail@, self.tail@, vs@.subrange(0, i as int), 2),
                retrieved_arrays(start.hybrid@, self.hybrid@, vs@.subrange(0, i as int), 3),
                start.wf(),
                self.wf(),
                start == *old(self),
                !over_retrieved(start, vs@),
            decreases vs@.len() - i,
        {
            proof {
                assert(var_key(vs@[i as int]).1 < kind_len(start, var_key(vs@[i as int]).0));
            }
            let ghost prev = *self;
            let ok = match &vs[i] {
                Var::I16(n) => {
                    if self.spot[*n].stack.len() == 0 {
                        false
                    } else {
                        let x = self.spot[*n].stack.pop().unwrap();
                        self.spot[*n].val = x;
                        proof {
                            assert(self.spot@ =~= prev.spot@.update(*n as int, self.spot@[*n as int]));
                            assert(self.spot@[*n as int].stack@ =~= prev.spot@[*n as int].stack@.drop_last());
                        }
                        true
                    }
                },
                Var::I32(n) => {
                    if self.twospot[*n].stack.len() == 0 {
                        false
                    } else {
                        let x = self.twospot[*n].stack.pop().unwrap();
                        self.twospot[*n].val = x;
                        proof {
                            assert(self.twospot@ =~= prev.twospot@.update(*n as int, self.twospot@[*n as int]));
                            assert(self.twospot@[*n as int].stack@ =~= prev.twospot@[*n as int].stack@.drop_last());
                        }
                        true
                    }
                },
                Var::A16(n, _) => {
                    if self.tail[*n].stack.len() == 0 {
                        false
                    } else {
                        let x = self.tail[*n].stack.pop().unwrap();
                        self.tail[*n].arr = x;
                        proof {
                            assert(self.tail@ =~= prev.tail@.update(*n as int, self.tail@[*n as int]));
                            assert(self.tail@[*n as int].stack@ =~= prev.tail@[*n as int].stack@.drop_last());
                        }
                        true
                    }
                },
                Var::A32(n, _) => {
                    if self.hybrid[*n].stack.len() == 0 {
                        false
                    } else {
                        let x = self.hybrid[*n].stack.pop().unwrap();
                        self.hybrid[*n].arr = x;
                        proof {
                            assert(self.hybrid@ =~= prev.hybrid@.update(*n as int, self.hybrid@[*n as int]));
                            assert(self.hybrid@[*n as int].stack@ =~= prev.hybrid@[*n as int].stack@.drop_last());
                        }
                        true
                    }
                },
            };
            if !ok {
                proof {
                    let key = var_key(vs@[i as int]);
                    let n = key.1 as int;
                    lemma_count_step(vs@, i as int, key.0, n);
                    lemma_count_prefix_le(vs@, i + 1, key.0, n);
                    let c = count_key(vs@.subrange(0, i as int), key.0, n);
                    if key.0 == 0 {
                        assert(scalar_retrieved(start.spot@[n], prev.spot@[n], c));
                    } else if key.0 == 1 {
                        assert(scalar_retrieved(start.twospot@[n], prev.twospot@[n], c));
                    } else if key.0 == 2 {
                        assert(array_retrieved(start.tail@[n], prev.tail@[n], c));
                    } else {
                        assert(array_retrieved(start.hybrid@[n], prev.hybrid@[n], c));
                    }
                    assert(over_at(start, vs@, i as int));
                    assert(over_retrieved(start, vs@));
                    assert(false);
                }
                return Err(new_err(ErrCode::IE436));
            }
            proof {
                lemma_retrieve_scalars_step(start.spot@, prev.spot@, self.spot@, vs@, i as int, 0);
                lemma_retrieve_scalars_step(start.twospot@, prev.twospot@, self.twospot@, vs@, i as int, 1);
                lemma_retrieve_arrays_step(start.tail@, prev.tail@, self.tail@, vs@, i as int, 2);
                lemma_retrieve_arrays_step(start.hybrid@, prev.hybrid@, self.hybrid@, vs@, i as int, 3);
                assert forall|k: int| 0 <= k < self.tail@.len() implies #[trigger] self.tail@[k].arr.wf()
                    && forall|j: int| 0 <= j < self.tail@[k].stack@.len() ==> #[trigger] self.tail@[k].stack@[j].wf() by {
                    assert(prev.tail@[k].arr.wf());
                    if prev.tail@[k].stack@.len() > 0 {
                        assert(prev.tail@[k].stack@.last().wf());
                    }
                    assert forall|j: int| 0 <= j < self.tail@[k].stack@.len() implies #[trigger] self.tail@[k].stack@[j].wf() by {
                        assert(prev.tail@[k].stack@[j].wf());
                    }
                }
                assert forall|k: int| 0 <= k < self.hybrid@.len() implies #[trigger] self.hybrid@[k].arr.wf()
                    && forall|j: int| 0 <= j < self.hybrid@[k].stack@.len() ==> #[trigger] self.hybrid@[k].stack@[j].wf() by {
                    assert(prev.hybrid@[k].arr.wf());
                    if prev.hybrid@[k].stack@.len() > 0 {
                        assert(prev.hybrid@[k].stack@.last().wf());
                    }
                    assert forall|j: int| 0 <= j < self.hybrid@[k].stack@.len() implies #[trigger] self.hybrid@[k].stack@[j].wf() by {
                        assert(prev.hybrid@[k].stack@[j].wf());
                    }
                }
            }
            i = i + 1;
        }
        proof {
            assert(vs@.subrange(0, vs@.len() as int) =~= vs@);
            assert(!over_retrieved(start, vs@)) by {
                assert forall|i: int| 0 <= i < vs@.len() implies !({
                    let key = #[trigger] var_key(vs@[i]);
                    let c = count_key(vs@, key.0, key.1 as int);
                    if key.0 == 0 {
                        c > start.spot@[key.1 as int].stack@.len()
                    } else if key.0 == 1 {
                        c > start.twospot@[key.1 as int].stack@.len()
                    } else if key.0 == 2 {
                        c > start.tail@[key.1 as int].stack@.len()
                    } else {
                        c > start.hybrid@[key.1 as int].stack@.len()
                    }
                }) by {
                    let key = var_key(vs@[i]);
                    let n = key.1 as int;
                    assert(n < kind_len(start, key.0));
                    if key.0 == 0 {
                        assert(scalar_retrieved(start.spot@[n], self.spot@[n], count_key(vs@, 0, n)));
                    } else if key.0 == 1 {
                        assert(scalar_retrieved(start.twospot@[n], self.twospot@[n], count_key(vs@, 1, n)));
                    } else if key.0 == 2 {
                        assert(array_retrieved(start.tail@[n], self.tail@[n], count_key(vs@, 2, n)));
                    } else {
                        assert(array_retrieved(start.hybrid@[n], self.hybrid@[n], count_key(vs@, 3, n)));
                    }
                }
            }
        }
        Ok(())
    }
}

/// Program shape the interpreter relies on: statement indices fit a
/// logical line, one kind tag per statement, labels and COME FROM links
/// point at statements, and chances are percentages.
pub open spec fn program_wf(p: Program) -> bool {
    &&& p.stmts@.len() <= 0xFFFF
    &&& p.stmt_types@.len() == p.stmts@.len()
    &&& forall|l: u16| #[trigger] p.labels@.contains_key(l) ==> (p.labels@[l] as int) < p.stmts@.len()
    &&& forall|i: int|
        0 <= i < p.stmts@.len() ==> match #[trigger] p.stmts@[i].comefrom {
            Some(t) => (t as int) < p.stmts@.len(),
            None => true,
        }
    &&& forall|i: int| 0 <= i < p.stmts@.len() ==> #[trigger] p.stmts@[i].props.chance <= 100
}

/// An ABSTAIN or REINSTATE target names statement `i`: by its label, or
/// by its kind.
pub open spec fn target_hits(p: Program, t: Abstain, i: int) -> bool {
    match t {
        Abstain::Label(l) => p.labels@.contains_key(l) && p.labels@[l] as int == i,
        _ => p.stmt_types@[i] == t,
    }
}

/// Some target of the list names statement `i`.
pub open spec fn targets_hit(p: Program, ts: Seq<Abstain>, i: int) -> bool {
    exists|j: int| 0 <= j < ts.len() && #[trigger] target_hits(p, ts[j], i)
}

/// Every label target of the list exists.
pub open spec fn labels_known(p: Program, ts: Seq<Abstain>) -> bool {
    forall|j: int|
        0 <= j < ts.len() ==> match #[trigger] ts[j] {
            Abstain::Label(l) => p.labels@.contains_key(l),
            _ => true,
        }
}

/// The abstention flags after setting those of the named statements.
pub open spec fn abstained(p: Program, old: Seq<bool>, new: Seq<bool>, ts: Seq<Abstain>, flag: bool) -> bool {
    &&& new.len() == old.len()
    &&& forall|i: int| 0 <= i < old.len() ==> #[trigger] new[i] == if targets_hit(p, ts, i) {
        flag
    } else {
        old[i]
    }
}

/// The NEXT stack after popping `n` entries: the entry popped last is where
/// a RESUME returns to.
pub open spec fn popped(old: Seq<u16>, new: Seq<u16>, n: u32, strict: bool, r: Result<Option<u16>, RtError>) -> bool {
    if n == 0 {
        r == Err::<Option<u16>, RtError>(err(ErrCode::IE621))
    } else if old.len() < n {
        if strict {
            r == Err::<Option<u16>, RtError>(err(ErrCode::IE632))
        } else {
            r == Ok::<Option<u16>, RtError>(None) && new == Seq::<u16>::empty()
        }
    } else {
        r == Ok::<Option<u16>, RtError>(Some(old[old.len() - n])) && new == old.subrange(
            0,
            old.len() - n,
        )
    }
}

/// An 8-bit value with its bits in reverse order.
pub open spec fn rev8(c: u8) -> u8 {
    let a = (((c & 0x0f) << 4u8) | ((c & 0xf0) >> 4u8)) as u8;
    let b = (((a & 0x33) << 2u8) | ((a & 0xcc) >> 2u8)) as u8;
    (((b & 0x55) << 1u8) | ((b & 0xaa) >> 1u8)) as u8
}

fn reverse_bits(c: u8) -> (r: u8)
    ensures
        r == rev8(c),
{
    let a = (((c & 0x0f) << 4u8) | ((c & 0xf0) >> 4u8)) as u8;
    let b = (((a & 0x33) << 2u8) | ((a & 0xcc) >> 2u8)) as u8;
    (((b & 0x55) << 1u8) | ((b & 0xaa) >> 1u8)) as u8
}

/// Text output of array elements: each element is subtracted (mod 256)
/// from the previous code, and the bit-reversed result is written.
pub open spec fn text_out(last: u8, xs: Seq<u32>) -> (Seq<Output>, u8)
    decreases xs.len(),
{
    if xs.len() == 0 {
        (Seq::empty(), last)
    } else {
        let (o, l) = text_out(last, xs.drop_last());
        let t = ((l as int + 256 - (xs.last() % 256) as int) % 256) as u8;
        (o.push(Output::Byte(rev8(t))), t)
    }
}

/// What READ OUT of the first `k` items writes, and the text state after,
/// or the error of the first item that fails.
pub open spec fn readout_spec(st: State, es: Seq<Expr>, k: int) -> Result<(Seq<Output>, u8), RtError>
    decreases k,
{
    if k <= 0 || k > es.len() {
        Ok((Seq::empty(), st.last_out))
    } else {
        match readout_spec(st, es, k - 1) {
            Err(x) => Err(x),
            Ok((o, l)) => match readout_item(st, es[k - 1], l) {
                Err(x) => Err(x),
                Ok((o2, l2)) => Ok((o + o2, l2)),
            },
        }
    }
}

/// One READ OUT item: an array without subscripts is written as text,
/// anything else as a number.
pub open spec fn readout_item(st: State, e: Expr, last: u8) -> Result<(Seq<Output>, u8), RtError> {
    match e {
        Expr::Var(Var::A16(n, s)) if s@.len() == 0 => if n < st.tail@.len() {
            Ok(text_out(last, st.tail@[n as int].arr.elems@))
        } else {
            Err(err(ErrCode::IE241))
        },
        Expr::Var(Var::A32(n, s)) if s@.len() == 0 => if n < st.hybrid@.len() {
            Ok(text_out(last, st.hybrid@[n as int].arr.elems@))
        } else {
            Err(err(ErrCode::IE241))
        },
        _ => match eval_spec(st, e) {
            Err(x) => Err(x),
            Ok(v) => Ok((seq![Output::Number(val_u32(v))], last)),
        },
    }
}

/// The product of dimensions given as values.
pub open spec fn size_of(d: Seq<u32>, k: int) -> nat
    decreases k,
{
    if k <= 0 {
        1
    } else {
        size_of(d, k - 1) * (d[k - 1] as nat)
    }
}

/// An array table after dimensioning array `n` with the given dimensions.
pub open spec fn dimensioned(old: Seq<ArrBind>, new: Seq<ArrBind>, n: usize, d: Seq<u32>, r: Result<(), RtError>) -> bool {
    if n >= old.len() || d.len() == 0 || size_of(d, d.len() as int) > 0xFFFF_FFFF {
        r == Err::<(), RtError>(err(ErrCode::IE241))
    } else if !old[n as int].rw {
        r == Ok::<(), RtError>(()) && new == old
    } else {
        &&& r == Ok::<(), RtError>(())
        &&& new.len() == old.len()
        &&& forall|i: int| 0 <= i < old.len() && i != n ==> new[i] == old[i]
        &&& new[n as int].rw == old[n as int].rw
        &&& new[n as int].stack == old[n as int].stack
        &&& new[n as int].arr.dims@.len() == d.len()
        &&& forall|i: int| 0 <= i < d.len() ==> new[n as int].arr.dims@[i] as int == d[i] as int
        &&& new[n as int].arr.elems@ == Seq::new(size_of(d, d.len() as int), |_i: int| 0u32)
    }
}

proof fn lemma_size_prod(d: Seq<u32>, dd: Seq<usize>, k: int)
    requires
        0 <= k <= d.len(),
        dd.len() == d.len(),
        forall|i: int| 0 <= i < d.len() ==> dd[i] as int == d[i] as int,
    ensures
        size_of(d, k) == crate::store::dims_prod(dd, k),
    decreases k,
{
    if k > 0 {
        lemma_size_prod(d, dd, k - 1);
    }
}

proof fn lemma_size_zero(d: Seq<u32>, k: int, z: int)
    requires
        0 <= z < k <= d.len(),
        d[z] == 0,
    ensures
        size_of(d, k) == 0,
    decreases k,
{
    let x = d[k - 1] as nat;
    if k - 1 > z {
        lemma_size_zero(d, k - 1, z);
        assert(0 * x == 0);
    } else {
        let p = size_of(d, k - 1);
        assert(p * 0 == 0) by (nonlinear_arith);
    }
}

proof fn lemma_size_grows(d: Seq<u32>, k: int, m: int)
    requires
        0 <= k <= m <= d.len(),
        forall|i: int| 0 <= i < d.len() ==> d[i] >= 1,
    ensures
        size_of(d, k) <= size_of(d, m),
    decreases m - k,
{
    if k < m {
        lemma_size_grows(d, k, m - 1);
        let p = size_of(d, m - 1);
        let x = d[m - 1] as nat;
        assert(p <= p * x) by (nonlinear_arith)
            requires
                x >= 1,
        ;
    }
}

/// Whether every label target of the list exists.
pub fn labels_ok(p: &Program, ts: &Vec<Abstain>) -> (r: bool)
    ensures
        r == labels_known(*p, ts@),
{
    let mut j: usize = 0;
    while j < ts.len()
        invariant
            j <= ts@.len(),
            forall|m: int|
                0 <= m < j ==> match #[trigger] ts@[m] {
                    Abstain::Label(l) => p.labels@.contains_key(l),
                    _ => true,
                },
        decreases ts@.len() - j,
    {
        if let Abstain::Label(l) = ts[j] {
            if p.labels.get(&l).is_none() {
                proof {
                    assert(match ts@[j as int] {
                        Abstain::Label(l) => !p.labels@.contains_key(l),
                        _ => false,
                    });
                }
                return false;
            }
        }
        j = j + 1;
    }
    true
}

impl State {
    /// Sets or clears the abstention flag of every statement the targets
    /// name (ABSTAIN and REINSTATE).
    pub fn abstain(&mut self, p: &Program, ts: &Vec<Abstain>, flag: bool) -> (r: Result<(), RtError>)
        requires
            old(self).wf(),
            program_wf(*p),
            old(self).abstentions@.len() == p.stmts@.len(),
        ensures
            final(self).wf(),
            abstain_rel(*p, *old(self), *final(self), ts@, flag, r),

    {
        let mut j: usize = 0;
        while j < ts.len()
            invariant
                j <= ts@.len(),
                *self == *old(self),
                self.wf(),
                forall|m: int|
                    0 <= m < j ==> match #[trigger] ts@[m] {
                        Abstain::Label(l) => p.labels@.contains_key(l),
                        _ => true,
                    },
            decreases ts@.len() - j,
        {
            if let Abstain::Label(l) = ts[j] {
                if p.labels.get(&l).is_none() {
                    proof {
                        assert(!labels_known(*p, ts@)) by {
                            assert(match ts@[j as int] {
                                Abstain::Label(l) => !p.labels@.contains_key(l),
                                _ => false,
                            });
                        }
                    }
                    return Err(new_err(ErrCode::IE139));
                }
            }
            j = j + 1;
        }
        let ghost start = self.abstentions@;
        let n = self.abstentions.len();
        let mut j: usize = 0;
        while j < ts.len()
            invariant
                j <= ts@.len(),
                labels_known(*p, ts@),
                program_wf(*p),
                n == start.len(),
                n == p.stmts@.len(),
                self.abstentions@.len() == n,
                abstained(*p, start, self.abstentions@, ts@.subrange(0, j as int), flag),
                self.wf(),
                same_vars(*old(self), *self),
                self.jumps@ == old(self).jumps@,
                self.output@ == old(self).output@,
                self.last_out == old(self).last_out,
                self.last_in == old(self).last_in,
                self.num_pos == old(self).num_pos,
                self.byte_pos == old(self).byte_pos,
                self.numbers_in@ == old(self).numbers_in@,
                self.bytes_in@ == old(self).bytes_in@,
                self.stmt_ctr == old(self).stmt_ctr,
                start == old(self).abstentions@,
            decreases ts@.len() - j,
        {
            let ghost prev = self.abstentions@;
            let t = ts[j];
            match t {
                Abstain::Label(l) => {
                    assert(match ts@[j as int] {
                        Abstain::Label(l) => p.labels@.contains_key(l),
                        _ => true,
                    });
                    let idx = *p.labels.get(&l).unwrap();
                    self.abstentions.set(idx as usize, flag);
                },
                _ => {
                    let mut i: usize = 0;
                    while i < n
                        invariant
                            i <= n,
                            n == p.stmt_types@.len(),
                            self.abstentions@.len() == n,
                            t == ts@[j as int],
                            j < ts@.len(),
                            match t {
                                Abstain::Label(_) => false,
                                _ => true,
                            },
                            n == prev.len(),
                            forall|m: int| 0 <= m < i ==> #[trigger] self.abstentions@[m] == if target_hits(*p, t, m) {
                                flag
                            } else {
                                prev[m]
                            },
                            forall|m: int| i <= m < n ==> #[trigger] self.abstentions@[m] == prev[m],
                            self.wf(),
                            same_vars(*old(self), *self),
                            self.jumps@ == old(self).jumps@,
                            self.output@ == old(self).output@,
                            self.last_out == old(self).last_out,
                            self.last_in == old(self).last_in,
                            self.num_pos == old(self).num_pos,
                            self.byte_pos == old(self).byte_pos,
                            self.numbers_in@ == old(self).numbers_in@,
                            self.bytes_in@ == old(self).bytes_in@,
                            self.stmt_ctr == old(self).stmt_ctr,
                        decreases n - i,
                    {
                        if p.stmt_types[i] == t {
                            self.abstentions.set(i, flag);
                        }
                        i = i + 1;
                    }
                },
            }
            proof {
                assert forall|i: int| 0 <= i < n implies #[trigger] self.abstentions@[i] == if targets_hit(
                    *p,
                    ts@.subrange(0, j + 1),
                    i,
                ) {
                    flag
                } else {
                    start[i]
                } by {
                    let sub = ts@.subrange(0, j as int);
                    let sub1 = ts@.subrange(0, j + 1);
                    assert(prev[i] == if targets_hit(*p, sub, i) { flag } else { start[i] });
                    if target_hits(*p, t, i) {
                        assert(sub1[j as int] == t);
                        assert(targets_hit(*p, sub1, i));
                    } else {
                        if targets_hit(*p, sub1, i) {
                            let m = choose|m: int| 0 <= m < sub1.len() && #[trigger] target_hits(*p, sub1[m], i);
                            assert(m != j);
                            assert(sub[m] == sub1[m]);
                            assert(targets_hit(*p, sub, i));
                        }
                        if targets_hit(*p, sub, i) {
                            let m = choose|m: int| 0 <= m < sub.len() && #[trigger] target_hits(*p, sub[m], i);
                            assert(sub1[m] == sub[m]);
                            assert(targets_hit(*p, sub1, i));
                        }
                    }
                }
            }
            j = j + 1;
        }
        proof {
            assert(ts@.subrange(0, ts@.len() as int) =~= ts@);
        }
        Ok(())
    }

    /// Pops `n` entries off the NEXT stack (RESUME when strict, FORGET when
    /// not).
    pub fn pop_jumps(&mut self, n: u32, strict: bool) -> (r: Result<Option<u16>, RtError>)
        requires
            old(self).wf(),
        ensures
            final(self).wf(),
            pop_rel(*old(self), *final(self), n, strict, r),

    {
        if n == 0 {
            return Err(new_err(ErrCode::IE621));
        }
        if self.jumps.len() < n as usize {
            if strict {
                return Err(new_err(ErrCode::IE632));
            } else {
                self.jumps.clear();
                proof {
                    assert(self.jumps@ =~= Seq::<u16>::empty());
                }
                return Ok(None);
            }
        }
        let newlen = self.jumps.len() - (n as usize - 1);
        self.jumps.truncate(newlen);
        let r = self.jumps.pop();
        proof {
            assert(self.jumps@ =~= old(self).jumps@.subrange(0, old(self).jumps@.len() - n));
        }
        Ok(r)
    }

    /// Gives array `v` new dimensions, all elements zero (DIM).
    pub fn array_dim(&mut self, v: &Var, ds: &Vec<Expr>) -> (r: Result<(), RtError>)
        requires
            old(self).wf(),
        ensures
            final(self).wf(),
            dim_rel(*old(self), *final(self), *v, *ds, r),

    {
        let d = self.eval_subs(ds)?;
        let n = match v {
            Var::A16(n, _) => *n,
            Var::A32(n, _) => *n,
            _ => {
                return Err(new_err(ErrCode::IE241));
            },
        };
        let tail = match v {
            Var::A16(..) => true,
            _ => false,
        };
        let len = if tail {
            self.tail.len()
        } else {
            self.hybrid.len()
        };
        if n >= len || d.len() == 0 {
            return Err(new_err(ErrCode::IE241));
        }
        let arr = match make_array(&d) {
            Some(a) => a,
            None => {
                return Err(new_err(ErrCode::IE241));
            },
        };
        if tail {
            if !self.tail[n].rw {
                return Ok(());
            }
            self.tail[n].arr = arr;
            proof {
                assert forall|k: int| 0 <= k < self.tail@.len() implies #[trigger] self.tail@[k].arr.wf()
                    && forall|j: int| 0 <= j < self.tail@[k].stack@.len() ==> #[trigger] self.tail@[k].stack@[j].wf() by {
                    assert(old(self).tail@[k].arr.wf());
                }
            }
        } else {
            if !self.hybrid[n].rw {
                return Ok(());
            }
            self.hybrid[n].arr = arr;
            proof {
                assert forall|k: int| 0 <= k < self.hybrid@.len() implies #[trigger] self.hybrid@[k].arr.wf()
                    && forall|j: int| 0 <= j < self.hybrid@[k].stack@.len() ==> #[trigger] self.hybrid@[k].stack@[j].wf() by {
                    assert(old(self).hybrid@[k].arr.wf());
                }
            }
        }
        Ok(())
    }
}

/// A zeroed array of the given dimensions, or nothing when it would hold
/// more than 2^32 - 1 elements.
pub fn make_array(d: &Vec<u32>) -> (r: Option<Array>)
    requires
        d@.len() > 0,
    ensures
        size_of(d@, d@.len() as int) > 0xFFFF_FFFF ==> r.is_none(),
        size_of(d@, d@.len() as int) <= 0xFFFF_FFFF ==> r.is_some() && {
            let a = r.unwrap();
            &&& a.wf()
            &&& a.dims@.len() == d@.len()
            &&& forall|i: int| 0 <= i < d@.len() ==> a.dims@[i] as int == d@[i] as int
            &&& a.elems@ == Seq::new(size_of(d@, d@.len() as int), |_i: int| 0u32)
        },
{
    let k = d.len();
    let mut dims: Vec<usize> = Vec::new();
    let mut zero = false;
    let mut i: usize = 0;
    while i < k
        invariant
            i <= k,
            k == d@.len(),
            dims@.len() == i,
            forall|m: int| 0 <= m < i ==> dims@[m] as int == d@[m] as int,
            zero == exists|m: int| 0 <= m < i && d@[m] == 0,
        decreases k - i,
    {
        dims.push(d[i] as usize);
        if d[i] == 0 {
            zero = true;
        }
        i = i + 1;
    }
    proof {
        lemma_size_prod(d@, dims@, k as int);
    }
    if zero {
        proof {
            let z = choose|m: int| 0 <= m < k && d@[m] == 0;
            lemma_size_zero(d@, k as int, z);
            assert(Seq::<u32>::empty() =~= Seq::new(0, |_i: int| 0u32));
        }
        return Some(Array { dims, elems: Vec::new() });
    }
    let mut size: u64 = 1;
    let mut i: usize = 0;
    while i < k
        invariant
            i <= k,
            k == d@.len(),
            forall|m: int| 0 <= m < k ==> d@[m] != 0,
            size == size_of(d@, i as int),
            size <= 0xFFFF_FFFF,
        decreases k - i,
    {
        proof {
            assert(size * (d@[i as int] as u64) <= 0xFFFF_FFFF * 0xFFFF_FFFF) by (nonlinear_arith)
                requires
                    size <= 0xFFFF_FFFF,
                    d@[i as int] <= 0xFFFF_FFFF,
            ;
        }
        size = size * d[i] as u64;
        i = i + 1;
        if size > 0xFFFF_FFFF {
            proof {
                lemma_size_grows(d@, i as int, k as int);
            }
            return None;
        }
    }
    let mut elems: Vec<u32> = Vec::new();
    let mut c: u64 = 0;
    while c < size
        invariant
            c <= size,
            size <= 0xFFFF_FFFF,
            elems@ == Seq::new(c as nat, |_i: int| 0u32),
        decreases size - c,
    {
        elems.push(0);
        c = c + 1;
        proof {
            assert(elems@ =~= Seq::new(c as nat, |_i: int| 0u32));
        }
    }
    Some(Array { dims, elems })
}

/// READ OUT of a list: the items' output is appended in order.
pub open spec fn readout_rel(o: State, n: State, es: Seq<Expr>, r: Result<(), RtError>) -> bool {
    match readout_spec(o, es, es.len() as int) {
        Err(x) => r == Err::<(), RtError>(x),
        Ok((out, l)) => {
            &&& r == Ok::<(), RtError>(())
            &&& n.output@ == o.output@ + out
            &&& n.last_out == l
            &&& same_vars(o, n)
            &&& n.jumps@ == o.jumps@
            &&& n.abstentions@ == o.abstentions@
            &&& n.last_in == o.last_in
            &&& n.stmt_ctr == o.stmt_ctr
            &&& n.numbers_in@ == o.numbers_in@
            &&& n.num_pos == o.num_pos
            &&& n.bytes_in@ == o.bytes_in@
            &&& n.byte_pos == o.byte_pos
        },
    }
}

/// An array named without subscripts.
pub open spec fn whole_array(v: Var) -> bool {
    match v {
        Var::A16(_, s) => s@.len() == 0,
        Var::A32(_, s) => s@.len() == 0,
        _ => false,
    }
}

/// How many entries of a WRITE IN list read a number.
pub open spec fn number_entries(vs: Seq<Var>) -> nat
    decreases vs.len(),
{
    if vs.len() == 0 {
        0
    } else {
        number_entries(vs.drop_last()) + if whole_array(vs.last()) {
            0nat
        } else {
            1nat
        }
    }
}

/// Text input of `k` elements: each byte read gives its difference from
/// the previous byte (mod 256); once the bytes run out, 256.
pub open spec fn text_in(bytes: Seq<u8>, pos: nat, last: u8, k: nat) -> (Seq<u32>, nat, u8)
    decreases k,
{
    if k == 0 {
        (Seq::empty(), pos, last)
    } else {
        let t = text_in(bytes, pos, last, (k - 1) as nat);
        if t.1 < bytes.len() {
            let c = bytes[t.1 as int];
            (t.0.push(((c as int + 256 - t.2 as int) % 256) as u32), t.1 + 1, c)
        } else {
            (t.0.push(256u32), t.1, t.2)
        }
    }
}

/// The array table with array `n` given the elements `vals`, unless it is
/// IGNOREd.
pub open spec fn table_text_in(old: Seq<ArrBind>, new: Seq<ArrBind>, n: int, vals: Seq<u32>) -> bool {
    &&& new.len() == old.len()
    &&& forall|i: int| 0 <= i < old.len() && i != n ==> new[i] == old[i]
    &&& new[n].rw == old[n].rw
    &&& new[n].stack == old[n].stack
    &&& new[n].arr.dims == old[n].arr.dims
    &&& new[n].arr.elems@ == if old[n].rw {
        vals
    } else {
        old[n].arr.elems@
    }
}

/// Everything but the arrays and the text input position is the same.
pub open spec fn text_frame(a: State, b: State) -> bool {
    &&& b.spot@ == a.spot@
    &&& b.twospot@ == a.twospot@
    &&& b.jumps@ == a.jumps@
    &&& b.abstentions@ == a.abstentions@
    &&& b.output@ == a.output@
    &&& b.last_out == a.last_out
    &&& b.stmt_ctr == a.stmt_ctr
    &&& b.numbers_in@ == a.numbers_in@
    &&& b.num_pos == a.num_pos
    &&& b.bytes_in@ == a.bytes_in@
}

/// WRITE IN of text into a whole array.
pub open spec fn text_in_rel(a: State, b: State, v: Var, r: Result<(), RtError>) -> bool {
    match v {
        Var::A16(n, _) => if n >= a.tail@.len() {
            r == Err::<(), RtError>(err(ErrCode::IE241))
        } else {
            let t = text_in(a.bytes_in@, a.byte_pos as nat, a.last_in, a.tail@[n as int].arr.elems@.len());
            &&& r == Ok::<(), RtError>(())
            &&& table_text_in(a.tail@, b.tail@, n as int, t.0)
            &&& b.hybrid@ == a.hybrid@
            &&& b.byte_pos as nat == t.1
            &&& b.last_in == t.2
            &&& text_frame(a, b)
        },
        Var::A32(n, _) => if n >= a.hybrid@.len() {
            r == Err::<(), RtError>(err(ErrCode::IE241))
        } else {
            let t = text_in(a.bytes_in@, a.byte_pos as nat, a.last_in, a.hybrid@[n as int].arr.elems@.len());
            &&& r == Ok::<(), RtError>(())
            &&& table_text_in(a.hybrid@, b.hybrid@, n as int, t.0)
            &&& b.tail@ == a.tail@
            &&& b.byte_pos as nat == t.1
            &&& b.last_in == t.2
            &&& text_frame(a, b)
        },
        _ => r == Err::<(), RtError>(err(ErrCode::IE241)),
    }
}

/// The state with one more number read.
pub open spec fn number_read(a: State) -> State {
    State { num_pos: (a.num_pos + 1) as usize, ..a }
}

/// WRITE IN of one entry: text for a whole array; otherwise the next
/// number, assigned as `assign_rel` says, or IE562 when none is left.
pub open spec fn writein_one(a: State, b: State, v: Var, r: Result<(), RtError>) -> bool {
    if whole_array(v) {
        text_in_rel(a, b, v, r)
    } else if a.num_pos >= a.numbers_in@.len() {
        r == Err::<(), RtError>(err(ErrCode::IE562))
    } else {
        assign_rel(number_read(a), b, v, Val::I32(a.numbers_in@[a.num_pos as int]), r)
    }
}

/// The states `sts` witness WRITE IN of the list entry by entry, stopping
/// at the first entry that fails.
pub open spec fn writein_trace(o: State, n: State, vs: Seq<Var>, r: Result<(), RtError>, sts: Seq<State>) -> bool {
    &&& 1 <= sts.len() <= vs.len() + 1
    &&& sts[0] == o
    &&& forall|k: int| 0 <= k < sts.len() - 1 ==> #[trigger] writein_one(sts[k], sts[k + 1], vs[k], Ok(()))
    &&& if r is Ok {
        sts.len() == vs.len() + 1 && n == sts.last()
    } else {
        sts.len() <= vs.len() && writein_one(sts.last(), n, vs[sts.len() - 1], r)
    }
}

/// WRITE IN of a list.
pub open spec fn writein_rel(o: State, n: State, vs: Seq<Var>, r: Result<(), RtError>) -> bool {
    exists|sts: Seq<State>| writein_trace(o, n, vs, r, sts)
}

/// What WRITE IN leaves alone.
pub open spec fn writein_frame(o: State, n: State) -> bool {
    &&& n.jumps@ == o.jumps@
    &&& n.abstentions@ == o.abstentions@
    &&& n.output@ == o.output@
    &&& n.last_out == o.last_out
    &&& n.stmt_ctr == o.stmt_ctr
    &&& n.numbers_in@ == o.numbers_in@
    &&& n.bytes_in@ == o.bytes_in@
}

proof fn lemma_readout_err_persists(st: State, es: Seq<Expr>, k: int, n: int)
    requires
        1 <= k <= n <= es.len(),
        readout_spec(st, es, k).is_err(),
    ensures
        readout_spec(st, es, n) == readout_spec(st, es, k),
    decreases n - k,
{
    if k < n {
        lemma_readout_err_persists(st, es, k, n - 1);
    }
}

/// Text output of a list of array elements.
pub fn text_out_exec(last: u8, xs: &Vec<u32>) -> (r: (Vec<Output>, u8))
    ensures
        (r.0@, r.1) == text_out(last, xs@),
{
    let mut out: Vec<Output> = Vec::new();
    let mut l = last;
    let mut i: usize = 0;
    while i < xs.len()
        invariant
            i <= xs@.len(),
            (out@, l) == text_out(last, xs@.subrange(0, i as int)),
        decreases xs@.len() - i,
    {
        proof {
            assert(xs@.subrange(0, i + 1).drop_last() =~= xs@.subrange(0, i as int));
        }
        let t = ((l as u32 + 256 - (xs[i] % 256)) % 256) as u8;
        out.push(Output::Byte(reverse_bits(t)));
        l = t;
        i = i + 1;
    }
    proof {
        assert(xs@.subrange(0, xs@.len() as int) =~= xs@);
    }
    (out, l)
}

impl State {
    /// What READ OUT writes for one item.
    pub fn readout_one(&self, e: &Expr, last: u8) -> (r: Result<(Vec<Output>, u8), RtError>)
        requires
            self.wf(),
        ensures
            match readout_item(*self, *e, last) {
                Err(x) => r == Err::<(Vec<Output>, u8), RtError>(x),
                Ok((o, l)) => r.is_ok() && r.unwrap().0@ == o && r.unwrap().1 == l,
            },
    {
        if let Expr::Var(v) = e {
            match v {
                Var::A16(n, s) => {
                    if s.len() == 0 {
                        if *n < self.tail.len() {
                            return Ok(text_out_exec(last, &self.tail[*n].arr.elems));
                        } else {
                            return Err(new_err(ErrCode::IE241));
                        }
                    }
                },
                Var::A32(n, s) => {
                    if s.len() == 0 {
                        if *n < self.hybrid.len() {
                            return Ok(text_out_exec(last, &self.hybrid[*n].arr.elems));
                        } else {
                            return Err(new_err(ErrCode::IE241));
                        }
                    }
                },
                _ => {},
            }
        }
        let v = self.eval_expr(e)?;
        let mut o: Vec<Output> = Vec::new();
        o.push(Output::Number(val_to_u32(v)));
        proof {
            assert(o@ =~= seq![Output::Number(val_u32(v))]);
        }
        Ok((o, last))
    }

    /// READ OUT of a list of items.
    pub fn readout_all(&mut self, es: &Vec<Expr>) -> (r: Result<(), RtError>)
        requires
            old(self).wf(),
        ensures
            final(self).wf(),
            readout_rel(*old(self), *final(self), es@, r),
            same_vars(*old(self), *final(self)),
            final(self).abstentions@ == old(self).abstentions@,
            final(self).jumps@ == old(self).jumps@,
    {
        let mut outs: Vec<Output> = Vec::new();
        let mut last = self.last_out;
        let mut i: usize = 0;
        while i < es.len()
            invariant
                i <= es@.len(),
                self.wf(),
                readout_spec(*self, es@, i as int) == Ok::<(Seq<Output>, u8), RtError>((outs@, last)),
            decreases es@.len() - i,
        {
            match self.readout_one(&es[i], last) {
                Err(x) => {
                    proof {
                        lemma_readout_err_persists(*self, es@, i + 1, es@.len() as int);
                    }
                    return Err(x);
                },
                Ok((o, l)) => {
                    let mut o = o;
                    outs.append(&mut o);
                    last = l;
                },
            }
            i = i + 1;
        }
        self.output.append(&mut outs);
        self.last_out = last;
        Ok(())
    }

    /// WRITE IN of a list: a number for each scalar or element, text for
    /// each whole array (a byte per element, 256 once the bytes run out).
    pub fn writein_all(&mut self, vs: &Vec<Var>) -> (r: Result<(), RtError>)
        requires
            old(self).wf(),
        ensures
            final(self).wf(),
            writein_rel(*old(self), *final(self), vs@, r),
            writein_frame(*old(self), *final(self)),
    {
        let ghost mut sts: Seq<State> = seq![*self];
        let mut i: usize = 0;
        while i < vs.len()
            invariant
                i <= vs@.len(),
                self.wf(),
                writein_frame(*old(self), *self),
                sts.len() == i + 1,
                sts[0] == *old(self),
                sts.last() == *self,
                forall|k: int| 0 <= k < sts.len() - 1 ==> #[trigger] writein_one(sts[k], sts[k + 1], vs@[k], Ok(())),
            decreases vs@.len() - i,
        {
            let ghost a = *self;
            let v = &vs[i];
            let whole = match v {
                Var::A16(_, s) => s.len() == 0,
                Var::A32(_, s) => s.len() == 0,
                _ => false,
            };
            let res = if whole {
                self.writein_text(v)
            } else {
                if self.num_pos >= self.numbers_in.len() {
                    proof {
                        assert(writein_one(a, *self, vs@[i as int], Err(err(ErrCode::IE562))));
                        assert(writein_trace(*old(self), *self, vs@, Err(err(ErrCode::IE562)), sts));
                    }
                    return Err(new_err(ErrCode::IE562));
                }
                let x = self.numbers_in[self.num_pos];
                self.num_pos = self.num_pos + 1;
                proof {
                    assert(*self == number_read(a));
                }
                self.assign(v, Val::I32(x))
            };
            proof {
                assert(writein_one(a, *self, vs@[i as int], res));
            }
            if let Err(e) = res {
                proof {
                    assert(writein_trace(*old(self), *self, vs@, Err(e), sts));
                }
                return Err(e);
            }
            proof {
                let s2 = sts.push(*self);
                assert forall|k: int| 0 <= k < s2.len() - 1 implies #[trigger] writein_one(s2[k], s2[k + 1], vs@[k], Ok(())) by {
                    if k < sts.len() - 1 {
                        assert(writein_one(sts[k], sts[k + 1], vs@[k], Ok(())));
                    }
                }
                sts = s2;
            }
            i = i + 1;
        }
        proof {
            assert(writein_trace(*old(self), *self, vs@, Ok(()), sts));
        }
        Ok(())
    }

    /// Reads text into a whole array.
    fn writein_text(&mut self, v: &Var) -> (r: Result<(), RtError>)
        requires
            old(self).wf(),
        ensures
            final(self).wf(),
            whole_array(*v) ==> text_in_rel(*old(self), *final(self), *v, r),
            writein_frame(*old(self), *final(self)),
            final(self).num_pos == old(self).num_pos,
    {
        let (tail, n) = match v {
            Var::A16(n, _) => (true, *n),
            Var::A32(n, _) => (false, *n),
            _ => {
                return Err(new_err(ErrCode::IE241));
            },
        };
        let len = if tail {
            self.tail.len()
        } else {
            self.hybrid.len()
        };
        if n >= len {
            return Err(new_err(ErrCode::IE241));
        }
        let count = if tail {
            self.tail[n].arr.elems.len()
        } else {
            self.hybrid[n].arr.elems.len()
        };
        let rw = if tail {
            self.tail[n].rw
        } else {
            self.hybrid[n].rw
        };
        let ghost o = *self;
        let ghost e0 = if tail {
            o.tail@[n as int].arr.elems@
        } else {
            o.hybrid@[n as int].arr.elems@
        };
        let mut i: usize = 0;
        proof {
            assert(text_in(o.bytes_in@, o.byte_pos as nat, o.last_in, 0).0 =~= Seq::<u32>::empty());
            assert(Seq::<u32>::empty() + e0.subrange(0, count as int) =~= e0);
        }
        while i < count
            invariant
                i <= count,
                o == *old(self),
                tail == (*v is A16),
                !tail == (*v is A32),
                tail ==> n < o.tail@.len() && count == o.tail@[n as int].arr.elems@.len() && rw == o.tail@[n as int].rw,
                !tail ==> n < o.hybrid@.len() && count == o.hybrid@[n as int].arr.elems@.len() && rw == o.hybrid@[n as int].rw,
                e0.len() == count,
                self.wf(),
                text_frame(o, *self),
                ({
                    let t = text_in(o.bytes_in@, o.byte_pos as nat, o.last_in, i as nat);
                    &&& t.0.len() == i
                    &&& self.byte_pos as nat == t.1
                    &&& self.last_in == t.2
                    &&& tail ==> table_text_in(o.tail@, self.tail@, n as int, t.0 + e0.subrange(i as int, count as int))
                        && self.hybrid@ == o.hybrid@
                    &&& !tail ==> table_text_in(o.hybrid@, self.hybrid@, n as int, t.0 + e0.subrange(i as int, count as int))
                        && self.tail@ == o.tail@
                }),
            decreases count - i,
        {
            proof {
                lemma_text_in_step(o.bytes_in@, o.byte_pos as nat, o.last_in, (i + 1) as nat);
            }
            let x: u32 = if self.byte_pos < self.bytes_in.len() {
                let c = self.bytes_in[self.byte_pos];
                self.byte_pos = self.byte_pos + 1;
                let d = ((c as u32 + 256 - self.last_in as u32) % 256) as u32;
                self.last_in = c;
                d
            } else {
                256
            };
            let ghost prev = *self;
            if rw {
                if tail {
                    self.tail[n].arr.elems.set(i, x);
                    proof {
                        assert forall|k: int| 0 <= k < self.tail@.len() implies #[trigger] self.tail@[k].arr.wf()
                            && forall|j: int| 0 <= j < self.tail@[k].stack@.len() ==> #[trigger] self.tail@[k].stack@[j].wf() by {
                            assert(prev.tail@[k].arr.wf());
                        }
                    }
                } else {
                    self.hybrid[n].arr.elems.set(i, x);
                    proof {
                        assert forall|k: int| 0 <= k < self.hybrid@.len() implies #[trigger] self.hybrid@[k].arr.wf()
                            && forall|j: int| 0 <= j < self.hybrid@[k].stack@.len() ==> #[trigger] self.hybrid@[k].stack@[j].wf() by {
                            assert(prev.hybrid@[k].arr.wf());
                        }
                    }
                }
            }
            proof {
                let t0 = text_in(o.bytes_in@, o.byte_pos as nat, o.last_in, i as nat);
                let t1 = text_in(o.bytes_in@, o.byte_pos as nat, o.last_in, (i + 1) as nat);
                assert(t1.0 == t0.0.push(x));
                assert(t0.0.push(x) + e0.subrange(i + 1, count as int) =~= (t0.0 + e0.subrange(i as int, count as int)).update(i as int, x));
            }
            i = i + 1;
        }
        proof {
            let t = text_in(o.bytes_in@, o.byte_pos as nat, o.last_in, count as nat);
            assert(t.0 + e0.subrange(count as int, count as int) =~= t.0);
        }
        Ok(())
    }
}

proof fn lemma_text_in_step(bytes: Seq<u8>, pos: nat, last: u8, k: nat)
    requires
        k > 0,
    ensures
        text_in(bytes, pos, last, k).0.len() == k,
        ({
            let t = text_in(bytes, pos, last, (k - 1) as nat);
            text_in(bytes, pos, last, k) == if t.1 < bytes.len() {
                (t.0.push(((bytes[t.1 as int] as int + 256 - t.2 as int) % 256) as u32), t.1 + 1, bytes[t.1 as int])
            } else {
                (t.0.push(256u32), t.1, t.2)
            }
        }),
    decreases k,
{
    if k > 1 {
        lemma_text_in_step(bytes, pos, last, (k - 1) as nat);
    } else {
        assert(text_in(bytes, pos, last, 0).0.len() == 0);
    }
}

pub open spec fn unit_of(r: Result<StmtRes, RtError>) -> Result<(), RtError> {
    match r {
        Ok(_) => Ok(()),
        Err(e) => Err(e),
    }
}

/// Nothing observable changed.
pub open spec fn unchanged(o: State, n: State) -> bool {
    same_vars(o, n) && same_rest(o, n)
}

/// Popping for RESUME: the line of the NEXT popped last is where
/// execution goes back to.
pub open spec fn resume_rel(o: State, n: State, k: u32, r: Result<StmtRes, RtError>) -> bool {
    let len = o.jumps@.len();
    if k == 0 {
        r == Err::<StmtRes, RtError>(err(ErrCode::IE621))
    } else if len < k {
        r == Err::<StmtRes, RtError>(err(ErrCode::IE632))
    } else {
        &&& r == Ok::<StmtRes, RtError>(StmtRes::Back(o.jumps@[len - k] as usize))
        &&& n.jumps@ == o.jumps@.subrange(0, len - k)
        &&& same_but_jumps(o, n)
    }
}

/// Popping for FORGET: too many empties the stack, without error.
pub open spec fn forget_rel(o: State, n: State, k: u32, r: Result<StmtRes, RtError>) -> bool {
    let len = o.jumps@.len();
    if k == 0 {
        r == Err::<StmtRes, RtError>(err(ErrCode::IE621))
    } else {
        &&& r == Ok::<StmtRes, RtError>(StmtRes::Next)
        &&& n.jumps@ == if len < k {
            Seq::empty()
        } else {
            o.jumps@.subrange(0, len - k)
        }
        &&& same_but_jumps(o, n)
    }
}

/// The effect of executing a statement body, and what it asks of the
/// main loop.
pub open spec fn stmt_rel(p: Program, o: State, n: State, body: StmtBody, pc: usize, r: Result<StmtRes, RtError>) -> bool {
    let next = r.is_ok() ==> r == Ok::<StmtRes, RtError>(StmtRes::Next);
    match body {
        StmtBody::Error(e) => r == Err::<StmtRes, RtError>(e),
        StmtBody::Calc(v, e) => match eval_spec(o, e) {
            Err(x) => r == Err::<StmtRes, RtError>(x),
            Ok(x) => assign_rel(o, n, v, x, unit_of(r)) && next,
        },
        StmtBody::Dim(v, ds) => dim_rel(o, n, v, ds, unit_of(r)) && next,
        StmtBody::DoNext(l) => if p.labels@.contains_key(l) {
            if o.jumps@.len() >= MAX_NEXTS {
                r == Err::<StmtRes, RtError>(err(ErrCode::IE123)) && unchanged(o, n)
            } else {
                r == Ok::<StmtRes, RtError>(StmtRes::Jump(p.labels@[l] as usize)) && unchanged(o, n)
            }
        } else {
            r == Err::<StmtRes, RtError>(err(ErrCode::IE129)) && unchanged(o, n)
        },
        StmtBody::ComeFrom(_) => unchanged(o, n) && r == Ok::<StmtRes, RtError>(StmtRes::Next),
        StmtBody::Resume(e) => match eval_spec(o, e) {
            Err(x) => r == Err::<StmtRes, RtError>(x),
            Ok(x) => resume_rel(o, n, val_u32(x), r),
        },
        StmtBody::Forget(e) => match eval_spec(o, e) {
            Err(x) => r == Err::<StmtRes, RtError>(x),
            Ok(x) => forget_rel(o, n, val_u32(x), r),
        },
        StmtBody::Ignore(vs) => rw_rel(o, n, vs@, false, unit_of(r)) && next,
        StmtBody::Remember(vs) => rw_rel(o, n, vs@, true, unit_of(r)) && next,
        StmtBody::Stash(vs) => stash_rel(o, n, vs@, unit_of(r)) && next,
        StmtBody::Retrieve(vs) => retrieve_rel(o, n, vs@, unit_of(r)) && next,
        StmtBody::Abstain(None, ts) => abstain_rel(p, o, n, ts@, true, unit_of(r)) && next,
        StmtBody::Abstain(Some(e), ts) => match eval_spec(o, e) {
            Err(x) => r == Err::<StmtRes, RtError>(x),
            Ok(x) => if val_u32(x) == 0 {
                unchanged(o, n) && if labels_known(p, ts@) {
                    r == Ok::<StmtRes, RtError>(StmtRes::Next)
                } else {
                    r == Err::<StmtRes, RtError>(err(ErrCode::IE139))
                }
            } else {
                abstain_rel(p, o, n, ts@, true, unit_of(r)) && next
            },
        },
        StmtBody::Reinstate(ts) => abstain_rel(p, o, n, ts@, false, unit_of(r)) && next,
        StmtBody::WriteIn(vs) => writein_rel(o, n, vs@, unit_of(r)) && writein_frame(o, n) && next,
        StmtBody::ReadOut(es) => readout_rel(o, n, es@, unit_of(r)) && next,
        StmtBody::TryAgain => unchanged(o, n) && if o.jumps@.len() >= MAX_NEXTS {
            r == Err::<StmtRes, RtError>(err(ErrCode::IE123))
        } else {
            r == Ok::<StmtRes, RtError>(StmtRes::Jump(0))
        },
        StmtBody::GiveUp => unchanged(o, n) && r == Ok::<StmtRes, RtError>(StmtRes::End),
        StmtBody::Print(b) => {
            &&& r == Ok::<StmtRes, RtError>(StmtRes::Next)
            &&& n.output@ == o.output@ + bytes_out(b@)
            &&& same_vars(o, n)
            &&& n.jumps@ == o.jumps@
            &&& n.abstentions@ == o.abstentions@
            &&& n.last_out == o.last_out
            &&& n.last_in == o.last_in
            &&& n.stmt_ctr == o.stmt_ctr
            &&& n.numbers_in@ == o.numbers_in@
            &&& n.num_pos == o.num_pos
            &&& n.bytes_in@ == o.bytes_in@
            &&& n.byte_pos == o.byte_pos
        },
    }
}

/// Bytes as output items.
pub open spec fn bytes_out(b: Seq<u8>) -> Seq<Output> {
    Seq::new(b.len(), |i: int| Output::Byte(b[i]))
}

impl State {
    /// Executes one statement body.
    pub fn eval_stmt(&mut self, p: &Program, stmt: &Stmt, pc: usize) -> (r: Result<StmtRes, RtError>)
        requires
            old(self).wf(),
            program_wf(*p),
            old(self).abstentions@.len() == p.stmts@.len(),
            pc < p.stmts@.len(),
        ensures
            final(self).wf(),
            final(self).abstentions@.len() == old(self).abstentions@.len(),
            stmt_rel(*p, *old(self), *final(self), stmt.body, pc, r),
            r.is_err() ==> final(self).jumps@ == old(self).jumps@,
    {
        match &stmt.body {
            StmtBody::Error(e) => Err(*e),
            StmtBody::Calc(v, e) => {
                let x = self.eval_expr(e)?;
                self.assign(v, x)?;
                Ok(StmtRes::Next)
            },
            StmtBody::Dim(v, ds) => {
                self.array_dim(v, ds)?;
                Ok(StmtRes::Next)
            },
            StmtBody::DoNext(l) => {
                match p.labels.get(l) {
                    Some(i) => {
                        if self.jumps.len() >= MAX_NEXTS {
                            Err(new_err(ErrCode::IE123))
                        } else {
                            Ok(StmtRes::Jump(*i as usize))
                        }
                    },
                    None => Err(new_err(ErrCode::IE129)),
                }
            },
            StmtBody::ComeFrom(_) => Ok(StmtRes::Next),
            StmtBody::Resume(e) => {
                let k = val_to_u32(self.eval_expr(e)?);
                match self.pop_jumps(k, true)? {
                    Some(line) => Ok(StmtRes::Back(line as usize)),
                    None => Err(new_err(ErrCode::IE632)),
                }
            },
            StmtBody::Forget(e) => {
                let k = val_to_u32(self.eval_expr(e)?);
                self.pop_jumps(k, false)?;
                Ok(StmtRes::Next)
            },
            StmtBody::Ignore(vs) => {
                self.set_rw_all(vs, false)?;
                Ok(StmtRes::Next)
            },
            StmtBody::Remember(vs) => {
                self.set_rw_all(vs, true)?;
                Ok(StmtRes::Next)
            },
            StmtBody::Stash(vs) => {
                self.stash_all(vs)?;
                Ok(StmtRes::Next)
            },
            StmtBody::Retrieve(vs) => {
                self.retrieve_all(vs)?;
                Ok(StmtRes::Next)
            },
            StmtBody::Abstain(e, ts) => {
                if let Some(e) = e {
                    let k = val_to_u32(self.eval_expr(e)?);
                    if k == 0 {
                        if labels_ok(p, ts) {
                            return Ok(StmtRes::Next);
                        } else {
                            return Err(new_err(ErrCode::IE139));
                        }
                    }
                }
                self.abstain(p, ts, true)?;
                Ok(StmtRes::Next)
            },
            StmtBody::Reinstate(ts) => {
                self.abstain(p, ts, false)?;
                Ok(StmtRes::Next)
            },
            StmtBody::WriteIn(vs) => {
                self.writein_all(vs)?;
                Ok(StmtRes::Next)
            },
            StmtBody::ReadOut(es) => {
                self.readout_all(es)?;
                Ok(StmtRes::Next)
            },
            StmtBody::TryAgain => {
                if self.jumps.len() >= MAX_NEXTS {
                    Err(new_err(ErrCode::IE123))
                } else {
                    Ok(StmtRes::Jump(0))
                }
            },
            StmtBody::GiveUp => Ok(StmtRes::End),
            StmtBody::Print(b) => {
                let mut i: usize = 0;
                let ghost start = self.output@;
                while i < b.len()
                    invariant
                        i <= b@.len(),
                        self.output@ == start + bytes_out(b@.subrange(0, i as int)),
                        same_vars(*old(self), *self),
                        self.wf(),
                        start == old(self).output@,
                        self.jumps@ == old(self).jumps@,
                        self.abstentions@ == old(self).abstentions@,
                        self.last_out == old(self).last_out,
                        self.last_in == old(self).last_in,
                        self.stmt_ctr == old(self).stmt_ctr,
                        self.numbers_in@ == old(self).numbers_in@,
                        self.num_pos == old(self).num_pos,
                        self.bytes_in@ == old(self).bytes_in@,
                        self.byte_pos == old(self).byte_pos,
                    decreases b@.len() - i,
                {
                    self.output.push(Output::Byte(b[i]));
                    i = i + 1;
                    proof {
                        assert(start + bytes_out(b@.subrange(0, i as int)) =~= (start + bytes_out(
                            b@.subrange(0, i - 1),
                        )).push(Output::Byte(b@[i - 1])));
                    }
                }
                proof {
                    assert(b@.subrange(0, b@.len() as int) =~= b@);
                }
                Ok(StmtRes::Next)
            },
        }
    }
}

/// A seedable pseudo-random source for execution chances (xorshift).
pub struct Rng {
    pub state: u64,
}

pub open spec fn xorshift(x: u64) -> u64 {
    let a = x ^ (x << 13u64);
    let b = a ^ (a >> 7u64);
    b ^ (b << 17u64)
}

/// The percentile drawn from a generator state.
pub open spec fn percent_of(x: u64) -> u8 {
    (xorshift(x) % 100) as u8
}

impl Rng {
    /// A generator from a seed; zero, which the shift would never leave,
    /// is replaced by a fixed odd constant.
    pub fn new(seed: u64) -> (r: Rng)
        ensures
            r.state == if seed == 0 { 0x9E37_79B9_7F4A_7C15u64 } else { seed },
    {
        Rng { state: if seed == 0 { 0x9E37_79B9_7F4A_7C15u64 } else { seed } }
    }

    /// Draws a percentile, 0 to 99.
    pub fn next_percent(&mut self) -> (r: u8)
        ensures
            final(self).state == xorshift(old(self).state),
            r == percent_of(old(self).state),
            r < 100,
    {
        let x = self.state;
        let a = x ^ (x << 13u64);
        let b = a ^ (a >> 7u64);
        let c = b ^ (b << 17u64);
        self.state = c;
        (c % 100) as u8
    }
}

/// What one step of the main loop did.
#[derive(Clone, Copy, PartialEq, Eq, Structural, Debug)]
pub enum Flow {
    /// The statement was abstained from, or lost its chance draw.
    Skipped,
    /// The statement ran and asked for this.
    Ran(StmtRes),
}

/// Statement `j` is a COME FROM given by a gerund or an expression that
/// matches line `i` in state `st`, and is not abstained from: the gerund
/// names the kind of line `i`, or the expression evaluates to its label.
pub open spec fn dyn_match(p: Program, st: State, i: int, j: int) -> bool {
    &&& !st.abstentions@[j]
    &&& match p.stmts@[j].body {
        StmtBody::ComeFrom(ComeFrom::Gerund(g)) => p.stmt_types@[i] == g,
        StmtBody::ComeFrom(ComeFrom::Expr(e)) => p.stmts@[i].props.label != 0 && match eval_spec(st, e) {
            Ok(v) => val_u32(v) == p.stmts@[i].props.label as u32,
            Err(_) => false,
        },
        _ => false,
    }
}

/// The first of the first `k` statements that matches line `i` as a
/// gerund or expression COME FROM.
pub open spec fn dyn_come_from(p: Program, st: State, i: int, k: int) -> Option<int>
    decreases k,
{
    if k <= 0 {
        None
    } else {
        match dyn_come_from(p, st, i, k - 1) {
            Some(j) => Some(j),
            None => if dyn_match(p, st, i, k - 1) {
                Some(k - 1)
            } else {
                None
            },
        }
    }
}

proof fn lemma_dyn_persists(p: Program, st: State, i: int, k: int, n: int)
    requires
        0 <= k <= n,
        dyn_come_from(p, st, i, k).is_some(),
    ensures
        dyn_come_from(p, st, i, n) == dyn_come_from(p, st, i, k),
    decreases n - k,
{
    if k < n {
        lemma_dyn_persists(p, st, i, k, n - 1);
    }
}

/// Where execution goes after line `i`: to the COME FROM bound to its
/// label, unless that COME FROM is abstained; for a line with none, and a
/// program with gerund or expression COME FROMs, to the first of those
/// that matches; else to the next line.
pub open spec fn after_come_from(p: Program, st: State, i: int) -> int {
    match p.stmts@[i].comefrom {
        Some(t) => if !st.abstentions@[t as int] {
            t as int
        } else {
            i + 1
        },
        None => if p.uses_complex_comefrom {
            match dyn_come_from(p, st, i, p.stmts@.len() as int) {
                Some(j) => j,
                None => i + 1,
            }
        } else {
            i + 1
        },
    }
}

/// The line after a statement at `pc` that asked for `res`: a NEXT goes
/// straight to its target, a RESUME goes back and then checks for a COME
/// FROM.
pub open spec fn next_pc(p: Program, st: State, pc: int, res: StmtRes) -> int {
    match res {
        StmtRes::Next => after_come_from(p, st, pc),
        StmtRes::Jump(i) => i as int,
        StmtRes::Back(i) => after_come_from(p, st, i as int),
        StmtRes::End => pc,
    }
}

/// The state with one more statement counted.
pub open spec fn counted(st: State) -> State {
    State { stmt_ctr: if st.stmt_ctr < usize::MAX { (st.stmt_ctr + 1) as usize } else { st.stmt_ctr }, ..st }
}

/// A program under execution.
pub struct Eval {
    pub program: Program,
    pub state: State,
    /// The logical line about to execute.
    pub pc: usize,
}

/// A fresh variable binding.
pub fn fresh_bind() -> (r: Bind)
    ensures
        r.val == 0,
        r.stack@.len() == 0,
        r.rw,
{
    Bind { val: 0, stack: Vec::new(), rw: true }
}

/// A fresh array binding, never dimensioned.
pub fn fresh_arr_bind() -> (r: ArrBind)
    ensures
        r.arr.wf(),
        r.arr.dims@.len() == 0,
        r.stack@.len() == 0,
        r.rw,
{
    ArrBind { arr: Array::empty(), stack: Vec::new(), rw: true }
}

/// What one step of the main loop does, from interpreter `a` and
/// generator `ga` to `b` and `gb`, giving `r`.
pub open spec fn step_ok(a: Eval, ga: Rng, b: Eval, gb: Rng, r: Result<Flow, RtError>) -> bool {
    let p = a.program;
    let n = p.stmts@.len();
    let pc = a.pc as int;
    &&& b.wf()
    &&& b.program == a.program
    &&& if pc >= n {
        &&& r == Err::<Flow, RtError>(RtError { code: ErrCode::IE663, line: n as usize })
        &&& gb == ga
    } else if pc == p.bugline as int {
        &&& r == Err::<Flow, RtError>(RtError { code: ErrCode::IE774, line: p.stmts@[pc].props.srcline })
        &&& gb == ga
        &&& b == a
    } else {
        let s = p.stmts@[pc];
        let mid = counted(a.state);
        let gated = !a.state.abstentions@[pc];
        let drawn = gated && s.props.chance < 100;
        let run = gated && (!drawn || percent_of(ga.state) < s.props.chance);
        &&& gb.state == if drawn { xorshift(ga.state) } else { ga.state }
        &&& !run ==> {
            &&& r == Ok::<Flow, RtError>(Flow::Skipped)
            &&& b.state == mid
            &&& b.pc as int == after_come_from(p, mid, pc)
        }
        &&& run ==> match r {
            Ok(Flow::Ran(res)) => {
                &&& b.pc as int == next_pc(p, b.state, pc, res)
                &&& match res {
                    StmtRes::Jump(_) => {
                        &&& stmt_rel(p, mid, mid, s.body, pc as usize, Ok(res))
                        &&& b.state.jumps@ == mid.jumps@.push(pc as u16)
                        &&& same_but_jumps(mid, b.state)
                    },
                    _ => stmt_rel(p, mid, b.state, s.body, pc as usize, Ok(res)),
                }
            },
            Ok(Flow::Skipped) => false,
            Err(e) => e.line == s.props.srcline && exists|l: usize|
                stmt_rel(p, mid, b.state, s.body, pc as usize, Err(RtError { code: e.code, line: l })),
        }
    }
}

/// A scalar binding as a run starts: zero, nothing stashed, not IGNOREd.
pub open spec fn fresh_scalar(b: Bind) -> bool {
    b.val == 0 && b.stack@.len() == 0 && b.rw
}

/// An array binding as a run starts: never dimensioned, nothing stashed,
/// not IGNOREd.
pub open spec fn fresh_array(b: ArrBind) -> bool {
    b.arr.dims@.len() == 0 && b.arr.elems@.len() == 0 && b.stack@.len() == 0 && b.rw
}

/// `e` is the interpreter at the start of a run of `p` with the given
/// input: first statement, empty NEXT stack and output, fresh variables
/// for every table entry, abstention flags from the statements' NOT.
pub open spec fn fresh_eval(e: Eval, p: Program, nums: Seq<u32>, bytes: Seq<u8>) -> bool {
    &&& e.wf()
    &&& e.pc == 0
    &&& e.program == p
    &&& e.state.jumps@.len() == 0
    &&& e.state.output@.len() == 0
    &&& e.state.stmt_ctr == 0
    &&& e.state.numbers_in@ == nums
    &&& e.state.bytes_in@ == bytes
    &&& e.state.num_pos == 0 && e.state.byte_pos == 0
    &&& e.state.last_in == 0 && e.state.last_out == 0
    &&& forall|i: int| 0 <= i < p.stmts@.len() ==> #[trigger] e.state.abstentions@[i] == p.stmts@[i].props.disabled
    &&& e.state.spot@.len() == p.var_info.0@.len()
    &&& e.state.twospot@.len() == p.var_info.1@.len()
    &&& e.state.tail@.len() == p.var_info.2@.len()
    &&& e.state.hybrid@.len() == p.var_info.3@.len()
    &&& forall|i: int| 0 <= i < e.state.spot@.len() ==> #[trigger] fresh_scalar(e.state.spot@[i])
    &&& forall|i: int| 0 <= i < e.state.twospot@.len() ==> #[trigger] fresh_scalar(e.state.twospot@[i])
    &&& forall|i: int| 0 <= i < e.state.tail@.len() ==> #[trigger] fresh_array(e.state.tail@[i])
    &&& forall|i: int| 0 <= i < e.state.hybrid@.len() ==> #[trigger] fresh_array(e.state.hybrid@[i])
}

impl Eval {
    /// The interpreter's invariant: a well-formed program, one abstention
    /// flag per statement, and NEXT stack entries that are statements.
    pub open spec fn wf(&self) -> bool {
        &&& program_wf(self.program)
        &&& self.state.wf()
        &&& self.state.abstentions@.len() == self.program.stmts@.len()
        &&& forall|j: int| 0 <= j < self.state.jumps@.len() ==> (#[trigger] self.state.jumps@[j] as int) < self.program.stmts@.len()
    }

    /// An interpreter at the first statement, with every variable zero and
    /// the abstention flags taken from the statements' NOT.
    pub fn new(program: Program, numbers_in: Vec<u32>, bytes_in: Vec<u8>) -> (r: Eval)
        requires
            program_wf(program),
        ensures
            fresh_eval(r, program, numbers_in@, bytes_in@),
    {
        let mut abst: Vec<bool> = Vec::new();
        let mut i: usize = 0;
        while i < program.stmts.len()
            invariant
                i <= program.stmts@.len(),
                abst@.len() == i,
                forall|j: int| 0 <= j < i ==> #[trigger] abst@[j] == program.stmts@[j].props.disabled,
            decreases program.stmts@.len() - i,
        {
            abst.push(program.stmts[i].props.disabled);
            i = i + 1;
        }
        let mut spot: Vec<Bind> = Vec::new();
        let mut i: usize = 0;
        while i < program.var_info.0.len()
            invariant
                i <= program.var_info.0@.len(),
                spot@.len() == i,
                forall|j: int| 0 <= j < i ==> #[trigger] fresh_scalar(spot@[j]),
            decreases program.var_info.0@.len() - i,
        {
            spot.push(fresh_bind());
            i = i + 1;
        }
        let mut twospot: Vec<Bind> = Vec::new();
        let mut i: usize = 0;
        while i < program.var_info.1.len()
            invariant
                i <= program.var_info.1@.len(),
                twospot@.len() == i,
                forall|j: int| 0 <= j < i ==> #[trigger] fresh_scalar(twospot@[j]),
            decreases program.var_info.1@.len() - i,
        {
            twospot.push(fresh_bind());
            i = i + 1;
        }
        let mut tail: Vec<ArrBind> = Vec::new();
        let mut i: usize = 0;
        while i < program.var_info.2.len()
            invariant
                i <= program.var_info.2@.len(),
                tail@.len() == i,
                arrays_wf(tail@),
                forall|j: int| 0 <= j < i ==> #[trigger] fresh_array(tail@[j]),
            decreases program.var_info.2@.len() - i,
        {
            tail.push(fresh_arr_bind());
            i = i + 1;
        }
        let mut hybrid: Vec<ArrBind> = Vec::new();
        let mut i: usize = 0;
        while i < program.var_info.3.len()
            invariant
                i <= program.var_info.3@.len(),
                hybrid@.len() == i,
                arrays_wf(hybrid@),
                forall|j: int| 0 <= j < i ==> #[trigger] fresh_array(hybrid@[j]),
            decreases program.var_info.3@.len() - i,
        {
            hybrid.push(fresh_arr_bind());
            i = i + 1;
        }
        let state = State {
            spot,
            twospot,
            tail,
            hybrid,
            jumps: Vec::new(),
            abstentions: abst,
            last_in: 0,
            last_out: 0,
            stmt_ctr: 0,
            numbers_in,
            num_pos: 0,
            bytes_in,
            byte_pos: 0,
            output: Vec::new(),
        };
        Eval { program, state, pc: 0 }
    }

    /// Executes the statement at the current line, unless it is abstained
    /// from or loses its chance draw, and moves to the next line. The
    /// generator is drawn from exactly when the statement is not abstained
    /// and has a chance below 100.
    pub fn step(&mut self, rng: &mut Rng) -> (r: Result<Flow, RtError>)
        requires
            old(self).wf(),
        ensures
            final(self).wf(),
            final(self).program == old(self).program,
            step_ok(*old(self), *old(rng), *final(self), *final(rng), r),
    {
        let n = self.program.stmts.len();
        if self.pc >= n {
            return Err(with_line(ErrCode::IE663, n));
        }
        let pc = self.pc;
        if pc == self.program.bugline as usize {
            return Err(with_line(ErrCode::IE774, self.program.stmts[pc].props.srcline));
        }
        if self.state.stmt_ctr < usize::MAX {
            self.state.stmt_ctr = self.state.stmt_ctr + 1;
        }
        proof {
            assert(self.state == counted(old(self).state));
        }
        let mut run = !self.state.abstentions[pc];
        if run && self.program.stmts[pc].props.chance < 100 {
            let d = rng.next_percent();
            run = d < self.program.stmts[pc].props.chance;
        }
        if !run {
            self.pc = self.come_from_next(pc);
            return Ok(Flow::Skipped);
        }
        let ghost mid = self.state;
        let res = match self.state.eval_stmt(&self.program, &self.program.stmts[pc], pc) {
            Err(e0) => {
                let mut e = e0;
                e.set_line(self.program.stmts[pc].props.srcline);
                proof {
                    assert(RtError { code: e.code, line: e0.line } == e0);
                }
                return Err(e);
            },
            Ok(res) => res,
        };
        proof {
            assert forall|j: int| 0 <= j < self.state.jumps@.len() implies (#[trigger] self.state.jumps@[j] as int) < self.program.stmts@.len() by {
                if j < mid.jumps@.len() {
                    assert((mid.jumps@[j] as int) < self.program.stmts@.len());
                }
            }
        }
        match res {
            StmtRes::Next => {
                self.pc = self.come_from_next(pc);
            },
            StmtRes::Jump(i) => {
                proof {
                    assert(stmt_rel(self.program, mid, mid, self.program.stmts@[pc as int].body, pc, Ok(res)));
                }
                self.state.jumps.push(pc as u16);
                self.pc = i;
            },
            StmtRes::Back(i) => {
                self.pc = self.come_from_next(i);
            },
            StmtRes::End => {},
        }
        Ok(Flow::Ran(res))
    }

    /// The line after `i`, taking its COME FROM into account.
    fn come_from_next(&self, i: usize) -> (r: usize)
        requires
            self.wf(),
            i < self.program.stmts@.len(),
        ensures
            r as int == after_come_from(self.program, self.state, i as int),
    {
        match self.program.stmts[i].comefrom {
            Some(t) => {
                if !self.state.abstentions[t as usize] {
                    t as usize
                } else {
                    i + 1
                }
            },
            None => {
                if !self.program.uses_complex_comefrom {
                    return i + 1;
                }
                let n = self.program.stmts.len();
                let mut j: usize = 0;
                while j < n
                    invariant
                        self.wf(),
                        j <= n,
                        i < n,
                        n == self.program.stmts@.len(),
                        dyn_come_from(self.program, self.state, i as int, j as int).is_none(),
                        self.program.stmts@[i as int].comefrom.is_none(),
                        self.program.uses_complex_comefrom,
                    decreases n - j,
                {
                    if self.dyn_matches(i, j) {
                        proof {
                            assert(dyn_come_from(self.program, self.state, i as int, j + 1) == Some(j as int));
                            lemma_dyn_persists(self.program, self.state, i as int, j + 1, n as int);
                            assert(self.program.stmts@[i as int].comefrom.is_none());
                            assert(self.program.uses_complex_comefrom);
                            assert(dyn_come_from(self.program, self.state, i as int, self.program.stmts@.len() as int) == Some(j as int));
                            assert(after_come_from(self.program, self.state, i as int) == j as int);
                        }
                        return j;
                    }
                    j = j + 1;
                }
                i + 1
            },
        }
    }

    fn dyn_matches(&self, i: usize, j: usize) -> (r: bool)
        requires
            self.wf(),
            i < self.program.stmts@.len(),
            j < self.program.stmts@.len(),
        ensures
            r == dyn_match(self.program, self.state, i as int, j as int),
    {
        if self.state.abstentions[j] {
            return false;
        }
        match &self.program.stmts[j].body {
            StmtBody::ComeFrom(ComeFrom::Gerund(g)) => self.program.stmt_types[i] == *g,
            StmtBody::ComeFrom(ComeFrom::Expr(e)) => {
                let l = self.program.stmts[i].props.label;
                if l == 0 {
                    return false;
                }
                match self.state.eval_expr(e) {
                    Ok(v) => val_to_u32(v) == l as u32,
                    Err(_) => false,
                }
            },
            _ => false,
        }
    }

    /// Runs at most `limit` steps. Gives the number of statements counted
    /// once the program GIVEs UP, nothing if the limit came first, or the
    /// error that stopped it.
    pub fn eval(&mut self, rng: &mut Rng, limit: usize) -> (r: Result<Option<usize>, RtError>)
        requires
            old(self).wf(),
        ensures
            final(self).wf(),
            final(self).program == old(self).program,
            run_ok(*old(self), *old(rng), limit as nat, *final(self), *final(rng), r),
            r matches Ok(Some(c)) ==> c == final(self).state.stmt_ctr,
            r matches Ok(Some(_)) ==> final(self).pc < final(self).program.stmts@.len()
                && final(self).program.stmts@[final(self).pc as int].body is GiveUp,
    {
        let ghost mut es: Seq<Eval> = seq![*self];
        let ghost mut gs: Seq<Rng> = seq![*rng];
        let ghost mut fs: Seq<Flow> = Seq::empty();
        let mut k: usize = 0;
        while k < limit
            invariant
                self.wf(),
                self.program == old(self).program,
                k <= limit,
                fs.len() == k,
                trace_ok(es, gs, fs),
                es[0] == *old(self),
                gs[0] == *old(rng),
                es.last() == *self,
                gs.last() == *rng,
                no_end(fs, fs.len() as int),
            decreases limit - k,
        {
            let ghost pc0 = self.pc;
            let ghost a = *self;
            let ghost ga = *rng;
            match self.step(rng) {
                Err(e) => {
                    proof {
                        assert(run_trace(es[0], gs[0], limit as nat, *self, *rng, Err(e), es, gs, fs));
                    }
                    return Err(e);
                },
                Ok(f) => {
                    proof {
                        let es2 = es.push(*self);
                        let gs2 = gs.push(*rng);
                        let fs2 = fs.push(f);
                        assert forall|i: int| 0 <= i < fs2.len() implies #[trigger] step_ok(
                            es2[i],
                            gs2[i],
                            es2[i + 1],
                            gs2[i + 1],
                            Ok::<Flow, RtError>(fs2[i]),
                        ) by {
                            if i < fs.len() {
                                assert(step_ok(es[i], gs[i], es[i + 1], gs[i + 1], Ok::<Flow, RtError>(fs[i])));
                            }
                        }
                        es = es2;
                        gs = gs2;
                        fs = fs2;
                    }
                    if f == Flow::Ran(StmtRes::End) {
                        proof {
                            assert(self.pc == pc0);
                            assert(run_trace(es[0], gs[0], limit as nat, *self, *rng, Ok(Some(self.state.stmt_ctr)), es, gs, fs));
                        }
                        return Ok(Some(self.state.stmt_ctr));
                    }
                },
            }
            k = k + 1;
        }
        proof {
            assert(run_trace(es[0], gs[0], limit as nat, *self, *rng, Ok(None), es, gs, fs));
        }
        Ok(None)
    }
}

/// A run of `fs.len()` steps through interpreters `es` and generators `gs`,
/// the step from `es[i]` giving `fs[i]`.
pub open spec fn trace_ok(es: Seq<Eval>, gs: Seq<Rng>, fs: Seq<Flow>) -> bool {
    &&& es.len() == fs.len() + 1
    &&& gs.len() == fs.len() + 1
    &&& forall|i: int|
        0 <= i < fs.len() ==> #[trigger] step_ok(es[i], gs[i], es[i + 1], gs[i + 1], Ok::<Flow, RtError>(fs[i]))
}

/// None of the first `k` steps gave up.
pub open spec fn no_end(fs: Seq<Flow>, k: int) -> bool {
    forall|i: int| 0 <= i < k ==> #[trigger] fs[i] != Flow::Ran(StmtRes::End)
}

/// The trace witnesses a bounded run from `a` to `b` with result `r`: it
/// gives up at its last step, or takes all `limit` steps, or stops at an
/// error, which the step after the trace raised.
pub open spec fn run_trace(
    a: Eval,
    ga: Rng,
    limit: nat,
    b: Eval,
    gb: Rng,
    r: Result<Option<usize>, RtError>,
    es: Seq<Eval>,
    gs: Seq<Rng>,
    fs: Seq<Flow>,
) -> bool {
    &&& trace_ok(es, gs, fs)
    &&& es[0] == a
    &&& gs[0] == ga
    &&& match r {
        Ok(Some(c)) => {
            &&& 1 <= fs.len() <= limit
            &&& fs.last() == Flow::Ran(StmtRes::End)
            &&& no_end(fs, fs.len() - 1)
            &&& b == es.last()
            &&& gb == gs.last()
            &&& c == b.state.stmt_ctr
        },
        Ok(None) => {
            &&& fs.len() == limit
            &&& no_end(fs, fs.len() as int)
            &&& b == es.last()
            &&& gb == gs.last()
        },
        Err(e) => {
            &&& fs.len() < limit
            &&& no_end(fs, fs.len() as int)
            &&& step_ok(es.last(), gs.last(), b, gb, Err(e))
        },
    }
}

/// Running from `a` with generator `ga` for at most `limit` steps ends in
/// `b` and `gb` with result `r`.
pub open spec fn run_ok(a: Eval, ga: Rng, limit: nat, b: Eval, gb: Rng, r: Result<Option<usize>, RtError>) -> bool {
    exists|es: Seq<Eval>, gs: Seq<Rng>, fs: Seq<Flow>| run_trace(a, ga, limit, b, gb, r, es, gs, fs)
}

/// Once a subscript fails, the whole list fails with that error.
proof fn lemma_subs_err_persists(st: State, s: Vec<Expr>, k: int, n: int)
    requires
        1 <= k <= n <= s@.len(),
        subs_spec(st, s, k).is_err(),
    ensures
        subs_spec(st, s, n) == subs_spec(st, s, k),
    decreases n - k,
{
    if k < n {
        lemma_subs_err_persists(st, s, k, n - 1);
    }
}

/// The unsigned value of a value of either width.
pub fn val_to_u32(v: Val) -> (r: u32)
    ensures
        r == val_u32(v),
{
    match v {
        Val::I16(x) => x as u32,
        Val::I32(x) => x,
    }
}

fn apply_rs(e: &Expr, x: u32, y: u32) -> (r: u32)
    ensures
        r == rs_apply(*e, x, y),
{
    match e {
        Expr::RsAnd(..) => x & y,
        Expr::RsOr(..) => x | y,
        Expr::RsXor(..) => x ^ y,
        Expr::RsRshift(..) => if y >= 32 {
            0
        } else {
            x >> y
        },
        Expr::RsLshift(..) => if y >= 32 {
            0
        } else {
            x << y
        },
        Expr::RsNotEqual(..) => if x != y {
            1
        } else {
            0
        },
        Expr::RsPlus(..) => ((x as u64 + y as u64) % 0x1_0000_0000) as u32,
        _ => ((x as u64 + 0x1_0000_0000 - y as u64) % 0x1_0000_0000) as u32,
    }
}

/// Throughout execution there is one abstention flag per statement and the
/// NEXT stack holds at most 80 entries.
pub proof fn lemma_run_bounds(e: Eval)
    requires
        e.wf(),
    ensures
        e.state.abstentions@.len() == e.program.stmts@.len(),
        e.state.jumps@.len() <= MAX_NEXTS,
{
}

/// The COME FROM rules of the main loop: landing on a line bound to a COME
/// FROM goes there once, unless that COME FROM is abstained from; a NEXT
/// goes to its target without checking the COME FROM of its own line; a
/// RESUME goes back to the NEXT's line and checks that line's COME FROM.
pub proof fn lemma_come_from_rules(p: Program, st: State, pc: int, i: usize)
    requires
        0 <= pc < p.stmts@.len(),
    ensures
        match p.stmts@[pc].comefrom {
            Some(t) => if !st.abstentions@[t as int] {
                after_come_from(p, st, pc) == t as int
            } else {
                after_come_from(p, st, pc) == pc + 1
            },
            None => !p.uses_complex_comefrom ==> after_come_from(p, st, pc) == pc + 1,
        },
        next_pc(p, st, pc, StmtRes::Jump(i)) == i as int,
        next_pc(p, st, pc, StmtRes::Back(i)) == after_come_from(p, st, i as int),
        next_pc(p, st, pc, StmtRes::Next) == after_come_from(p, st, pc),
{
}

/// Over every step of a run: the generator is drawn at most once, and not
/// at all for an abstained statement (P12 form); a statement that is
/// skipped or goes on deflects to its line's COME FROM exactly as
/// `after_come_from` says, once (P6 form); a NEXT goes to its target and
/// pushes its own line without the COME FROM check, and a RESUME goes back
/// and then checks the COME FROM of the line it returns to (P7 form).
pub proof fn lemma_run_laws(
    a: Eval,
    ga: Rng,
    limit: nat,
    b: Eval,
    gb: Rng,
    r: Result<Option<usize>, RtError>,
    es: Seq<Eval>,
    gs: Seq<Rng>,
    fs: Seq<Flow>,
)
    requires
        run_trace(a, ga, limit, b, gb, r, es, gs, fs),
    ensures
        forall|k: int|
            0 <= k < fs.len() ==> {
                &&& #[trigger] gs[k + 1].state == gs[k].state || gs[k + 1].state == xorshift(gs[k].state)
                &&& es[k].state.abstentions@[es[k].pc as int] ==> gs[k + 1] == gs[k]
                &&& es[k + 1].program == es[k].program
            },
        forall|k: int|
            0 <= k < fs.len() && (fs[k] == Flow::Skipped || fs[k] == Flow::Ran(StmtRes::Next)) ==> (
            #[trigger] es[k + 1]).pc as int == after_come_from(es[k].program, es[k + 1].state, es[k].pc as int),
        forall|k: int|
            0 <= k < fs.len() ==> match #[trigger] fs[k] {
                Flow::Ran(StmtRes::Jump(i)) => es[k + 1].pc == i && es[k + 1].state.jumps@
                    == es[k].state.jumps@.push(es[k].pc as u16),
                Flow::Ran(StmtRes::Back(i)) => es[k + 1].pc as int == after_come_from(
                    es[k].program,
                    es[k + 1].state,
                    i as int,
                ),
                _ => true,
            },
{
    assert forall|k: int| 0 <= k < fs.len() implies {
        &&& #[trigger] gs[k + 1].state == gs[k].state || gs[k + 1].state == xorshift(gs[k].state)
        &&& es[k].state.abstentions@[es[k].pc as int] ==> gs[k + 1] == gs[k]
        &&& es[k + 1].program == es[k].program
    } by {
        assert(step_ok(es[k], gs[k], es[k + 1], gs[k + 1], Ok::<Flow, RtError>(fs[k])));
    }
    assert forall|k: int|
        0 <= k < fs.len() && (fs[k] == Flow::Skipped || fs[k] == Flow::Ran(StmtRes::Next)) implies (
        #[trigger] es[k + 1]).pc as int == after_come_from(es[k].program, es[k + 1].state, es[k].pc as int) by {
        assert(step_ok(es[k], gs[k], es[k + 1], gs[k + 1], Ok::<Flow, RtError>(fs[k])));
    }
    assert forall|k: int| 0 <= k < fs.len() implies match #[trigger] fs[k] {
        Flow::Ran(StmtRes::Jump(i)) => es[k + 1].pc == i && es[k + 1].state.jumps@
            == es[k].state.jumps@.push(es[k].pc as u16),
        Flow::Ran(StmtRes::Back(i)) => es[k + 1].pc as int == after_come_from(
            es[k].program,
            es[k + 1].state,
            i as int,
        ),
        _ => true,
    } by {
        assert(step_ok(es[k], gs[k], es[k + 1], gs[k + 1], Ok::<Flow, RtError>(fs[k])));
    }
}

} // verus!
