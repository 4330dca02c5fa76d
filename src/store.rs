//! Variable storage: scalar and array bindings, each with its stack of
//! stashed values and its IGNORE flag, and array subscript arithmetic.

use vstd::prelude::*;

use crate::err::{ErrCode, RtError, new_err};

verus! {

/// A scalar variable: its value, the values stashed, and whether it
/// accepts assignment (false while IGNOREd).
pub struct Bind {
    pub val: u32,
    pub stack: Vec<u32>,
    pub rw: bool,
}

/// An array: its dimensions and its elements, the first subscript
/// varying fastest.
pub struct Array {
    pub dims: Vec<usize>,
    pub elems: Vec<u32>,
}

/// An array variable with its stashed copies and its IGNORE flag.
pub struct ArrBind {
    pub arr: Array,
    pub stack: Vec<Array>,
    pub rw: bool,
}

/// The product of the first `k` dimensions.
pub open spec fn dims_prod(d: Seq<usize>, k: int) -> nat
    decreases k,
{
    if k <= 0 {
        1
    } else {
        dims_prod(d, k - 1) * (d[k - 1] as nat)
    }
}

/// Subscripts that match the array's rank and lie within its dimensions
/// (one-based).
pub open spec fn subs_ok(d: Seq<usize>, s: Seq<u32>) -> bool {
    &&& s.len() > 0
    &&& d.len() == s.len()
    &&& forall|i: int| 0 <= i < s.len() ==> 1 <= #[trigger] s[i] && s[i] as int <= d[i] as int
}

/// The position of the element named by the first `k` subscripts:
/// the sum of `(s_i - 1)` times the product of the dimensions before `i`.
pub open spec fn flat_index(d: Seq<usize>, s: Seq<u32>, k: int) -> int
    decreases k,
{
    if k <= 0 {
        0
    } else {
        flat_index(d, s, k - 1) + (s[k - 1] - 1) * dims_prod(d, k - 1)
    }
}

impl Array {
    /// The element count matches the dimensions (an array never dimensioned
    /// has none of either).
    pub open spec fn wf(&self) -> bool {
        if self.dims@.len() == 0 {
            self.elems@.len() == 0
        } else {
            self.elems@.len() == dims_prod(self.dims@, self.dims@.len() as int)
        }
    }

    /// An array never dimensioned.
    pub fn empty() -> (r: Array)
        ensures
            r.wf(),
            r.dims@.len() == 0,
            r.elems@.len() == 0,
    {
        Array { dims: Vec::new(), elems: Vec::new() }
    }

    /// A copy of the array.
    pub fn copy(&self) -> (r: Array)
        ensures
            r.dims@ == self.dims@,
            r.elems@ == self.elems@,
    {
        Array { dims: copy_vec(&self.dims), elems: copy_vec(&self.elems) }
    }

    /// The element at the given subscripts, or the subscript error.
    pub fn get(&self, s: &Vec<u32>) -> (r: Result<u32, RtError>)
        requires
            self.wf(),
        ensures
            r == array_get(*self, s@),
    {
        let total = self.elems.len();
        match self.index_of(s) {
            Some(i) => {
                proof {
                    assert(subs_ok(self.dims@, s@));
                }
                Ok(self.elems[i])
            },
            None => {
                Err(new_err(ErrCode::IE241))
            },
        }
    }

    /// Where the given subscripts point, if they are valid.
    pub fn index_of(&self, s: &Vec<u32>) -> (r: Option<usize>)
        requires
            self.wf(),
        ensures
            subs_ok(self.dims@, s@) ==> r == Some(flat_index(self.dims@, s@, s@.len() as int) as usize)
                && 0 <= flat_index(self.dims@, s@, s@.len() as int) < self.elems@.len(),
            !subs_ok(self.dims@, s@) ==> r.is_none(),
    {
        let n = s.len();
        if n == 0 || n != self.dims.len() {
            return None;
        }
        let mut i: usize = 0;
        while i < n
            invariant
                i <= n,
                n == s@.len(),
                n == self.dims@.len(),
                forall|j: int| 0 <= j < i ==> 1 <= #[trigger] s@[j] && s@[j] as int <= self.dims@[j] as int,
            decreases n - i,
        {
            if s[i] < 1 || s[i] as usize > self.dims[i] {
                return None;
            }
            i = i + 1;
        }
        proof {
            assert(subs_ok(self.dims@, s@));
            lemma_prod_monotone(self.dims@, s@, n as int);
        }
        let total = self.elems.len();
        let mut idx: usize = 0;
        let mut mult: usize = 1;
        let mut k: usize = 0;
        while k < n
            invariant
                k <= n,
                n == s@.len(),
                n == self.dims@.len(),
                n > 0,
                subs_ok(self.dims@, s@),
                self.elems@.len() == dims_prod(self.dims@, n as int),
                total == self.elems@.len(),
                mult == dims_prod(self.dims@, k as int),
                idx == flat_index(self.dims@, s@, k as int),
                forall|j: int| 0 <= j <= n ==> dims_prod(self.dims@, j) <= dims_prod(self.dims@, n as int),
            decreases n - k,
        {
            proof {
                lemma_flat_below(self.dims@, s@, (k + 1) as int);
                assert(dims_prod(self.dims@, k + 1) <= dims_prod(self.dims@, n as int));
                let m = mult as int;
                let sk = s@[k as int] as int;
                let dk = self.dims@[k as int] as int;
                assert(1 <= sk <= dk);
                assert((sk - 1) * m <= m * dk) by (nonlinear_arith)
                    requires
                        1 <= sk <= dk,
                        m >= 0,
                ;
                assert(dims_prod(self.dims@, k + 1) == m * dk);
                assert(idx + (sk - 1) * m == flat_index(self.dims@, s@, k + 1));
            }
            idx = idx + (s[k] as usize - 1) * mult;
            mult = mult * self.dims[k];
            k = k + 1;
        }
        proof {
            lemma_flat_below(self.dims@, s@, n as int);
        }
        Some(idx)
    }
}

/// The element named by the subscripts, or the subscript error.
pub open spec fn array_get(a: Array, s: Seq<u32>) -> Result<u32, RtError> {
    if subs_ok(a.dims@, s) {
        Ok(a.elems@[flat_index(a.dims@, s, s.len() as int)])
    } else {
        Err(RtError { code: ErrCode::IE241, line: 0 })
    }
}

/// With valid subscripts, the products of the dimensions never shrink.
proof fn lemma_prod_monotone(d: Seq<usize>, s: Seq<u32>, n: int)
    requires
        subs_ok(d, s),
        n == s.len(),
    ensures
        forall|j: int| 0 <= j <= n ==> dims_prod(d, j) <= dims_prod(d, n),
        forall|j: int| 0 <= j <= n ==> dims_prod(d, j) >= 1,
{
    assert forall|j: int| 0 <= j <= n implies dims_prod(d, j) >= 1 by {
        lemma_prod_pos(d, s, j);
    }
    assert forall|j: int| 0 <= j <= n implies dims_prod(d, j) <= dims_prod(d, n) by {
        lemma_prod_le(d, s, j, n);
    }
}

proof fn lemma_prod_pos(d: Seq<usize>, s: Seq<u32>, j: int)
    requires
        subs_ok(d, s),
        0 <= j <= s.len(),
    ensures
        dims_prod(d, j) >= 1,
    decreases j,
{
    if j > 0 {
        lemma_prod_pos(d, s, j - 1);
        let p = dims_prod(d, j - 1);
        let x = d[j - 1] as nat;
        assert(s[j - 1] >= 1);
        assert(p * x >= 1) by (nonlinear_arith)
            requires
                p >= 1,
                x >= 1,
        ;
    }
}

proof fn lemma_prod_le(d: Seq<usize>, s: Seq<u32>, j: int, n: int)
    requires
        subs_ok(d, s),
        0 <= j <= n <= s.len(),
    ensures
        dims_prod(d, j) <= dims_prod(d, n),
    decreases n - j,
{
    if j < n {
        lemma_prod_le(d, s, j, n - 1);
        lemma_prod_pos(d, s, n - 1);
        let p = dims_prod(d, n - 1);
        let x = d[n - 1] as nat;
        assert(s[n - 1] >= 1);
        assert(p <= p * x) by (nonlinear_arith)
            requires
                x >= 1,
        ;
    }
}

/// With valid subscripts, the index stays below the product of the
/// dimensions it ranges over.
proof fn lemma_flat_below(d: Seq<usize>, s: Seq<u32>, k: int)
    requires
        subs_ok(d, s),
        0 <= k <= s.len(),
    ensures
        0 <= flat_index(d, s, k) < dims_prod(d, k),
    decreases k,
{
    if k > 0 {
        lemma_flat_below(d, s, k - 1);
        let f = flat_index(d, s, k - 1);
        let p = dims_prod(d, k - 1);
        let sk = s[k - 1] as int;
        let dk = d[k - 1] as int;
        assert(1 <= sk <= dk);
        assert(0 <= f + (sk - 1) * p < p * dk) by (nonlinear_arith)
            requires
                0 <= f < p,
                1 <= sk <= dk,
        ;
    }
}

/// A copy of a vector of plain values.
pub fn copy_vec<T: Copy>(v: &Vec<T>) -> (r: Vec<T>)
    ensures
        r@ == v@,
{
    let mut r: Vec<T> = Vec::new();
    let mut i: usize = 0;
    while i < v.len()
        invariant
            i <= v.len(),
            r@ == v@.subrange(0, i as int),
        decreases v.len() - i,
    {
        r.push(v[i]);
        i = i + 1;
        proof {
            assert(r@ =~= v@.subrange(0, i as int));
        }
    }
    proof {
        assert(r@ =~= v@);
    }
    r
}

} // verus!
