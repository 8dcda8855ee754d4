//! Multilinear polynomials in dense evaluation form.
//!
//! A polynomial over `n_vars` boolean variables is held as the flat vector of
//! its `2^n_vars` evaluations over the boolean hypercube, point `i`
//! corresponding to the binary expansion of `i` with the most significant bit
//! as variable `0`. Partial evaluation fixes a run of consecutive variables to
//! field values by pairing table entries with the generators of
//! [`crate::pairing_index`] and interpolating along each pair's line; it never
//! materializes a coefficient form.

use crate::field::{
    f_interp, felt_be_bytes, fr_order, lemma_interp_at_one, lemma_interp_at_zero, Felt,
};
use crate::pairing_index::{
    checked_pow2, index_pair, insert_high, insert_low, lemma_pair_in_range, INVALID_TARGET_ERROR,
};
use vstd::arithmetic::power2::{lemma2_to64, lemma2_to64_rest, lemma_pow2_strictly_increases, pow2};
use vstd::pervasive::unreached;
use vstd::pervasive::VecAdditionalExecFns;
use vstd::prelude::*;

verus! {

/// The error reported when an evaluation table's length is not `2^n_vars`.
pub const LENGTH_MISMATCH_ERROR: &'static str = "evaluation vec len should equal 2^n_vars";

/// The error reported when `evaluate` is not given one value per variable.
pub const ARITY_MISMATCH_ERROR: &'static str = "evaluate must assign to all variables";

/// The canonical field values of a table of elements.
pub open spec fn values_of(fs: Seq<Felt>) -> Seq<nat> {
    fs.map_values(|f: Felt| f.value())
}

/// Every element of the table is reduced.
pub open spec fn all_wf(fs: Seq<Felt>) -> bool {
    forall|i: int| 0 <= i < fs.len() ==> fs[i].wf()
}

/// One step of partial evaluation: fixing the target variable to `r` sends
/// each pair of the table to the line through its two evaluations, sampled at
/// `r`, in reduced-index order.
pub open spec fn fix_one(e: Seq<nat>, n_vars: nat, target_var: nat, r: nat) -> Seq<nat> {
    Seq::new(
        pow2((n_vars - 1) as nat),
        |i: int|
            f_interp(
                r,
                e[insert_low(n_vars, target_var, i as nat) as int],
                e[insert_high(n_vars, target_var, i as nat) as int],
            ),
    )
}

/// Consecutive partial evaluation: one [`fix_one`] step per assignment, the
/// variable count shrinking by one each step while the target position stays
/// put.
pub open spec fn fix_consecutive(e: Seq<nat>, n_vars: nat, target_var: nat, rs: Seq<nat>) -> Seq<
    nat,
>
    decreases rs.len(),
{
    if rs.len() == 0 {
        e
    } else {
        fix_consecutive(
            fix_one(e, n_vars, target_var, rs[0]),
            (n_vars - 1) as nat,
            target_var,
            rs.drop_first(),
        )
    }
}

/// Full evaluation: fix every variable starting at the first; the table
/// shrinks to the single entry holding the polynomial's value.
pub open spec fn full_evaluation(e: Seq<nat>, n_vars: nat, rs: Seq<nat>) -> nat {
    fix_consecutive(e, n_vars, 0, rs)[0]
}

/// Extending a run of assignments by one more value fixes one more variable
/// of the already-reduced table.
pub proof fn lemma_fix_consecutive_snoc(e: Seq<nat>, n_vars: nat, target_var: nat, rs: Seq<nat>, k: int)
    requires
        0 <= k < rs.len(),
        k <= n_vars,
    ensures
        fix_consecutive(e, n_vars, target_var, rs.take(k + 1)) == fix_one(
            fix_consecutive(e, n_vars, target_var, rs.take(k)),
            (n_vars - k) as nat,
            target_var,
            rs[k],
        ),
    decreases k,
{
    reveal_with_fuel(fix_consecutive, 3);
    if k == 0 {
        assert(rs.take(0) =~= Seq::<nat>::empty());
        assert(rs.take(1).drop_first() =~= Seq::<nat>::empty());
        assert(rs.take(1)[0] == rs[0]);
        assert(fix_consecutive(e, n_vars, target_var, rs.take(0)) == e);
        assert(fix_consecutive(e, n_vars, target_var, rs.take(1)) == fix_one(
            e,
            n_vars,
            target_var,
            rs[0],
        ));
    } else {
        let d = rs.drop_first();
        let e1 = fix_one(e, n_vars, target_var, rs[0]);
        lemma_fix_consecutive_snoc(e1, (n_vars - 1) as nat, target_var, d, k - 1);
        assert(rs.take(k + 1).drop_first() =~= d.take(k));
        assert(rs.take(k).drop_first() =~= d.take(k - 1));
        assert(rs.take(k + 1)[0] == rs[0]);
        assert(rs.take(k)[0] == rs[0]);
        assert(d[k - 1] == rs[k]);
        assert(fix_consecutive(e, n_vars, target_var, rs.take(k + 1)) == fix_consecutive(
            e1,
            (n_vars - 1) as nat,
            target_var,
            d.take(k),
        ));
        assert(fix_consecutive(e, n_vars, target_var, rs.take(k)) == fix_consecutive(
            e1,
            (n_vars - 1) as nat,
            target_var,
            d.take(k - 1),
        ));
    }
}

/// Splitting a run of assignments into two consecutive runs and fixing them
/// in turn agrees with fixing the whole run at once: in particular, repeated
/// single-variable partial evaluation agrees with one full evaluation.
pub proof fn lemma_fix_consecutive_append(
    e: Seq<nat>,
    n_vars: nat,
    target_var: nat,
    rs1: Seq<nat>,
    rs2: Seq<nat>,
)
    requires
        rs1.len() <= n_vars,
    ensures
        fix_consecutive(e, n_vars, target_var, rs1 + rs2) == fix_consecutive(
            fix_consecutive(e, n_vars, target_var, rs1),
            (n_vars - rs1.len()) as nat,
            target_var,
            rs2,
        ),
    decreases rs1.len(),
{
    if rs1.len() == 0 {
        assert(rs1 + rs2 =~= rs2);
    } else {
        let e1 = fix_one(e, n_vars, target_var, rs1[0]);
        lemma_fix_consecutive_append(e1, (n_vars - 1) as nat, target_var, rs1.drop_first(), rs2);
        assert((rs1 + rs2).drop_first() =~= rs1.drop_first() + rs2);
        assert((rs1 + rs2)[0] == rs1[0]);
        assert((rs1 + rs2).len() == rs1.len() + rs2.len());
    }
}

/// Fixing a single variable is one [`fix_one`] step: the form
/// `partial_evaluate` takes with a one-element assignment run.
pub proof fn lemma_fix_consecutive_single(e: Seq<nat>, n_vars: nat, target_var: nat, r: nat)
    ensures
        fix_consecutive(e, n_vars, target_var, seq![r]) == fix_one(e, n_vars, target_var, r),
{
    reveal_with_fuel(fix_consecutive, 2);
    assert(seq![r].drop_first() =~= Seq::<nat>::empty());
}

/// Fixing a variable at the field's zero is pure selection: every entry of
/// the reduced table is the pair's low evaluation, copied unchanged.
pub proof fn lemma_fix_at_zero_selects_low(e: Seq<nat>, n_vars: nat, target_var: nat)
    requires
        target_var < n_vars,
        e.len() == pow2(n_vars),
        forall|k: int| 0 <= k < e.len() ==> e[k] < fr_order(),
    ensures
        forall|i: int|
            0 <= i < pow2((n_vars - 1) as nat) ==> fix_one(e, n_vars, target_var, 0)[i] == e[insert_low(
                n_vars,
                target_var,
                i as nat,
            ) as int],
{
    assert forall|i: int|
        0 <= i < pow2((n_vars - 1) as nat) implies fix_one(e, n_vars, target_var, 0)[i] == e[insert_low(
        n_vars,
        target_var,
        i as nat,
    ) as int] by {
        lemma_pair_in_range(n_vars, target_var, i as nat);
        let lo = insert_low(n_vars, target_var, i as nat) as int;
        let hi = insert_high(n_vars, target_var, i as nat) as int;
        lemma_interp_at_zero(e[lo], e[hi]);
    }
}

/// Fixing a variable at the field's one is pure selection of the other half:
/// every entry of the reduced table is the pair's high evaluation.
pub proof fn lemma_fix_at_one_selects_high(e: Seq<nat>, n_vars: nat, target_var: nat)
    requires
        target_var < n_vars,
        e.len() == pow2(n_vars),
        forall|k: int| 0 <= k < e.len() ==> e[k] < fr_order(),
    ensures
        forall|i: int|
            0 <= i < pow2((n_vars - 1) as nat) ==> fix_one(e, n_vars, target_var, 1)[i] == e[insert_high(
                n_vars,
                target_var,
                i as nat,
            ) as int],
{
    assert forall|i: int|
        0 <= i < pow2((n_vars - 1) as nat) implies fix_one(e, n_vars, target_var, 1)[i] == e[insert_high(
        n_vars,
        target_var,
        i as nat,
    ) as int] by {
        lemma_pair_in_range(n_vars, target_var, i as nat);
        let lo = insert_low(n_vars, target_var, i as nat) as int;
        let hi = insert_high(n_vars, target_var, i as nat) as int;
        lemma_interp_at_one(e[lo], e[hi]);
    }
}

/// The bytes of a table: each element's 32-byte big-endian canonical
/// representative, concatenated in evaluation order.
pub open spec fn table_bytes(fs: Seq<Felt>) -> Seq<u8>
    decreases fs.len(),
{
    if fs.len() == 0 {
        Seq::empty()
    } else {
        felt_be_bytes(fs[0]) + table_bytes(fs.drop_first())
    }
}

proof fn lemma_table_bytes_snoc(fs: Seq<Felt>, k: int)
    requires
        0 <= k < fs.len(),
    ensures
        table_bytes(fs.take(k + 1)) == table_bytes(fs.take(k)) + felt_be_bytes(fs[k]),
    decreases k,
{
    reveal_with_fuel(table_bytes, 3);
    if k == 0 {
        assert(fs.take(0) =~= Seq::<Felt>::empty());
        assert(fs.take(1).drop_first() =~= Seq::<Felt>::empty());
        assert(table_bytes(fs.take(1)) == felt_be_bytes(fs[0]) + Seq::<u8>::empty());
        assert(felt_be_bytes(fs[0]) + Seq::<u8>::empty() =~= Seq::<u8>::empty() + felt_be_bytes(fs[0]));
    } else {
        let d = fs.drop_first();
        lemma_table_bytes_snoc(d, k - 1);
        assert(fs.take(k + 1).drop_first() =~= d.take(k));
        assert(fs.take(k).drop_first() =~= d.take(k - 1));
        assert(fs.take(k + 1)[0] == fs[0]);
        assert(fs.take(k)[0] == fs[0]);
        assert(d[k - 1] == fs[k]);
        assert(felt_be_bytes(fs[0]) + (table_bytes(d.take(k - 1)) + felt_be_bytes(fs[k])) =~= (
        felt_be_bytes(fs[0]) + table_bytes(d.take(k - 1))) + felt_be_bytes(fs[k]));
    }
}

/// A multilinear polynomial over `n_vars` boolean variables, stored as its
/// `2^n_vars` evaluations over the boolean hypercube. Immutable once built:
/// every transformation returns a fresh polynomial.
#[derive(Clone, Debug, PartialEq)]
pub struct MultiLinearPolynomial {
    n_vars: usize,
    evaluations: Vec<Felt>,
}

impl MultiLinearPolynomial {
    /// The evaluation table.
    pub closed spec fn felts(self) -> Seq<Felt> {
        self.evaluations@
    }

    /// The evaluation table's canonical field values.
    pub open spec fn values(self) -> Seq<nat> {
        values_of(self.felts())
    }

    /// The number of boolean variables.
    pub closed spec fn spec_n_vars(self) -> nat {
        self.n_vars as nat
    }

    /// The table holds exactly one reduced value per hypercube point.
    pub open spec fn wf(self) -> bool {
        &&& self.felts().len() == pow2(self.spec_n_vars())
        &&& all_wf(self.felts())
    }

    /// Builds the polynomial from a caller-supplied evaluation table,
    /// rejecting any table whose length is not exactly `2^n_vars`.
    pub fn new(n_vars: usize, evaluations: Vec<Felt>) -> (r: Result<Self, &'static str>)
        requires
            all_wf(evaluations@),
        ensures
            r is Ok <==> evaluations@.len() == pow2(n_vars as nat),
            r matches Ok(p) ==> {
                &&& p.wf()
                &&& p.spec_n_vars() == n_vars
                &&& p.felts() == evaluations@
            },
            r matches Err(e) ==> e == LENGTH_MISMATCH_ERROR,
    {
        let len = evaluations.len();
        let ok = match checked_pow2(n_vars) {
            Some(p) => len == p,
            None => false,  // the table fits in memory, so it is shorter than 2^n_vars
        };
        if !ok {
            return Err(LENGTH_MISMATCH_ERROR);
        }
        Ok(MultiLinearPolynomial { n_vars, evaluations })
    }

    /// Returns the number of variables.
    pub fn n_vars(&self) -> (r: usize)
        ensures
            r == self.spec_n_vars(),
    {
        self.n_vars
    }

    /// Read-only view of the evaluation table; no copy.
    pub fn evaluation_slice(&self) -> (r: &[Felt])
        ensures
            r@ == self.felts(),
    {
        self.evaluations.as_slice()
    }

    /// Serializes the polynomial: each evaluation's canonical big-endian
    /// 32-byte representative, concatenated in evaluation order.
    pub fn to_bytes(&self) -> (r: Vec<u8>)
        ensures
            r@ == table_bytes(self.felts()),
    {
        let mut out: Vec<u8> = Vec::new();
        let total = self.evaluations.len();
        let mut i: usize = 0;
        proof {
            assert(self.felts().take(0) =~= Seq::<Felt>::empty());
        }
        while i < total
            invariant
                total == self.felts().len(),
                i <= total,
                out@ == table_bytes(self.felts().take(i as int)),
            decreases total - i,
        {
            let mut chunk = self.evaluations[i].to_be_bytes();
            out.append(&mut chunk);
            proof {
                lemma_table_bytes_snoc(self.felts(), i as int);
            }
            i = i + 1;
        }
        proof {
            assert(self.felts().take(total as int) =~= self.felts());
        }
        out
    }

    /// Partially evaluates the polynomial at `assignments.len()` consecutive
    /// variables starting at `initial_var`, returning a fresh polynomial over
    /// the remaining variables. Fixing at the field's zero or one selects a
    /// sub-table outright; any other value interpolates along each pair's
    /// line. Fails exactly when a run of that length starting there does not
    /// fit inside the polynomial's variables.
    #[verifier::rlimit(100)]
    pub fn partial_evaluate(&self, initial_var: usize, assignments: &[Felt]) -> (r: Result<
        Self,
        &'static str,
    >)
        requires
            self.wf(),
            all_wf(assignments@),
        ensures
            r is Ok <==> (assignments@.len() == 0 || initial_var + assignments@.len()
                <= self.spec_n_vars()),
            r matches Ok(p) ==> {
                &&& p.wf()
                &&& p.spec_n_vars() + assignments@.len() == self.spec_n_vars()
                &&& p.values() == fix_consecutive(
                    self.values(),
                    self.spec_n_vars(),
                    initial_var as nat,
                    values_of(assignments@),
                )
            },
            r matches Err(e) ==> e == INVALID_TARGET_ERROR,
    {
        let len = assignments.len();
        if len > 0 && (initial_var >= self.n_vars || len > self.n_vars - initial_var) {
            return Err(INVALID_TARGET_ERROR);
        }
        let t = initial_var;
        let total = self.evaluations.len();
        let ghost e0 = self.values();
        let ghost n0 = self.spec_n_vars();
        let ghost rs = values_of(assignments@);

        // Working copy of the table; entries below the shrinking effective
        // length are rewritten in place, the rest goes stale and is cut off.
        let mut work: Vec<Felt> = Vec::new();
        let mut k: usize = 0;
        while k < total
            invariant
                k <= total,
                total == self.felts().len(),
                work@ == self.felts().take(k as int),
            decreases total - k,
        {
            work.push(self.evaluations[k]);
            proof {
                assert(self.felts().take(k as int).push(self.felts()[k as int]) =~= self.felts()
                    .take(k as int + 1));
            }
            k = k + 1;
        }
        proof {
            assert(self.felts().take(total as int) =~= self.felts());
            assert(values_of(work@).take(pow2(n0) as int) =~= values_of(work@));
            assert(rs.take(0) =~= Seq::<nat>::empty());
        }

        let mut step: usize = 0;
        while step < len
            invariant
                self.wf(),
                all_wf(assignments@),
                len == assignments@.len(),
                rs == values_of(assignments@),
                t == initial_var,
                len > 0 ==> t + len <= n0,
                step <= len,
                n0 == self.spec_n_vars(),
                e0 == self.values(),
                pow2(n0) <= usize::MAX,
                work@.len() == pow2(n0),
                all_wf(work@),
                values_of(work@).take(pow2((n0 - step) as nat) as int) == fix_consecutive(
                    e0,
                    n0,
                    t as nat,
                    rs.take(step as int),
                ),
            decreases len - step,
        {
            let cur = self.n_vars - step;
            let ghost curn = cur as nat;
            proof {
                lemma_pow2_fits_u8(n0);
                lemma_pow2_le(curn, n0);
            }
            let pairs = match index_pair(cur as u8, t as u8) {
                Ok(v) => v,
                Err(_) => unreached(),
            };
            let a = assignments[step];
            let half = pairs.len();
            let ghost pre = work@;
            proof {
                assert(values_of(pre).take(pow2(curn) as int) == fix_consecutive(
                    e0,
                    n0,
                    t as nat,
                    rs.take(step as int),
                ));
            }
            let mut j: usize = 0;
            while j < half
                invariant
                    half == pairs@.len(),
                    half == pow2((curn - 1) as nat),
                    forall|q: int|
                        0 <= q < half ==> pairs@[q].0 == insert_low(curn, t as nat, q as nat)
                            && pairs@[q].1 == insert_high(curn, t as nat, q as nat),
                    (t as nat) < curn,
                    curn <= n0,
                    pow2(n0) <= usize::MAX,
                    pre.len() == pow2(n0),
                    work@.len() == pre.len(),
                    all_wf(pre),
                    a.wf(),
                    j <= half,
                    forall|q: int| j <= q < work@.len() ==> work@[q] == pre[q],
                    forall|q: int|
                        0 <= q < j ==> (#[trigger] work@[q]).wf() && work@[q].value() == f_interp(
                            a.value(),
                            pre[insert_low(curn, t as nat, q as nat) as int].value(),
                            pre[insert_high(curn, t as nat, q as nat) as int].value(),
                        ),
                decreases half - j,
            {
                proof {
                    lemma_pair_in_range(curn, t as nat, j as nat);
                    lemma_pow2_le(curn, n0);
                }
                let pr = pairs[j];
                let lo = pr.0;
                let hi = pr.1;
                proof {
                    assert(lo == insert_low(curn, t as nat, j as nat));
                    assert(hi == insert_high(curn, t as nat, j as nat));
                    assert(j <= lo && hi < pow2(curn));
                    assert(work@[lo as int] == pre[lo as int]);
                    assert(work@[hi as int] == pre[hi as int]);
                    assert(pre[lo as int].wf());
                    assert(pre[hi as int].wf());
                }
                let left = work[lo];
                let right = work[hi];
                let v = if a.is_zero() {
                    left
                } else if a.is_one() {
                    right
                } else {
                    left.sub(&a.mul(&left.sub(&right)))
                };
                proof {
                    if a.value() == 0 {
                        lemma_interp_at_zero(left.value(), right.value());
                    } else if a.value() == 1 {
                        lemma_interp_at_one(left.value(), right.value());
                    }
                }
                work.set(j, v);
                j = j + 1;
            }
            proof {
                lemma_pow2_le((curn - 1) as nat, n0);
                assert forall|q: int| 0 <= q < work@.len() implies (#[trigger] work@[q]).wf() by {
                    if half <= q {
                        assert(work@[q] == pre[q]);
                    }
                }
                assert(all_wf(work@));
                lemma_fix_consecutive_snoc(e0, n0, t as nat, rs, step as int);
                let prev = fix_consecutive(e0, n0, t as nat, rs.take(step as int));
                let next = fix_one(prev, curn, t as nat, rs[step as int]);
                assert(next.len() == half);
                assert(values_of(work@).take(half as int).len() == half);
                assert forall|i: int| 0 <= i < half implies values_of(work@).take(half as int)[i]
                    == next[i] by {
                    lemma_pair_in_range(curn, t as nat, i as nat);
                    let lo = insert_low(curn, t as nat, i as nat) as int;
                    let hi = insert_high(curn, t as nat, i as nat) as int;
                    assert(work@[i].value() == f_interp(
                        a.value(),
                        pre[lo].value(),
                        pre[hi].value(),
                    ));
                    assert(prev[lo] == values_of(pre).take(pow2(curn) as int)[lo]);
                    assert(prev[hi] == values_of(pre).take(pow2(curn) as int)[hi]);
                    assert(next[i] == f_interp(rs[step as int], prev[lo], prev[hi]));
                }
                assert(values_of(work@).take(half as int) =~= next);
                assert(rs.take(step as int + 1)[step as int] == rs[step as int]);
            }
            step = step + 1;
        }

        let new_n_vars = self.n_vars - len;
        proof {
            lemma_pow2_le((n0 - len) as nat, n0);
        }
        let new_len = match checked_pow2(new_n_vars) {
            Some(v) => v,
            None => unreached(),
        };
        let mut out: Vec<Felt> = Vec::new();
        let mut k2: usize = 0;
        while k2 < new_len
            invariant
                k2 <= new_len,
                new_len <= work@.len(),
                all_wf(work@),
                out@ == work@.take(k2 as int),
            decreases new_len - k2,
        {
            out.push(work[k2]);
            proof {
                assert(work@.take(k2 as int).push(work@[k2 as int]) =~= work@.take(k2 as int + 1));
            }
            k2 = k2 + 1;
        }
        proof {
            assert(rs.take(len as int) =~= rs);
            assert(values_of(out@) =~= values_of(work@).take(new_len as int));
        }
        match Self::new(new_n_vars, out) {
            Ok(p) => Ok(p),
            Err(_) => unreached(),
        }
    }

    /// Evaluates the polynomial at one field value per variable: fails unless
    /// exactly `n_vars` values are supplied, and otherwise fixes every
    /// variable starting at the first, returning the single remaining
    /// evaluation.
    pub fn evaluate(&self, assignments: &[Felt]) -> (r: Result<Felt, &'static str>)
        requires
            self.wf(),
            all_wf(assignments@),
        ensures
            r is Ok <==> assignments@.len() == self.spec_n_vars(),
            r matches Ok(v) ==> {
                &&& v.wf()
                &&& v.value() == full_evaluation(
                    self.values(),
                    self.spec_n_vars(),
                    values_of(assignments@),
                )
            },
            r matches Err(e) ==> e == ARITY_MISMATCH_ERROR,
    {
        if assignments.len() != self.n_vars {
            return Err(ARITY_MISMATCH_ERROR);
        }
        match self.partial_evaluate(0, assignments) {
            Ok(p) => {
                proof {
                    lemma2_to64();
                }
                Ok(p.evaluations[0])
            },
            Err(_) => unreached(),
        }
    }
}

/// Powers of two are monotone in the exponent.
proof fn lemma_pow2_le(e1: nat, e2: nat)
    requires
        e1 <= e2,
    ensures
        pow2(e1) <= pow2(e2),
{
    if e1 < e2 {
        lemma_pow2_strictly_increases(e1, e2);
    }
}

/// A hypercube that fits in memory has fewer variables than a `u8` can count.
proof fn lemma_pow2_fits_u8(n: nat)
    requires
        pow2(n) <= usize::MAX,
    ensures
        n < 64,
{
    if n >= 64 {
        lemma2_to64_rest();
        lemma_pow2_le(64, n);
        assert(usize::MAX <= u64::MAX);
    }
}

} // verus!
