//! Hypercube pairing-index generators.
//!
//! An evaluation vector of length `2^n_vars` stores one field value per point
//! of the boolean hypercube, the most significant bit of a point's index being
//! variable `0`. Pairing on a target variable groups the `2^n_vars` positions
//! into `2^(n_vars - 1)` pairs `(low, high)` whose indices agree on every bit
//! except the target variable's, which is `0` at `low` and `1` at `high`.
//! Pairs are enumerated in ascending order of their reduced index — the slot
//! the pair occupies once the target variable is eliminated.
//!
//! Two interchangeable generators are offered. [`index_pair`] builds each pair
//! from its reduced index alone, by inserting a `0` (respectively `1`) bit at
//! the target position; [`PairingIndex`] streams the `low` members
//! incrementally, skipping a stride's worth of positions at each block
//! boundary, and leaves `high = low + shift_value` to the caller.

use vstd::arithmetic::div_mod::{
    lemma_fundamental_div_mod, lemma_fundamental_div_mod_converse, lemma_mod_bound,
};
use vstd::arithmetic::power2::{
    lemma2_to64, lemma_pow2_adds, lemma_pow2_pos, lemma_pow2_strictly_increases,
    lemma_pow2_unfold, pow2,
};
use vstd::pervasive::unreached;
use vstd::prelude::*;

verus! {

/// The distance `2^(n_vars - target_var - 1)` between the two members of
/// every pair: the weight of the target variable's bit.
pub open spec fn pair_stride(n_vars: nat, target_var: nat) -> nat {
    pow2((n_vars - target_var - 1) as nat)
}

/// Low member of the pair with reduced index `i`, as the bit-insertion
/// algorithm builds it: the bits of `i` at and above the target position are
/// shifted up one place and a `0` bit is inserted at the position itself.
pub open spec fn insert_low(n_vars: nat, target_var: nat, i: nat) -> nat {
    let s = pair_stride(n_vars, target_var);
    (i / s) * (2 * s) + i % s
}

/// High member of the pair with reduced index `i`: the low member with the
/// inserted bit set to `1` instead.
pub open spec fn insert_high(n_vars: nat, target_var: nat, i: nat) -> nat {
    insert_low(n_vars, target_var, i) + pair_stride(n_vars, target_var)
}

/// Low member of the pair with reduced index `i`, as the shift-based
/// generator reaches it: one step per pair plus one skipped stride per
/// completed block of `pair_stride` pairs.
pub open spec fn shift_low(n_vars: nat, target_var: nat, i: nat) -> nat {
    let s = pair_stride(n_vars, target_var);
    i + (i / s) * s
}

/// The two pairing algorithms emit the same low member for every reduced
/// index, and hence — the stride being common — the same pairs.
pub proof fn lemma_pairing_variants_agree(n_vars: nat, target_var: nat, i: nat)
    requires
        target_var < n_vars,
    ensures
        shift_low(n_vars, target_var, i) == insert_low(n_vars, target_var, i),
{
    let s = pair_stride(n_vars, target_var);
    lemma_pow2_pos((n_vars - target_var - 1) as nat);
    lemma_fundamental_div_mod(i as int, s as int);
    assert((i / s) * (2 * s) == (i / s) * s + (i / s) * s) by (nonlinear_arith);
    assert(s * (i / s) == (i / s) * s) by (nonlinear_arith);
}

/// Every pair lies inside the evaluation vector, beyond its own reduced
/// index, with its members a stride apart.
pub proof fn lemma_pair_in_range(n_vars: nat, target_var: nat, i: nat)
    requires
        target_var < n_vars,
        i < pow2((n_vars - 1) as nat),
    ensures
        i <= insert_low(n_vars, target_var, i),
        insert_low(n_vars, target_var, i) + pair_stride(n_vars, target_var) < pow2(n_vars),
        insert_high(n_vars, target_var, i) == insert_low(n_vars, target_var, i)
            + pair_stride(n_vars, target_var),
        2 * pair_stride(n_vars, target_var) <= pow2(n_vars),
{
    let s = pair_stride(n_vars, target_var) as int;
    let h = pow2((n_vars - 1) as nat) as int;
    let c = pow2(target_var) as int;
    let x = i as int;
    lemma_pow2_pos((n_vars - target_var - 1) as nat);
    lemma_pow2_pos(target_var);
    lemma_pow2_adds(target_var, (n_vars - target_var - 1) as nat);
    lemma_pow2_unfold(n_vars);
    lemma_pow2_unfold((n_vars - target_var) as nat);
    if target_var > 0 {
        lemma_pow2_strictly_increases((n_vars - target_var) as nat, n_vars);
    }
    lemma_fundamental_div_mod(x, s);
    lemma_mod_bound(x, s);
    let q = x / s;
    let r = x % s;
    assert(q < c) by (nonlinear_arith)
        requires
            s > 0,
            x == s * q + r,
            0 <= r < s,
            x < h,
            h == c * s,
    ;
    assert(q * (2 * s) + r + s < 2 * h) by (nonlinear_arith)
        requires
            s > 0,
            0 <= r < s,
            0 <= q,
            q < c,
            h == c * s,
    ;
    assert(x <= q * (2 * s) + r) by (nonlinear_arith)
        requires
            s > 0,
            x == s * q + r,
            0 <= q,
    ;
}

/// Distinct reduced indices yield disjoint pairs, and no low member is ever a
/// high member: together with `lemma_pairing_covers`, the pairing walks every
/// hypercube position exactly once.
pub proof fn lemma_pairing_disjoint(n_vars: nat, target_var: nat, i: nat, j: nat)
    requires
        target_var < n_vars,
        i < pow2((n_vars - 1) as nat),
        j < pow2((n_vars - 1) as nat),
    ensures
        i != j ==> insert_low(n_vars, target_var, i) != insert_low(n_vars, target_var, j),
        i != j ==> insert_high(n_vars, target_var, i) != insert_high(n_vars, target_var, j),
        insert_low(n_vars, target_var, i) != insert_high(n_vars, target_var, j),
{
    let s = pair_stride(n_vars, target_var) as int;
    lemma_pow2_pos((n_vars - target_var - 1) as nat);
    lemma_fundamental_div_mod(i as int, s);
    lemma_mod_bound(i as int, s);
    lemma_fundamental_div_mod(j as int, s);
    lemma_mod_bound(j as int, s);
    let qi = i as int / s;
    let ri = i as int % s;
    let qj = j as int / s;
    let rj = j as int % s;
    // Each member determines its block `q` and offset within the block.
    lemma_fundamental_div_mod_converse(
        insert_low(n_vars, target_var, i) as int, 2 * s, qi, ri);
    lemma_fundamental_div_mod_converse(
        insert_low(n_vars, target_var, j) as int, 2 * s, qj, rj);
    lemma_fundamental_div_mod_converse(
        insert_high(n_vars, target_var, i) as int, 2 * s, qi, ri + s);
    lemma_fundamental_div_mod_converse(
        insert_high(n_vars, target_var, j) as int, 2 * s, qj, rj + s);
}

/// Every position of the evaluation vector is a member of some pair.
pub proof fn lemma_pairing_covers(n_vars: nat, target_var: nat, k: nat)
    requires
        target_var < n_vars,
        k < pow2(n_vars),
    ensures
        exists|i: nat|
            i < pow2((n_vars - 1) as nat) && (insert_low(n_vars, target_var, i) == k
                || insert_high(n_vars, target_var, i) == k),
{
    let s = pair_stride(n_vars, target_var) as int;
    let h = pow2((n_vars - 1) as nat) as int;
    let c = pow2(target_var) as int;
    lemma_pow2_pos((n_vars - target_var - 1) as nat);
    lemma_pow2_pos(target_var);
    lemma_pow2_adds(target_var, (n_vars - target_var - 1) as nat);
    lemma_pow2_unfold(n_vars);
    lemma_fundamental_div_mod(k as int, 2 * s);
    lemma_mod_bound(k as int, 2 * s);
    let b = k as int / (2 * s);
    let m = k as int % (2 * s);
    assert(b < c) by (nonlinear_arith)
        requires
            s > 0,
            k == (2 * s) * b + m,
            0 <= m < 2 * s,
            k < 2 * h,
            h == c * s,
    ;
    let off = if m < s { m } else { m - s };
    let w = (b * s + off) as nat;
    assert(w < h) by (nonlinear_arith)
        requires
            s > 0,
            0 <= off < s,
            0 <= b,
            b < c,
            h == c * s,
            w == b * s + off,
    ;
    lemma_fundamental_div_mod_converse(w as int, s, b, off);
    assert(insert_low(n_vars, target_var, w) == (w / s as nat) * (2 * s as nat) + w % s as nat);
    assert((w / s as nat) * (2 * s as nat) == (2 * s) * b) by (nonlinear_arith)
        requires
            s > 0,
            w / s as nat == b,
    ;
    if m < s {
        assert(insert_low(n_vars, target_var, w) == k);
    } else {
        assert(insert_high(n_vars, target_var, w) == k);
    }
}

/// Computes `2^k` when it fits in a `usize`.
pub fn checked_pow2(k: usize) -> (r: Option<usize>)
    ensures
        r matches Some(v) ==> v == pow2(k as nat),
        r is None ==> pow2(k as nat) > usize::MAX,
{
    proof {
        lemma2_to64();
    }
    let mut acc: usize = 1;
    let mut i: usize = 0;
    while i < k
        invariant
            i <= k,
            acc == pow2(i as nat),
        decreases k - i,
    {
        if acc > usize::MAX / 2 {
            proof {
                lemma_pow2_unfold((i + 1) as nat);
                if i + 1 < k {
                    lemma_pow2_strictly_increases((i + 1) as nat, k as nat);
                }
            }
            return None;
        }
        acc = acc * 2;
        proof {
            lemma_pow2_unfold(i as nat + 1);
        }
        i = i + 1;
    }
    Some(acc)
}

/// The error reported when the target variable does not exist.
pub const INVALID_TARGET_ERROR: &'static str = "target variable position must be less than the variable count";

/// The complete pairing for `(n_vars, target_var)` as `(low, high)` pairs in
/// reduced-index order, each pair built independently from its reduced index
/// by bit insertion.
pub fn index_pair(n_vars: u8, target_var: u8) -> (r: Result<Vec<(usize, usize)>, &'static str>)
    requires
        pow2(n_vars as nat) <= usize::MAX,
    ensures
        r is Ok <==> target_var < n_vars,
        r matches Ok(v) ==> {
            &&& v@.len() == pow2((n_vars - 1) as nat)
            &&& forall|j: int|
                0 <= j < v@.len() ==> v@[j].0 == insert_low(
                    n_vars as nat,
                    target_var as nat,
                    j as nat,
                ) && v@[j].1 == insert_high(n_vars as nat, target_var as nat, j as nat)
        },
        r matches Err(e) ==> e == INVALID_TARGET_ERROR,
{
    if target_var >= n_vars {
        return Err(INVALID_TARGET_ERROR);
    }
    let n = n_vars as usize;
    let t = target_var as usize;
    let s: usize = match checked_pow2(n - t - 1) {
        Some(s) => s,
        None => {
            proof {
                lemma_pow2_strictly_increases((n - t - 1) as nat, n as nat);
            }
            unreached()
        },
    };
    let half: usize = match checked_pow2(n - 1) {
        Some(h) => h,
        None => {
            proof {
                lemma_pow2_strictly_increases((n - 1) as nat, n as nat);
            }
            unreached()
        },
    };
    proof {
        lemma_pow2_pos((n - t - 1) as nat);
    }
    let mut pairs: Vec<(usize, usize)> = Vec::new();
    let mut i: usize = 0;
    while i < half
        invariant
            t < n,
            n == n_vars as nat,
            t == target_var as nat,
            pow2(n as nat) <= usize::MAX,
            s == pair_stride(n as nat, t as nat),
            s >= 1,
            half == pow2((n - 1) as nat),
            i <= half,
            pairs@.len() == i,
            forall|j: int|
                0 <= j < i ==> pairs@[j].0 == insert_low(n as nat, t as nat, j as nat)
                    && pairs@[j].1 == insert_high(n as nat, t as nat, j as nat),
        decreases half - i,
    {
        proof {
            lemma_pair_in_range(n as nat, t as nat, i as nat);
        }
        let q = i / s;
        let rem = i % s;
        let low = q * (2 * s) + rem;
        let high = low + s;
        pairs.push((low, high));
        i = i + 1;
    }
    Ok(pairs)
}

/// Shift-based pairing generator: a lazy stream of the pairs' low members in
/// reduced-index order. The caller recovers each high member by adding
/// [`shift_value`](Self::shift_value).
#[derive(Clone, Copy, Debug)]
pub struct PairingIndex {
    n_vars: usize,
    target_var: usize,
    pos: usize,
    val: usize,
}

impl PairingIndex {
    /// Number of variables the generator was built for.
    pub closed spec fn spec_n_vars(self) -> nat {
        self.n_vars as nat
    }

    /// Target variable the generator pairs on.
    pub closed spec fn spec_target_var(self) -> nat {
        self.target_var as nat
    }

    /// Reduced index of the next pair to be emitted.
    pub closed spec fn spec_pos(self) -> nat {
        self.pos as nat
    }

    /// The generator's cursor always sits on the low member of its next pair.
    pub closed spec fn wf(self) -> bool {
        &&& self.spec_target_var() < self.spec_n_vars()
        &&& pow2(self.spec_n_vars()) <= usize::MAX
        &&& self.spec_pos() <= pow2((self.spec_n_vars() - 1) as nat)
        &&& self.val as nat == shift_low(self.spec_n_vars(), self.spec_target_var(), self.spec_pos())
    }

    /// Builds the generator, positioned on the first pair.
    pub fn new(n_vars: usize, target_var: usize) -> (r: Result<PairingIndex, &'static str>)
        requires
            pow2(n_vars as nat) <= usize::MAX,
        ensures
            r is Ok <==> target_var < n_vars,
            r matches Ok(g) ==> {
                &&& g.wf()
                &&& g.spec_n_vars() == n_vars
                &&& g.spec_target_var() == target_var
                &&& g.spec_pos() == 0
            },
            r matches Err(e) ==> e == INVALID_TARGET_ERROR,
    {
        if target_var >= n_vars {
            return Err(INVALID_TARGET_ERROR);
        }
        proof {
            lemma_pow2_pos((n_vars - target_var - 1) as nat);
            lemma_fundamental_div_mod_converse(
                0,
                pair_stride(n_vars as nat, target_var as nat) as int,
                0,
                0,
            );
        }
        Ok(PairingIndex { n_vars, target_var, pos: 0, val: 0 })
    }

    /// The distance between each pair's members: `2^(n_vars - target_var - 1)`.
    pub fn shift_value(&self) -> (r: usize)
        requires
            self.wf(),
        ensures
            r == pair_stride(self.spec_n_vars(), self.spec_target_var()),
    {
        match checked_pow2(self.n_vars - self.target_var - 1) {
            Some(s) => s,
            None => {
                proof {
                    lemma_pow2_strictly_increases(
                        (self.n_vars - self.target_var - 1) as nat,
                        self.n_vars as nat,
                    );
                }
                unreached()
            },
        }
    }

    /// Emits the low member of the next pair, or nothing once all
    /// `2^(n_vars - 1)` pairs are spent.
    pub fn next(&mut self) -> (r: Option<usize>)
        requires
            old(self).wf(),
        ensures
            final(self).wf(),
            final(self).spec_n_vars() == old(self).spec_n_vars(),
            final(self).spec_target_var() == old(self).spec_target_var(),
            old(self).spec_pos() < pow2((old(self).spec_n_vars() - 1) as nat) ==> {
                &&& r matches Some(v) && v == shift_low(
                    old(self).spec_n_vars(),
                    old(self).spec_target_var(),
                    old(self).spec_pos(),
                )
                &&& final(self).spec_pos() == old(self).spec_pos() + 1
            },
            old(self).spec_pos() >= pow2((old(self).spec_n_vars() - 1) as nat) ==> r is None
                && *final(self) == *old(self),
    {
        let n = self.n_vars;
        let t = self.target_var;
        let ghost nn = n as nat;
        let ghost tt = t as nat;
        let s = self.shift_value();
        let half: usize = match checked_pow2(n - 1) {
            Some(h) => h,
            None => {
                proof {
                    lemma_pow2_strictly_increases((n - 1) as nat, n as nat);
                }
                unreached()
            },
        };
        if self.pos < half {
            let out = self.val;
            let ghost p = self.pos as nat;
            proof {
                lemma_pow2_pos((nn - tt - 1) as nat);
                lemma_shift_low_fits(nn, tt, p + 1);
                lemma_fundamental_div_mod(p as int, s as int);
                lemma_mod_bound(p as int, s as int);
                let q = p as int / (s as int);
                let rm = p as int % (s as int);
                assert(q * (s as int) == (s as int) * q) by (nonlinear_arith);
                assert((q + 1) * (s as int) == (s as int) * q + (s as int)) by (nonlinear_arith);
                if rm + 1 < s {
                    lemma_fundamental_div_mod_converse(p as int + 1, s as int, q, rm + 1);
                } else {
                    lemma_fundamental_div_mod_converse(p as int + 1, s as int, q + 1, 0);
                }
            }
            self.pos = self.pos + 1;
            self.val = self.val + 1;
            if self.pos % s == 0 {
                self.val = self.val + s;
            }
            Some(out)
        } else {
            None
        }
    }

    /// The complete pairing as `(low, high)` pairs in reduced-index order,
    /// read off the generator's stream without disturbing it.
    pub fn pairs(&self) -> (r: Vec<(usize, usize)>)
        requires
            self.wf(),
            self.spec_pos() == 0,
        ensures
            r@.len() == pow2((self.spec_n_vars() - 1) as nat),
            forall|j: int|
                0 <= j < r@.len() ==> r@[j].0 == shift_low(
                    self.spec_n_vars(),
                    self.spec_target_var(),
                    j as nat,
                ) && r@[j].1 == shift_low(self.spec_n_vars(), self.spec_target_var(), j as nat)
                    + pair_stride(self.spec_n_vars(), self.spec_target_var()),
    {
        let s = self.shift_value();
        let half: usize = match checked_pow2(self.n_vars - 1) {
            Some(h) => h,
            None => {
                proof {
                    lemma_pow2_strictly_increases((self.n_vars - 1) as nat, self.n_vars as nat);
                }
                unreached()
            },
        };
        let mut cur = *self;
        let mut out: Vec<(usize, usize)> = Vec::new();
        while out.len() < half
            invariant
                cur.wf(),
                cur.spec_n_vars() == self.spec_n_vars(),
                cur.spec_target_var() == self.spec_target_var(),
                s == pair_stride(self.spec_n_vars(), self.spec_target_var()),
                half == pow2((self.spec_n_vars() - 1) as nat),
                cur.spec_pos() == out@.len(),
                out@.len() <= half,
                forall|j: int|
                    0 <= j < out@.len() ==> out@[j].0 == shift_low(
                        self.spec_n_vars(),
                        self.spec_target_var(),
                        j as nat,
                    ) && out@[j].1 == shift_low(self.spec_n_vars(), self.spec_target_var(), j as nat)
                        + pair_stride(self.spec_n_vars(), self.spec_target_var()),
            decreases half - out.len(),
        {
            proof {
                lemma_pairing_variants_agree(
                    self.spec_n_vars(),
                    self.spec_target_var(),
                    cur.spec_pos(),
                );
                lemma_pair_in_range(self.spec_n_vars(), self.spec_target_var(), cur.spec_pos());
            }
            match cur.next() {
                Some(low) => out.push((low, low + s)),
                None => unreached(),
            }
        }
        out
    }
}

/// The cursor value stays within `2^n_vars` while the reduced index has not
/// run past the final pair.
proof fn lemma_shift_low_fits(n_vars: nat, target_var: nat, p: nat)
    requires
        target_var < n_vars,
        p <= pow2((n_vars - 1) as nat),
    ensures
        shift_low(n_vars, target_var, p) <= pow2(n_vars),
{
    let s = pair_stride(n_vars, target_var) as int;
    let h = pow2((n_vars - 1) as nat) as int;
    let c = pow2(target_var) as int;
    lemma_pow2_pos((n_vars - target_var - 1) as nat);
    lemma_pow2_pos(target_var);
    lemma_pow2_adds(target_var, (n_vars - target_var - 1) as nat);
    lemma_pow2_unfold(n_vars);
    lemma_fundamental_div_mod(p as int, s);
    lemma_mod_bound(p as int, s);
    let q = p as int / s;
    let r = p as int % s;
    assert(p + q * s <= 2 * h) by (nonlinear_arith)
        requires
            s > 0,
            p == s * q + r,
            0 <= r < s,
            0 <= p <= h,
            h == c * s,
    ;
}

} // verus!
