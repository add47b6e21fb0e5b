//! Multilinear polynomials over the boolean hypercube, stored as the vector of
//! their evaluations at every hypercube vertex, together with the composed
//! product / sum-of-products algebra the generalized sum-check protocol needs.
//!
//! Hypercube indices are `n_vars`-bit integers; variable `0` occupies the most
//! significant bit and variable `n_vars - 1` the least significant one.

use vstd::arithmetic::div_mod::{
    lemma_fundamental_div_mod, lemma_fundamental_div_mod_converse, lemma_mod_bound,
    lemma_mod_breakdown, lemma_multiply_divide_lt,
};
use vstd::arithmetic::mul::{lemma_mul_inequality, lemma_mul_is_distributive_sub_other_way};
use vstd::arithmetic::power2::{
    lemma2_to64, lemma_pow2_adds, lemma_pow2_pos, lemma_pow2_strictly_increases,
    lemma_pow2_unfold, pow2,
};
use vstd::prelude::*;

use crate::field::{f_add, f_aff, f_mul, f_sub, fq_add, fq_mul, fq_sub, fq_val, Fq};
use crate::PolyError;

verus! {

/// The integer obtained by inserting a 0 bit into `v` at bit position `b`:
/// bits at or above `b` shift up by one, bits below `b` stay.
pub open spec fn insert_zero_bit(v: nat, b: nat) -> nat {
    (v / pow2(b)) * pow2(b + 1) + v % pow2(b)
}

/// The integer obtained by deleting bit position `b` from `v`.
pub open spec fn remove_bit(v: nat, b: nat) -> nat {
    (v / pow2(b + 1)) * pow2(b) + v % pow2(b)
}

/// Bit `b` of `v`.
pub open spec fn bit_of(v: nat, b: nat) -> nat {
    (v / pow2(b)) % 2
}

/// `pow2` dominates the identity; keeps exponents small enough for machine
/// arithmetic.
pub proof fn lemma_pow2_at_least(e: nat)
    ensures
        pow2(e) >= e + 1,
    decreases e,
{
    lemma2_to64();
    if e > 0 {
        lemma_pow2_at_least((e - 1) as nat);
        lemma_pow2_unfold(e);
    }
}

/// Inserting a 0 bit at position `b` into a `(m-1)`-bit index yields an
/// `m`-bit index whose bit `b` is 0; setting that bit stays below `pow2(m)`;
/// and deleting bit `b` again recovers the index.
pub proof fn lemma_insert_zero_bit(k: nat, b: nat, m: nat)
    requires
        b < m,
        k < pow2((m - 1) as nat),
    ensures
        insert_zero_bit(k, b) + pow2(b) < pow2(m),
        bit_of(insert_zero_bit(k, b), b) == 0,
        bit_of(insert_zero_bit(k, b) + pow2(b), b) == 1,
        remove_bit(insert_zero_bit(k, b), b) == k,
        remove_bit(insert_zero_bit(k, b) + pow2(b), b) == k,
{
    let pb = pow2(b) as int;
    let pb1 = pow2(b + 1) as int;
    let ph = pow2((m - 1 - b) as nat) as int;
    lemma_pow2_pos(b);
    lemma_pow2_pos(b + 1);
    lemma_pow2_pos((m - 1 - b) as nat);
    assert(pow2((m - 1) as nat) == pb * ph) by {
        lemma_pow2_adds(b, (m - 1 - b) as nat);
    }
    assert(pow2(m) == pb1 * ph) by {
        lemma_pow2_adds(b + 1, (m - 1 - b) as nat);
    }
    lemma_pow2_unfold(b + 1);
    let d = k as int / pb;
    let r = k as int % pb;
    lemma_multiply_divide_lt(k as int, pb, ph);
    lemma_mod_bound(k as int, pb);
    lemma_fundamental_div_mod(k as int, pb);
    let z = insert_zero_bit(k, b) as int;
    assert(z == d * pb1 + r);
    // upper bound
    lemma_mul_inequality(d, ph - 1, pb1);
    lemma_mul_is_distributive_sub_other_way(pb1, ph, 1);
    assert(d * pb1 <= ph * pb1 - pb1);
    assert(z + pb < pb1 * ph);
    // z == (2d) * pb + r with 0 <= r < pb
    assert(z == (2 * d) * pb + r) by (nonlinear_arith)
        requires
            z == d * pb1 + r,
            pb1 == 2 * pb,
    ;
    lemma_fundamental_div_mod_converse(z, pb, 2 * d, r);
    assert(z / pb == 2 * d && z % pb == r);
    assert(bit_of(insert_zero_bit(k, b), b) == (2 * d) % 2);
    assert((2 * d) % 2 == 0) by (nonlinear_arith);
    // z == d * pb1 + r with 0 <= r < pb1
    lemma_fundamental_div_mod_converse(z, pb1, d, r);
    assert(z / pb1 == d && z % pb1 == r);
    assert(remove_bit(insert_zero_bit(k, b), b) == d * pb + r);
    // the partner index z + pb
    let o = z + pb;
    assert(o == (2 * d + 1) * pb + r) by (nonlinear_arith)
        requires
            o == d * pb1 + pb + r,
            pb1 == 2 * pb,
    ;
    lemma_fundamental_div_mod_converse(o, pb, 2 * d + 1, r);
    assert((2 * d + 1) % 2 == 1) by (nonlinear_arith);
    assert(bit_of((z + pow2(b)) as nat, b) == 1);
    lemma_fundamental_div_mod_converse(o, pb1, d, pb + r);
    assert(remove_bit((z + pow2(b)) as nat, b) == d * pb + r);
}

/// Deleting bit `b` from an `m`-bit index gives an `(m-1)`-bit index, and
/// re-inserting the deleted bit restores the original.
pub proof fn lemma_remove_bit(idx: nat, b: nat, m: nat)
    requires
        b < m,
        idx < pow2(m),
    ensures
        remove_bit(idx, b) < pow2((m - 1) as nat),
        bit_of(idx, b) == 0 || bit_of(idx, b) == 1,
        idx == insert_zero_bit(remove_bit(idx, b), b) + bit_of(idx, b) * pow2(b),
{
    let pb = pow2(b) as int;
    let pb1 = pow2(b + 1) as int;
    let pe = pow2((m - 1 - b) as nat) as int;
    lemma_pow2_pos(b);
    lemma_pow2_pos(b + 1);
    lemma_pow2_pos((m - 1 - b) as nat);
    assert(pow2(m) == pb1 * pe) by {
        lemma_pow2_adds(b + 1, (m - 1 - b) as nat);
    }
    assert(pow2((m - 1) as nat) == pb * pe) by {
        lemma_pow2_adds(b, (m - 1 - b) as nat);
    }
    lemma_pow2_unfold(b + 1);
    let h = idx as int / pb1;
    let s = idx as int % pb1;
    lemma_multiply_divide_lt(idx as int, pb1, pe);
    lemma_mod_bound(idx as int, pb1);
    lemma_fundamental_div_mod(idx as int, pb1);
    let bit = bit_of(idx, b) as int;
    let u = idx as int % pb;
    lemma_mod_bound(idx as int, pb);
    assert(idx as int % (pb * 2) == pb * ((idx as int / pb) % 2) + idx as int % pb) by {
        lemma_mod_breakdown(idx as int, pb, 2);
    }
    assert(pb * 2 == pb1);
    assert(s == pb * bit + u) by {
        lemma_mod_bound(idx as int / pb, 2);
    }
    let rm = remove_bit(idx, b) as int;
    assert(rm == h * pb + u);
    // bound on the removed index
    lemma_mod_bound(idx as int / pb, 2);
    lemma_mul_inequality(h, pe - 1, pb);
    lemma_mul_is_distributive_sub_other_way(pb, pe, 1);
    assert(rm < pb * pe);
    // re-insertion
    lemma_fundamental_div_mod_converse(rm, pb, h, u);
    assert(insert_zero_bit(remove_bit(idx, b), b) == h * pb1 + u);
    assert(idx as int == h * pb1 + bit * pb + u) by (nonlinear_arith)
        requires
            idx as int == h * pb1 + s,
            s == pb * bit + u,
    ;
}

/// Exactly the powers of two, by repeated halving.
pub open spec fn is_power_of_two(l: nat) -> bool
    decreases l,
{
    if l == 0 {
        false
    } else if l == 1 {
        true
    } else {
        l % 2 == 0 && is_power_of_two(l / 2)
    }
}

/// `2^e` as a machine integer.
pub fn pow2_usize(e: usize) -> (r: usize)
    requires
        pow2(e as nat) <= usize::MAX,
    ensures
        r as nat == pow2(e as nat),
{
    let mut r: usize = 1;
    let mut i: usize = 0;
    proof {
        lemma2_to64();
    }
    while i < e
        invariant
            i <= e,
            r as nat == pow2(i as nat),
            pow2(e as nat) <= usize::MAX,
        decreases e - i,
    {
        proof {
            lemma_pow2_unfold((i + 1) as nat);
            if ((i + 1) as nat) < (e as nat) {
                lemma_pow2_strictly_increases((i + 1) as nat, e as nat);
            }
        }
        r = r * 2;
        i = i + 1;
    }
    r
}

/// Inserts a 0 bit into `value` at position `index`.
pub fn insert_bit(value: usize, index: usize) -> (r: usize)
    requires
        pow2((index + 1) as nat) <= usize::MAX,
        insert_zero_bit(value as nat, index as nat) <= usize::MAX,
    ensures
        r as nat == insert_zero_bit(value as nat, index as nat),
{
    proof {
        lemma_pow2_strictly_increases(index as nat, (index + 1) as nat);
        lemma_pow2_at_least((index + 1) as nat);
    }
    let pb = pow2_usize(index);
    let pb1 = pow2_usize(index + 1);
    proof {
        lemma_pow2_pos(index as nat);
        lemma_mod_bound(value as int, pb as int);
    }
    let high = value / pb;
    let low = value % pb;
    high * pb1 + low
}

/// `p` is the `k`-th pair of full-hypercube indices for binding variable
/// `index`: both insert a bit at the position of that variable, a 0 and a 1.
pub open spec fn hypercube_pair(p: (usize, usize), k: int, index: nat, n_vars: nat) -> bool {
    &&& p.0 as nat == insert_zero_bit(k as nat, (n_vars - index - 1) as nat)
    &&& p.1 as nat == insert_zero_bit(k as nat, (n_vars - index - 1) as nat) + pow2(
        (n_vars - index - 1) as nat,
    )
    &&& (p.1 as nat) < pow2(n_vars)
}

/// For every index `k` of the halved hypercube, the pair of indices of the full
/// hypercube that differ exactly in the bit of variable `index`.
pub fn pairs(index: usize, n_vars: usize) -> (r: Vec<(usize, usize)>)
    requires
        index < n_vars,
        pow2(n_vars as nat) <= usize::MAX,
    ensures
        r@.len() == pow2((n_vars - 1) as nat),
        forall|k: int|
            0 <= k < r@.len() ==> hypercube_pair(#[trigger] r@[k], k, index as nat, n_vars as nat),
{
    let ghost b = (n_vars - index - 1) as nat;
    let target_hc = n_vars - 1;
    proof {
        if (target_hc as nat) < n_vars as nat {
            lemma_pow2_strictly_increases(target_hc as nat, n_vars as nat);
        }
    }
    let len = pow2_usize(target_hc);
    let inverted_index = n_vars - index - 1;
    proof {
        if b + 1 < n_vars as nat {
            lemma_pow2_strictly_increases((b + 1) as nat, n_vars as nat);
        }
        lemma_pow2_strictly_increases(b, (b + 1) as nat);
    }
    let pb = pow2_usize(inverted_index);
    let mut result: Vec<(usize, usize)> = Vec::new();
    let mut val: usize = 0;
    while val < len
        invariant
            val <= len,
            len as nat == pow2((n_vars - 1) as nat),
            pb as nat == pow2(b),
            inverted_index as nat == b,
            b == (n_vars - index - 1) as nat,
            b < n_vars as nat,
            index < n_vars,
            pow2(n_vars as nat) <= usize::MAX,
            pow2((b + 1) as nat) <= usize::MAX,
            result@.len() == val,
            forall|k: int|
                0 <= k < val ==> hypercube_pair(
                    #[trigger] result@[k],
                    k,
                    index as nat,
                    n_vars as nat,
                ),
        decreases len - val,
    {
        proof {
            lemma_insert_zero_bit(val as nat, b, n_vars as nat);
        }
        let insert_zero = insert_bit(val, inverted_index);
        let insert_one = insert_zero + pb;
        result.push((insert_zero, insert_one));
        val = val + 1;
    }
    result
}

/// The canonical values of a vector of field elements.
pub open spec fn fq_seq(s: Seq<Fq>) -> Seq<nat> {
    s.map(|i: int, x: Fq| fq_val(x))
}

/// The evaluations after binding variable `idx` (of `n_vars`) to `t`: entry `k`
/// interpolates between the two evaluations whose indices differ exactly in the
/// bit of variable `idx`.
pub open spec fn spec_pe(e: Seq<nat>, n_vars: nat, idx: nat, t: nat) -> Seq<nat> {
    Seq::new(
        pow2((n_vars - 1) as nat),
        |k: int|
            {
                let b = (n_vars - idx - 1) as nat;
                let z = insert_zero_bit(k as nat, b);
                f_aff(e[z as int], e[(z + pow2(b)) as int], t)
            },
    )
}

/// The evaluations after binding, in order, each value in `vs` to the leading
/// variable of what remains: the fold that defines full evaluation.
pub open spec fn spec_mpe(e: Seq<nat>, n_vars: nat, vs: Seq<nat>) -> Seq<nat>
    decreases vs.len(),
{
    if vs.len() == 0 {
        e
    } else {
        spec_mpe(spec_pe(e, n_vars, 0, vs[0]), (n_vars - 1) as nat, vs.drop_first())
    }
}

/// The value of the multilinear polynomial with evaluations `e` at `point`:
/// bind every coordinate, then read the one evaluation left.
pub open spec fn spec_eval(e: Seq<nat>, n_vars: nat, point: Seq<nat>) -> nat {
    spec_mpe(e, n_vars, point)[0]
}

/// Binding one more value continues the fold: binding `vs` then `t` is binding
/// `t` into the polynomial already bound by `vs`.
pub proof fn lemma_spec_mpe_snoc(e: Seq<nat>, n_vars: nat, vs: Seq<nat>, t: nat)
    requires
        vs.len() < n_vars,
    ensures
        spec_mpe(e, n_vars, vs.push(t)) == spec_pe(
            spec_mpe(e, n_vars, vs),
            (n_vars - vs.len()) as nat,
            0,
            t,
        ),
    decreases vs.len(),
{
    if vs.len() == 0 {
        assert(vs.push(t)[0] == t);
        assert(vs.push(t).drop_first() =~= Seq::<nat>::empty());
        let inner = spec_pe(e, n_vars, 0, t);
        assert(spec_mpe(e, n_vars, vs.push(t)) == spec_mpe(
            inner,
            (n_vars - 1) as nat,
            Seq::<nat>::empty(),
        ));
        assert(spec_mpe(inner, (n_vars - 1) as nat, Seq::<nat>::empty()) == inner);
        assert(spec_mpe(e, n_vars, vs) == e);
    } else {
        assert(vs.push(t)[0] == vs[0]);
        assert(vs.push(t).drop_first() =~= vs.drop_first().push(t));
        let inner = spec_pe(e, n_vars, 0, vs[0]);
        assert(spec_mpe(e, n_vars, vs.push(t)) == spec_mpe(
            inner,
            (n_vars - 1) as nat,
            vs.drop_first().push(t),
        ));
        lemma_spec_mpe_snoc(inner, (n_vars - 1) as nat, vs.drop_first(), t);
        assert(spec_mpe(e, n_vars, vs) == spec_mpe(inner, (n_vars - 1) as nat, vs.drop_first()));
    }
}

/// Pointwise field addition of two evaluation vectors.
pub open spec fn spec_add_seq(a: Seq<nat>, b: Seq<nat>) -> Seq<nat> {
    Seq::new(a.len(), |i: int| f_add(a[i], b[i]))
}

/// Pointwise field subtraction of two evaluation vectors.
pub open spec fn spec_sub_seq(a: Seq<nat>, b: Seq<nat>) -> Seq<nat> {
    Seq::new(a.len(), |i: int| f_sub(a[i], b[i]))
}

/// Pointwise field multiplication of two evaluation vectors.
pub open spec fn spec_mul_seq(a: Seq<nat>, b: Seq<nat>) -> Seq<nat> {
    Seq::new(a.len(), |i: int| f_mul(a[i], b[i]))
}

/// Every evaluation multiplied by the scalar `c`.
pub open spec fn spec_scale_seq(a: Seq<nat>, c: nat) -> Seq<nat> {
    Seq::new(a.len(), |i: int| f_mul(a[i], c))
}

/// A multilinear polynomial in evaluation form: `evals[i]` is its value at the
/// hypercube vertex whose bits are the bits of `i`.
pub struct MultilinearPoly {
    pub evals: Vec<Fq>,
    pub n_vars: usize,
}

impl MultilinearPoly {
    /// The structural invariant: exactly one evaluation per hypercube vertex.
    pub open spec fn wf(&self) -> bool {
        self.evals@.len() == pow2(self.n_vars as nat)
    }

    /// The canonical values of the evaluation vector: the mathematical content
    /// of the polynomial.
    pub open spec fn vals(&self) -> Seq<nat> {
        fq_seq(self.evals@)
    }

    /// Builds the polynomial from its evaluation vector; rejects any length
    /// that is not a power of two.
    pub fn new(evaluations: Vec<Fq>) -> (r: Result<Self, PolyError>)
        ensures
            r is Ok <==> is_power_of_two(evaluations@.len()),
            r matches Ok(p) ==> p.evals@ == evaluations@ && p.wf(),
            r matches Err(e) ==> e == PolyError::InvalidShape,
    {
        let len = evaluations.len();
        if len == 0 {
            return Err(PolyError::InvalidShape);
        }
        let mut m = len;
        let mut k: usize = 0;
        proof {
            lemma2_to64();
        }
        while m > 1
            invariant
                1 <= m <= len,
                len == evaluations@.len(),
                len as nat == m as nat * pow2(k as nat),
                is_power_of_two(len as nat) <==> is_power_of_two(m as nat),
            decreases m,
        {
            if m % 2 != 0 {
                proof {
                    assert(!is_power_of_two(m as nat));
                }
                return Err(PolyError::InvalidShape);
            }
            proof {
                lemma_pow2_unfold((k + 1) as nat);
                lemma_pow2_pos(k as nat);
                assert(pow2(k as nat) <= len as nat) by (nonlinear_arith)
                    requires
                        len as nat == m as nat * pow2(k as nat),
                        m as nat >= 1,
                        pow2(k as nat) > 0,
                ;
                lemma_pow2_at_least(k as nat);
                assert(len as nat == (m as nat / 2) * pow2((k + 1) as nat)) by (nonlinear_arith)
                    requires
                        len as nat == m as nat * pow2(k as nat),
                        m as nat % 2 == 0,
                        pow2((k + 1) as nat) == 2 * pow2(k as nat),
                ;
            }
            m = m / 2;
            k = k + 1;
        }
        proof {
            assert(len as nat == pow2(k as nat));
        }
        Ok(MultilinearPoly { evals: evaluations, n_vars: k })
    }

    /// Binds variable `index` to `value`, producing the polynomial over the
    /// remaining variables.  Entry `k` of the result interpolates the two
    /// evaluations of `self` paired by `index`.
    pub fn partial_evaluate(&self, index: usize, value: &Fq) -> (r: Self)
        requires
            self.wf(),
            index < self.n_vars,
        ensures
            r.wf(),
            r.n_vars == self.n_vars - 1,
            r.vals() == spec_pe(self.vals(), self.n_vars as nat, index as nat, fq_val(*value)),
    {
        let full_len = self.evals.len();
        proof {
            assert(full_len == pow2(self.n_vars as nat));
        }
        let ps = pairs(index, self.n_vars);
        let ghost target = spec_pe(
            self.vals(),
            self.n_vars as nat,
            index as nat,
            fq_val(*value),
        );
        let mut result: Vec<Fq> = Vec::new();
        let mut k: usize = 0;
        while k < ps.len()
            invariant
                k <= ps.len(),
                self.wf(),
                index < self.n_vars,
                ps@.len() == pow2((self.n_vars - 1) as nat),
                forall|j: int|
                    0 <= j < ps@.len() ==> hypercube_pair(
                        #[trigger] ps@[j],
                        j,
                        index as nat,
                        self.n_vars as nat,
                    ),
                target == spec_pe(
                    self.vals(),
                    self.n_vars as nat,
                    index as nat,
                    fq_val(*value),
                ),
                result@.len() == k,
                forall|j: int| 0 <= j < k ==> fq_val(#[trigger] result@[j]) == target[j],
            decreases ps.len() - k,
        {
            let (zero_idx, one_idx) = ps[k];
            let a = self.evals[zero_idx];
            let b = self.evals[one_idx];
            let interp = fq_add(&a, &fq_mul(value, &fq_sub(&b, &a)));
            result.push(interp);
            k = k + 1;
        }
        let out = MultilinearPoly { evals: result, n_vars: self.n_vars - 1 };
        proof {
            assert(out.vals() =~= target);
        }
        out
    }

    /// An owned copy with the same evaluations.
    pub(crate) fn duplicate(&self) -> (r: Self)
        ensures
            r.evals@ == self.evals@,
            r.n_vars == self.n_vars,
    {
        let mut evals: Vec<Fq> = Vec::new();
        let mut i: usize = 0;
        while i < self.evals.len()
            invariant
                i <= self.evals@.len(),
                evals@ =~= self.evals@.take(i as int),
            decreases self.evals@.len() - i,
        {
            evals.push(self.evals[i]);
            i = i + 1;
        }
        proof {
            assert(evals@ =~= self.evals@);
        }
        MultilinearPoly { evals, n_vars: self.n_vars }
    }

    /// Evaluates at a full point, by binding the leading remaining variable to
    /// each value in order; rejects a point of the wrong arity.
    pub fn evaluate(&self, values: Vec<Fq>) -> (r: Result<Fq, PolyError>)
        requires
            self.wf(),
        ensures
            r is Ok <==> values@.len() == self.n_vars,
            r matches Ok(v) ==> fq_val(v) == spec_eval(
                self.vals(),
                self.n_vars as nat,
                fq_seq(values@),
            ),
            r matches Err(e) ==> e == PolyError::ArityMismatch,
    {
        if values.len() != self.n_vars {
            return Err(PolyError::ArityMismatch);
        }
        let mut cur = self.duplicate();
        let mut i: usize = 0;
        while i < values.len()
            invariant
                i <= values@.len(),
                values@.len() == self.n_vars,
                self.wf(),
                cur.wf(),
                cur.n_vars == self.n_vars - i,
                cur.vals() == spec_mpe(
                    self.vals(),
                    self.n_vars as nat,
                    fq_seq(values@).take(i as int),
                ),
            decreases values@.len() - i,
        {
            let ghost prefix = fq_seq(values@).take(i as int);
            proof {
                lemma_spec_mpe_snoc(self.vals(), self.n_vars as nat, prefix, fq_val(values@[i as int]));
                assert(prefix.push(fq_val(values@[i as int])) =~= fq_seq(values@).take(i + 1));
            }
            cur = cur.partial_evaluate(0, &values[i]);
            i = i + 1;
        }
        proof {
            assert(fq_seq(values@).take(values@.len() as int) =~= fq_seq(values@));
            vstd::arithmetic::power2::lemma2_to64();
        }
        Ok(cur.evals[0])
    }

    /// Binds a prefix of the variables, in order, returning the reduced
    /// polynomial; rejects more values than there are variables.
    pub fn multi_partial_evaluate(&self, values: &[Fq]) -> (r: Result<Self, PolyError>)
        requires
            self.wf(),
        ensures
            r is Ok <==> values@.len() <= self.n_vars,
            r matches Ok(p) ==> {
                &&& p.wf()
                &&& p.n_vars == self.n_vars - values@.len()
                &&& p.vals() == spec_mpe(self.vals(), self.n_vars as nat, fq_seq(values@))
            },
            r matches Err(e) ==> e == PolyError::ArityMismatch,
    {
        if values.len() > self.n_vars {
            return Err(PolyError::ArityMismatch);
        }
        let mut cur = self.duplicate();
        let mut i: usize = 0;
        while i < values.len()
            invariant
                i <= values@.len(),
                values@.len() <= self.n_vars,
                self.wf(),
                cur.wf(),
                cur.n_vars == self.n_vars - i,
                cur.vals() == spec_mpe(
                    self.vals(),
                    self.n_vars as nat,
                    fq_seq(values@).take(i as int),
                ),
            decreases values@.len() - i,
        {
            let ghost prefix = fq_seq(values@).take(i as int);
            proof {
                lemma_spec_mpe_snoc(self.vals(), self.n_vars as nat, prefix, fq_val(values@[i as int]));
                assert(prefix.push(fq_val(values@[i as int])) =~= fq_seq(values@).take(i + 1));
            }
            cur = cur.partial_evaluate(0, &values[i]);
            i = i + 1;
        }
        proof {
            assert(fq_seq(values@).take(values@.len() as int) =~= fq_seq(values@));
        }
        Ok(cur)
    }

    /// Pointwise sum; the operands must have evaluation vectors of one length.
    pub fn add(&self, other: &Self) -> (r: Result<Self, PolyError>)
        requires
            self.wf(),
            other.wf(),
        ensures
            r is Ok <==> self.evals@.len() == other.evals@.len(),
            r matches Ok(p) ==> {
                &&& p.wf()
                &&& p.n_vars == self.n_vars
                &&& p.vals() == spec_add_seq(self.vals(), other.vals())
            },
            r matches Err(e) ==> e == PolyError::ShapeMismatch,
    {
        if self.evals.len() != other.evals.len() {
            return Err(PolyError::ShapeMismatch);
        }
        let mut evals: Vec<Fq> = Vec::new();
        let mut i: usize = 0;
        while i < self.evals.len()
            invariant
                i <= self.evals@.len(),
                self.evals@.len() == other.evals@.len(),
                evals@.len() == i,
                forall|j: int|
                    0 <= j < i ==> fq_val(#[trigger] evals@[j]) == f_add(
                        self.vals()[j],
                        other.vals()[j],
                    ),
            decreases self.evals@.len() - i,
        {
            evals.push(fq_add(&self.evals[i], &other.evals[i]));
            i = i + 1;
        }
        let out = MultilinearPoly { evals, n_vars: self.n_vars };
        proof {
            assert(out.vals() =~= spec_add_seq(self.vals(), other.vals()));
        }
        Ok(out)
    }

    /// Pointwise difference; the operands must have evaluation vectors of one
    /// length.
    pub fn sub(&self, other: &Self) -> (r: Result<Self, PolyError>)
        requires
            self.wf(),
            other.wf(),
        ensures
            r is Ok <==> self.evals@.len() == other.evals@.len(),
            r matches Ok(p) ==> {
                &&& p.wf()
                &&& p.n_vars == self.n_vars
                &&& p.vals() == spec_sub_seq(self.vals(), other.vals())
            },
            r matches Err(e) ==> e == PolyError::ShapeMismatch,
    {
        if self.evals.len() != other.evals.len() {
            return Err(PolyError::ShapeMismatch);
        }
        let mut evals: Vec<Fq> = Vec::new();
        let mut i: usize = 0;
        while i < self.evals.len()
            invariant
                i <= self.evals@.len(),
                self.evals@.len() == other.evals@.len(),
                evals@.len() == i,
                forall|j: int|
                    0 <= j < i ==> fq_val(#[trigger] evals@[j]) == f_sub(
                        self.vals()[j],
                        other.vals()[j],
                    ),
            decreases self.evals@.len() - i,
        {
            evals.push(fq_sub(&self.evals[i], &other.evals[i]));
            i = i + 1;
        }
        let out = MultilinearPoly { evals, n_vars: self.n_vars };
        proof {
            assert(out.vals() =~= spec_sub_seq(self.vals(), other.vals()));
        }
        Ok(out)
    }

    /// Pointwise product; the operands must have evaluation vectors of one
    /// length.
    pub fn mul(&self, other: &Self) -> (r: Result<Self, PolyError>)
        requires
            self.wf(),
            other.wf(),
        ensures
            r is Ok <==> self.evals@.len() == other.evals@.len(),
            r matches Ok(p) ==> {
                &&& p.wf()
                &&& p.n_vars == self.n_vars
                &&& p.vals() == spec_mul_seq(self.vals(), other.vals())
            },
            r matches Err(e) ==> e == PolyError::ShapeMismatch,
    {
        if self.evals.len() != other.evals.len() {
            return Err(PolyError::ShapeMismatch);
        }
        let mut evals: Vec<Fq> = Vec::new();
        let mut i: usize = 0;
        while i < self.evals.len()
            invariant
                i <= self.evals@.len(),
                self.evals@.len() == other.evals@.len(),
                evals@.len() == i,
                forall|j: int|
                    0 <= j < i ==> fq_val(#[trigger] evals@[j]) == f_mul(
                        self.vals()[j],
                        other.vals()[j],
                    ),
            decreases self.evals@.len() - i,
        {
            evals.push(fq_mul(&self.evals[i], &other.evals[i]));
            i = i + 1;
        }
        let out = MultilinearPoly { evals, n_vars: self.n_vars };
        proof {
            assert(out.vals() =~= spec_mul_seq(self.vals(), other.vals()));
        }
        Ok(out)
    }

    /// Multiplies every evaluation by the scalar `value`.
    pub fn scale(&self, value: Fq) -> (r: Self)
        requires
            self.wf(),
        ensures
            r.wf(),
            r.n_vars == self.n_vars,
            r.vals() == spec_scale_seq(self.vals(), fq_val(value)),
    {
        let mut evals: Vec<Fq> = Vec::new();
        let mut i: usize = 0;
        while i < self.evals.len()
            invariant
                i <= self.evals@.len(),
                evals@.len() == i,
                forall|j: int|
                    0 <= j < i ==> fq_val(#[trigger] evals@[j]) == f_mul(
                        self.vals()[j],
                        fq_val(value),
                    ),
            decreases self.evals@.len() - i,
        {
            evals.push(fq_mul(&self.evals[i], &value));
            i = i + 1;
        }
        let out = MultilinearPoly { evals, n_vars: self.n_vars };
        proof {
            assert(out.vals() =~= spec_scale_seq(self.vals(), fq_val(value)));
        }
        out
    }
}

/// The field sum of the first `i` entries of `s`, folded left from zero as the
/// running summations in the protocols do.
pub open spec fn spec_sum_prefix(s: Seq<nat>, i: int) -> nat
    decreases i,
{
    if i <= 0 {
        0
    } else {
        f_add(spec_sum_prefix(s, i - 1), s[i - 1])
    }
}

/// The field sum of all entries of `s`.
pub open spec fn spec_sum_seq(s: Seq<nat>) -> nat {
    spec_sum_prefix(s, s.len() as int)
}

/// An owned copy of a vector of field elements.
pub(crate) fn clone_fq_vec(v: &Vec<Fq>) -> (r: Vec<Fq>)
    ensures
        r@ == v@,
{
    let mut out: Vec<Fq> = Vec::new();
    let mut i: usize = 0;
    while i < v.len()
        invariant
            i <= v@.len(),
            out@ =~= v@.take(i as int),
        decreases v@.len() - i,
    {
        out.push(v[i]);
        i = i + 1;
    }
    proof {
        assert(out@ =~= v@);
    }
    out
}

/// The pointwise field sum of two equally long vectors.
fn add_fq_vecs(a: &Vec<Fq>, b: &Vec<Fq>) -> (r: Vec<Fq>)
    requires
        a@.len() == b@.len(),
    ensures
        fq_seq(r@) == spec_add_seq(fq_seq(a@), fq_seq(b@)),
        r@.len() == a@.len(),
{
    let mut out: Vec<Fq> = Vec::new();
    let mut i: usize = 0;
    while i < a.len()
        invariant
            i <= a@.len(),
            a@.len() == b@.len(),
            out@.len() == i,
            forall|j: int|
                0 <= j < i ==> fq_val(#[trigger] out@[j]) == f_add(fq_seq(a@)[j], fq_seq(b@)[j]),
        decreases a@.len() - i,
    {
        out.push(fq_add(&a[i], &b[i]));
        i = i + 1;
    }
    proof {
        assert(fq_seq(out@) =~= spec_add_seq(fq_seq(a@), fq_seq(b@)));
    }
    out
}

/// The pointwise field product of two equally long vectors.
fn mul_fq_vecs(a: &Vec<Fq>, b: &Vec<Fq>) -> (r: Vec<Fq>)
    requires
        a@.len() == b@.len(),
    ensures
        fq_seq(r@) == spec_mul_seq(fq_seq(a@), fq_seq(b@)),
        r@.len() == a@.len(),
{
    let mut out: Vec<Fq> = Vec::new();
    let mut i: usize = 0;
    while i < a.len()
        invariant
            i <= a@.len(),
            a@.len() == b@.len(),
            out@.len() == i,
            forall|j: int|
                0 <= j < i ==> fq_val(#[trigger] out@[j]) == f_mul(fq_seq(a@)[j], fq_seq(b@)[j]),
        decreases a@.len() - i,
    {
        out.push(fq_mul(&a[i], &b[i]));
        i = i + 1;
    }
    proof {
        assert(fq_seq(out@) =~= spec_mul_seq(fq_seq(a@), fq_seq(b@)));
    }
    out
}

/// The field product of the evaluations at `point` of the first `i` factors.
pub open spec fn spec_pp_eval_prefix(fs: Seq<Seq<nat>>, n_vars: nat, point: Seq<nat>, i: int) -> nat
    decreases i,
{
    if i <= 0 {
        1
    } else {
        f_mul(spec_pp_eval_prefix(fs, n_vars, point, i - 1), spec_eval(fs[i - 1], n_vars, point))
    }
}

/// The value of a product of multilinear factors at `point`.
pub open spec fn spec_pp_eval(fs: Seq<Seq<nat>>, n_vars: nat, point: Seq<nat>) -> nat {
    spec_pp_eval_prefix(fs, n_vars, point, fs.len() as int)
}

/// The pointwise field product of the first `i` factors (at least one).
pub open spec fn spec_pp_reduce_prefix(fs: Seq<Seq<nat>>, i: int) -> Seq<nat>
    decreases i,
{
    if i <= 1 {
        fs[0]
    } else {
        spec_mul_seq(spec_pp_reduce_prefix(fs, i - 1), fs[i - 1])
    }
}

/// The pointwise field product of all factors.
pub open spec fn spec_pp_reduce(fs: Seq<Seq<nat>>) -> Seq<nat> {
    spec_pp_reduce_prefix(fs, fs.len() as int)
}

/// A product of multilinear factors, each given by its evaluation vector.
pub struct ProductPoly {
    pub evaluation: Vec<MultilinearPoly>,
}

impl ProductPoly {
    /// At least one factor, every factor well formed, and all factors over the
    /// same variables.
    pub open spec fn pp_wf(&self) -> bool {
        &&& self.evaluation@.len() >= 1
        &&& forall|i: int| 0 <= i < self.evaluation@.len() ==> (#[trigger] self.evaluation@[i]).wf()
        &&& forall|i: int|
            0 <= i < self.evaluation@.len() ==> (#[trigger] self.evaluation@[i]).n_vars
                == self.evaluation@[0].n_vars
    }

    /// The factors' canonical evaluation vectors.
    pub open spec fn factors(&self) -> Seq<Seq<nat>> {
        self.evaluation@.map(|i: int, p: MultilinearPoly| p.vals())
    }

    /// The number of variables each factor depends on.
    pub open spec fn pp_n_vars(&self) -> nat {
        self.evaluation@[0].n_vars as nat
    }

    /// Builds a product from the factors' evaluation vectors; rejects an empty
    /// list or unequal lengths as a shape mismatch, and a length that is not a
    /// power of two as an invalid shape.
    pub fn new(evaluations: Vec<Vec<Fq>>) -> (r: Result<Self, PolyError>)
        ensures
            r is Ok <==> {
                &&& evaluations@.len() >= 1
                &&& forall|i: int|
                    0 <= i < evaluations@.len() ==> (#[trigger] evaluations@[i])@.len()
                        == evaluations@[0]@.len()
                &&& is_power_of_two(evaluations@[0]@.len())
            },
            r matches Ok(p) ==> {
                &&& p.pp_wf()
                &&& p.factors() == evaluations@.map(|i: int, v: Vec<Fq>| fq_seq(v@))
                &&& p.evaluation@.len() == evaluations@.len()
            },
            r matches Err(e) ==> (e == PolyError::ShapeMismatch || e == PolyError::InvalidShape),
            r matches Err(e) && e == PolyError::InvalidShape ==> {
                &&& evaluations@.len() >= 1
                &&& forall|i: int|
                    0 <= i < evaluations@.len() ==> (#[trigger] evaluations@[i])@.len()
                        == evaluations@[0]@.len()
            },
    {
        if evaluations.len() == 0 {
            return Err(PolyError::ShapeMismatch);
        }
        let length_1 = evaluations[0].len();
        let mut i: usize = 0;
        while i < evaluations.len()
            invariant
                i <= evaluations@.len(),
                evaluations@.len() >= 1,
                length_1 == evaluations@[0]@.len(),
                forall|j: int|
                    0 <= j < i ==> (#[trigger] evaluations@[j])@.len() == evaluations@[0]@.len(),
            decreases evaluations@.len() - i,
        {
            if evaluations[i].len() != length_1 {
                return Err(PolyError::ShapeMismatch);
            }
            i = i + 1;
        }
        let mut polys: Vec<MultilinearPoly> = Vec::new();
        let mut j: usize = 0;
        while j < evaluations.len()
            invariant
                j <= evaluations@.len(),
                evaluations@.len() >= 1,
                forall|k: int|
                    0 <= k < evaluations@.len() ==> (#[trigger] evaluations@[k])@.len()
                        == evaluations@[0]@.len(),
                j >= 1 ==> is_power_of_two(evaluations@[0]@.len()),
                polys@.len() == j,
                forall|k: int|
                    0 <= k < j ==> (#[trigger] polys@[k]).evals@ == evaluations@[k]@,
                forall|k: int| 0 <= k < j ==> (#[trigger] polys@[k]).wf(),
                forall|k: int|
                    0 <= k < j ==> (#[trigger] polys@[k]).n_vars as nat == polys@[0].n_vars as nat,
            decreases evaluations@.len() - j,
        {
            let copied = clone_fq_vec(&evaluations[j]);
            match MultilinearPoly::new(copied) {
                Ok(p) => {
                    proof {
                        if j >= 1 {
                            let n0 = polys@[0].n_vars as nat;
                            let nj = p.n_vars as nat;
                            if n0 < nj {
                                lemma_pow2_strictly_increases(n0, nj);
                            }
                            if nj < n0 {
                                lemma_pow2_strictly_increases(nj, n0);
                            }
                        }
                    }
                    polys.push(p);
                }
                Err(_) => {
                    return Err(PolyError::InvalidShape);
                }
            }
            j = j + 1;
        }
        let out = ProductPoly { evaluation: polys };
        proof {
            assert(out.factors() =~= evaluations@.map(|i: int, v: Vec<Fq>| fq_seq(v@)));
        }
        Ok(out)
    }

    /// The number of factors: the degree the product has in each bound variable.
    pub fn get_degree(&self) -> (r: usize)
        ensures
            r == self.evaluation@.len(),
    {
        self.evaluation.len()
    }

    /// Evaluates every factor at `values` and multiplies the results.
    pub fn evaluate(&self, values: Vec<Fq>) -> (r: Result<Fq, PolyError>)
        requires
            self.pp_wf(),
        ensures
            r is Ok <==> values@.len() == self.pp_n_vars(),
            r matches Ok(v) ==> fq_val(v) == spec_pp_eval(
                self.factors(),
                self.pp_n_vars(),
                fq_seq(values@),
            ),
            r matches Err(e) ==> e == PolyError::ArityMismatch,
    {
        if values.len() != self.evaluation[0].n_vars {
            return Err(PolyError::ArityMismatch);
        }
        let mut acc = Fq::from_u64(1);
        let mut i: usize = 0;
        while i < self.evaluation.len()
            invariant
                i <= self.evaluation@.len(),
                self.pp_wf(),
                values@.len() == self.pp_n_vars(),
                fq_val(acc) == spec_pp_eval_prefix(
                    self.factors(),
                    self.pp_n_vars(),
                    fq_seq(values@),
                    i as int,
                ),
            decreases self.evaluation@.len() - i,
        {
            let point = clone_fq_vec(&values);
            let v = match self.evaluation[i].evaluate(point) {
                Ok(v) => v,
                Err(e) => {
                    return Err(e);
                }
            };
            acc = fq_mul(&acc, &v);
            i = i + 1;
        }
        Ok(acc)
    }

    /// Binds the leading variable of every factor to `value`.
    pub fn partial_evaluate(&self, value: &Fq) -> (r: Self)
        requires
            self.pp_wf(),
            self.pp_n_vars() >= 1,
        ensures
            r.pp_wf(),
            r.evaluation@.len() == self.evaluation@.len(),
            r.pp_n_vars() == self.pp_n_vars() - 1,
            r.factors() == Seq::new(
                self.factors().len(),
                |i: int| spec_pe(self.factors()[i], self.pp_n_vars(), 0, fq_val(*value)),
            ),
    {
        let mut out: Vec<MultilinearPoly> = Vec::new();
        let mut i: usize = 0;
        while i < self.evaluation.len()
            invariant
                i <= self.evaluation@.len(),
                self.pp_wf(),
                self.pp_n_vars() >= 1,
                out@.len() == i,
                forall|j: int| 0 <= j < i ==> (#[trigger] out@[j]).wf(),
                forall|j: int|
                    0 <= j < i ==> (#[trigger] out@[j]).n_vars as nat == self.pp_n_vars() - 1,
                forall|j: int|
                    0 <= j < i ==> (#[trigger] out@[j]).vals() == spec_pe(
                        self.factors()[j],
                        self.pp_n_vars(),
                        0,
                        fq_val(*value),
                    ),
            decreases self.evaluation@.len() - i,
        {
            let p = self.evaluation[i].partial_evaluate(0, value);
            out.push(p);
            i = i + 1;
        }
        let res = ProductPoly { evaluation: out };
        proof {
            assert(res.factors() =~= Seq::new(
                self.factors().len(),
                |i: int| spec_pe(self.factors()[i], self.pp_n_vars(), 0, fq_val(*value)),
            ));
        }
        res
    }

    /// Collapses the factor list to one evaluation vector by pointwise
    /// multiplication, folding over every factor.
    pub fn reduce(&self) -> (r: Vec<Fq>)
        requires
            self.pp_wf(),
        ensures
            fq_seq(r@) == spec_pp_reduce(self.factors()),
            r@.len() == self.evaluation@[0].evals@.len(),
    {
        let mut acc = clone_fq_vec(&self.evaluation[0].evals);
        let mut i: usize = 1;
        while i < self.evaluation.len()
            invariant
                1 <= i <= self.evaluation@.len() || self.evaluation@.len() < 1,
                i >= 1,
                self.pp_wf(),
                acc@.len() == self.evaluation@[0].evals@.len(),
                fq_seq(acc@) == spec_pp_reduce_prefix(self.factors(), i as int),
            decreases self.evaluation@.len() - i,
        {
            acc = mul_fq_vecs(&acc, &self.evaluation[i].evals);
            i = i + 1;
        }
        acc
    }

    /// An owned copy with the same factors.
    pub(crate) fn duplicate(&self) -> (r: Self)
        requires
            self.pp_wf(),
        ensures
            r.pp_wf(),
            r.factors() == self.factors(),
            r.evaluation@.len() == self.evaluation@.len(),
            r.pp_n_vars() == self.pp_n_vars(),
    {
        let mut out: Vec<MultilinearPoly> = Vec::new();
        let mut i: usize = 0;
        while i < self.evaluation.len()
            invariant
                i <= self.evaluation@.len(),
                self.pp_wf(),
                out@.len() == i,
                forall|j: int|
                    0 <= j < i ==> (#[trigger] out@[j]).evals@ == self.evaluation@[j].evals@,
                forall|j: int|
                    0 <= j < i ==> (#[trigger] out@[j]).n_vars == self.evaluation@[j].n_vars,
            decreases self.evaluation@.len() - i,
        {
            out.push(self.evaluation[i].duplicate());
            i = i + 1;
        }
        let r = ProductPoly { evaluation: out };
        proof {
            assert(r.factors() =~= self.factors());
        }
        r
    }
}

/// The field sum of the values at `point` of the first `i` terms.
pub open spec fn spec_sp_eval_prefix(
    ts: Seq<Seq<Seq<nat>>>,
    n_vars: nat,
    point: Seq<nat>,
    i: int,
) -> nat
    decreases i,
{
    if i <= 0 {
        0
    } else {
        f_add(spec_sp_eval_prefix(ts, n_vars, point, i - 1), spec_pp_eval(ts[i - 1], n_vars, point))
    }
}

/// The value of a sum of products of multilinear factors at `point`.
pub open spec fn spec_sp_eval(ts: Seq<Seq<Seq<nat>>>, n_vars: nat, point: Seq<nat>) -> nat {
    spec_sp_eval_prefix(ts, n_vars, point, ts.len() as int)
}

/// The pointwise field sum of the reduced vectors of the first `i` terms (at
/// least one).
pub open spec fn spec_sp_reduce_prefix(ts: Seq<Seq<Seq<nat>>>, i: int) -> Seq<nat>
    decreases i,
{
    if i <= 1 {
        spec_pp_reduce(ts[0])
    } else {
        spec_add_seq(spec_sp_reduce_prefix(ts, i - 1), spec_pp_reduce(ts[i - 1]))
    }
}

/// The pointwise field sum of the reduced vectors of all terms.
pub open spec fn spec_sp_reduce(ts: Seq<Seq<Seq<nat>>>) -> Seq<nat> {
    spec_sp_reduce_prefix(ts, ts.len() as int)
}

/// The terms after binding the leading variable of every factor to `t`.
pub open spec fn spec_sp_pe(ts: Seq<Seq<Seq<nat>>>, n_vars: nat, t: nat) -> Seq<Seq<Seq<nat>>> {
    Seq::new(
        ts.len(),
        |i: int| Seq::new(ts[i].len(), |j: int| spec_pe(ts[i][j], n_vars, 0, t)),
    )
}

/// A sum of products of multilinear factors: the polynomial family the
/// generalized sum-check protocol runs over.
pub struct SumPoly {
    pub polys: Vec<ProductPoly>,
}

impl SumPoly {
    /// At least one term, every term well formed, and all terms of one degree.
    pub open spec fn sp_wf(&self) -> bool {
        &&& self.polys@.len() >= 1
        &&& forall|i: int| 0 <= i < self.polys@.len() ==> (#[trigger] self.polys@[i]).pp_wf()
        &&& forall|i: int|
            0 <= i < self.polys@.len() ==> (#[trigger] self.polys@[i]).evaluation@.len()
                == self.polys@[0].evaluation@.len()
    }

    /// All terms over the same variables.  The constructor checks only the
    /// degrees, as the data model asks; the operations that walk the terms in
    /// step need this too.
    pub open spec fn sp_uniform(&self) -> bool {
        forall|i: int|
            0 <= i < self.polys@.len() ==> (#[trigger] self.polys@[i]).pp_n_vars()
                == self.polys@[0].pp_n_vars()
    }

    /// The terms' factors' canonical evaluation vectors.
    pub open spec fn terms(&self) -> Seq<Seq<Seq<nat>>> {
        self.polys@.map(|i: int, p: ProductPoly| p.factors())
    }

    /// The number of variables each term depends on.
    pub open spec fn sp_n_vars(&self) -> nat {
        self.polys@[0].pp_n_vars()
    }

    /// The common degree of the terms.
    pub open spec fn sp_degree(&self) -> nat {
        self.polys@[0].evaluation@.len()
    }

    /// Builds a sum from its product terms; rejects an empty list or terms of
    /// unequal degree.
    pub fn new(polys: Vec<ProductPoly>) -> (r: Result<Self, PolyError>)
        ensures
            r is Ok <==> {
                &&& polys@.len() >= 1
                &&& forall|i: int|
                    0 <= i < polys@.len() ==> (#[trigger] polys@[i]).evaluation@.len()
                        == polys@[0].evaluation@.len()
            },
            r matches Ok(p) ==> p.polys@ == polys@,
            r matches Err(e) ==> e == PolyError::DegreeMismatch,
    {
        if polys.len() == 0 {
            return Err(PolyError::DegreeMismatch);
        }
        let degree_1 = polys[0].get_degree();
        let mut i: usize = 0;
        while i < polys.len()
            invariant
                i <= polys@.len(),
                polys@.len() >= 1,
                degree_1 == polys@[0].evaluation@.len(),
                forall|j: int|
                    0 <= j < i ==> (#[trigger] polys@[j]).evaluation@.len()
                        == polys@[0].evaluation@.len(),
            decreases polys@.len() - i,
        {
            if polys[i].get_degree() != degree_1 {
                return Err(PolyError::DegreeMismatch);
            }
            i = i + 1;
        }
        Ok(SumPoly { polys })
    }

    /// The common degree of the terms.
    pub fn get_degree(&self) -> (r: usize)
        requires
            self.polys@.len() >= 1,
        ensures
            r == self.sp_degree(),
    {
        self.polys[0].get_degree()
    }

    /// Evaluates every term at `values` and sums the results.
    pub fn evaluate(&self, values: Vec<Fq>) -> (r: Result<Fq, PolyError>)
        requires
            self.sp_wf(),
            self.sp_uniform(),
        ensures
            r is Ok <==> values@.len() == self.sp_n_vars(),
            r matches Ok(v) ==> fq_val(v) == spec_sp_eval(
                self.terms(),
                self.sp_n_vars(),
                fq_seq(values@),
            ),
            r matches Err(e) ==> e == PolyError::ArityMismatch,
    {
        if values.len() != self.polys[0].evaluation[0].n_vars {
            return Err(PolyError::ArityMismatch);
        }
        let mut acc = Fq::from_u64(0);
        let mut i: usize = 0;
        while i < self.polys.len()
            invariant
                i <= self.polys@.len(),
                self.sp_wf(),
                self.sp_uniform(),
                values@.len() == self.sp_n_vars(),
                fq_val(acc) == spec_sp_eval_prefix(
                    self.terms(),
                    self.sp_n_vars(),
                    fq_seq(values@),
                    i as int,
                ),
            decreases self.polys@.len() - i,
        {
            let point = clone_fq_vec(&values);
            let v = match self.polys[i].evaluate(point) {
                Ok(v) => v,
                Err(e) => {
                    return Err(e);
                }
            };
            acc = fq_add(&acc, &v);
            i = i + 1;
        }
        Ok(acc)
    }

    /// Binds the leading variable of every factor of every term to `value`.
    pub fn partial_evaluate(&self, value: &Fq) -> (r: Self)
        requires
            self.sp_wf(),
            self.sp_uniform(),
            self.sp_n_vars() >= 1,
        ensures
            r.sp_wf(),
            r.sp_uniform(),
            r.polys@.len() == self.polys@.len(),
            r.sp_degree() == self.sp_degree(),
            r.sp_n_vars() == self.sp_n_vars() - 1,
            r.terms() == spec_sp_pe(self.terms(), self.sp_n_vars(), fq_val(*value)),
    {
        let mut out: Vec<ProductPoly> = Vec::new();
        let mut i: usize = 0;
        while i < self.polys.len()
            invariant
                i <= self.polys@.len(),
                self.sp_wf(),
                self.sp_uniform(),
                self.sp_n_vars() >= 1,
                out@.len() == i,
                forall|j: int| 0 <= j < i ==> (#[trigger] out@[j]).pp_wf(),
                forall|j: int|
                    0 <= j < i ==> (#[trigger] out@[j]).evaluation@.len()
                        == self.polys@[j].evaluation@.len(),
                forall|j: int|
                    0 <= j < i ==> (#[trigger] out@[j]).pp_n_vars() == self.sp_n_vars() - 1,
                forall|j: int|
                    0 <= j < i ==> (#[trigger] out@[j]).factors() == Seq::new(
                        self.terms()[j].len(),
                        |k: int| spec_pe(self.terms()[j][k], self.sp_n_vars(), 0, fq_val(*value)),
                    ),
            decreases self.polys@.len() - i,
        {
            let p = self.polys[i].partial_evaluate(value);
            out.push(p);
            i = i + 1;
        }
        let res = SumPoly { polys: out };
        proof {
            assert(res.terms() =~= spec_sp_pe(self.terms(), self.sp_n_vars(), fq_val(*value)));
        }
        res
    }

    /// Reduces every term to its pointwise product vector and sums the
    /// vectors, folding over every term.
    pub fn reduce(&self) -> (r: Vec<Fq>)
        requires
            self.sp_wf(),
            self.sp_uniform(),
        ensures
            fq_seq(r@) == spec_sp_reduce(self.terms()),
            r@.len() == self.polys@[0].evaluation@[0].evals@.len(),
    {
        let mut acc = self.polys[0].reduce();
        let mut i: usize = 1;
        while i < self.polys.len()
            invariant
                i >= 1,
                i <= self.polys@.len() || self.polys@.len() < 1,
                self.sp_wf(),
                self.sp_uniform(),
                acc@.len() == self.polys@[0].evaluation@[0].evals@.len(),
                fq_seq(acc@) == spec_sp_reduce_prefix(self.terms(), i as int),
            decreases self.polys@.len() - i,
        {
            let v = self.polys[i].reduce();
            proof {
                assert(self.polys@[i as int].evaluation@[0].evals@.len() == self.polys@[0].evaluation@[0].evals@.len());
            }
            acc = add_fq_vecs(&acc, &v);
            i = i + 1;
        }
        acc
    }

    /// An owned copy with the same terms.
    pub(crate) fn duplicate(&self) -> (r: Self)
        requires
            self.sp_wf(),
            self.sp_uniform(),
        ensures
            r.sp_wf(),
            r.sp_uniform(),
            r.terms() == self.terms(),
            r.polys@.len() == self.polys@.len(),
            r.sp_n_vars() == self.sp_n_vars(),
            r.sp_degree() == self.sp_degree(),
    {
        let mut out: Vec<ProductPoly> = Vec::new();
        let mut i: usize = 0;
        while i < self.polys.len()
            invariant
                i <= self.polys@.len(),
                self.sp_wf(),
                self.sp_uniform(),
                out@.len() == i,
                forall|j: int| 0 <= j < i ==> (#[trigger] out@[j]).pp_wf(),
                forall|j: int|
                    0 <= j < i ==> (#[trigger] out@[j]).factors() == self.polys@[j].factors(),
                forall|j: int|
                    0 <= j < i ==> (#[trigger] out@[j]).evaluation@.len()
                        == self.polys@[j].evaluation@.len(),
                forall|j: int|
                    0 <= j < i ==> (#[trigger] out@[j]).pp_n_vars() == self.polys@[j].pp_n_vars(),
            decreases self.polys@.len() - i,
        {
            out.push(self.polys[i].duplicate());
            i = i + 1;
        }
        let r = SumPoly { polys: out };
        proof {
            assert(r.terms() =~= self.terms());
        }
        r
    }
}

/// Every power of two passes the constructor's shape test: building a
/// polynomial from `pow2(n)` evaluations always succeeds.
pub proof fn lemma_pow2_is_power_of_two(n: nat)
    ensures
        is_power_of_two(pow2(n)),
    decreases n,
{
    lemma2_to64();
    if n > 0 {
        lemma_pow2_unfold(n);
        lemma_pow2_pos((n - 1) as nat);
        lemma_pow2_is_power_of_two((n - 1) as nat);
        assert(pow2(n) / 2 == pow2((n - 1) as nat));
        assert(pow2(n) % 2 == 0);
    }
}

/// The hypercube pairing round trip: binding variable `idx` to 0 picks out,
/// for each halved index `k`, the evaluation whose bit for `idx` is 0, and
/// binding it to 1 picks its partner; conversely every original evaluation is
/// recovered from the two halves through the inverse bit map.
pub proof fn lemma_partial_evaluate_recombines(e: Seq<nat>, n: nat, idx: nat)
    requires
        idx < n,
        e.len() == pow2(n),
        forall|i: int| 0 <= i < e.len() ==> #[trigger] e[i] < crate::field::fq_modulus(),
    ensures
        forall|k: int|
            0 <= k < pow2((n - 1) as nat) ==> #[trigger] spec_pe(e, n, idx, 0)[k] == e[
                insert_zero_bit(k as nat, (n - idx - 1) as nat) as int
            ],
        forall|k: int|
            0 <= k < pow2((n - 1) as nat) ==> #[trigger] spec_pe(e, n, idx, 1)[k] == e[
                (insert_zero_bit(k as nat, (n - idx - 1) as nat) + pow2((n - idx - 1) as nat)) as int
            ],
        forall|j: int|
            0 <= j < e.len() ==> #[trigger] e[j] == if bit_of(j as nat, (n - idx - 1) as nat) == 0 {
                spec_pe(e, n, idx, 0)[remove_bit(j as nat, (n - idx - 1) as nat) as int]
            } else {
                spec_pe(e, n, idx, 1)[remove_bit(j as nat, (n - idx - 1) as nat) as int]
            },
{
    let b = (n - idx - 1) as nat;
    assert forall|k: int| 0 <= k < pow2((n - 1) as nat) implies #[trigger] spec_pe(e, n, idx, 0)[k]
        == e[insert_zero_bit(k as nat, b) as int] by {
        lemma_insert_zero_bit(k as nat, b, n);
        let z = insert_zero_bit(k as nat, b) as int;
        crate::field::lemma_f_aff_endpoints(e[z], e[z + pow2(b)]);
    }
    assert forall|k: int| 0 <= k < pow2((n - 1) as nat) implies #[trigger] spec_pe(e, n, idx, 1)[k]
        == e[(insert_zero_bit(k as nat, b) + pow2(b)) as int] by {
        lemma_insert_zero_bit(k as nat, b, n);
        let z = insert_zero_bit(k as nat, b) as int;
        crate::field::lemma_f_aff_endpoints(e[z], e[z + pow2(b)]);
    }
    assert forall|j: int| 0 <= j < e.len() implies #[trigger] e[j] == if bit_of(j as nat, b) == 0 {
        spec_pe(e, n, idx, 0)[remove_bit(j as nat, b) as int]
    } else {
        spec_pe(e, n, idx, 1)[remove_bit(j as nat, b) as int]
    } by {
        lemma_remove_bit(j as nat, b, n);
        let k = remove_bit(j as nat, b) as int;
        lemma_insert_zero_bit(k as nat, b, n);
        let z = insert_zero_bit(k as nat, b) as int;
        crate::field::lemma_f_aff_endpoints(e[z], e[z + pow2(b)]);
    }
}

/// The pointwise affine interpolation of two evaluation vectors at `t`.
pub open spec fn aff_seq(u: Seq<nat>, w: Seq<nat>, t: nat) -> Seq<nat> {
    Seq::new(u.len(), |k: int| f_aff(u[k], w[k], t))
}

/// Every entry a partial evaluation produces is in canonical range.
pub proof fn lemma_spec_pe_bounded(e: Seq<nat>, n: nat, idx: nat, t: nat)
    ensures
        forall|k: int|
            0 <= k < spec_pe(e, n, idx, t).len() ==> #[trigger] spec_pe(e, n, idx, t)[k]
                < crate::field::fq_modulus(),
{
    assert forall|k: int| 0 <= k < spec_pe(e, n, idx, t).len() implies #[trigger] spec_pe(
        e,
        n,
        idx,
        t,
    )[k] < crate::field::fq_modulus() by {
        let b = (n - idx - 1) as nat;
        let z = insert_zero_bit(k as nat, b);
        crate::field::lemma_f_ops_bounded(
            e[z as int],
            f_mul(t, f_sub(e[(z + pow2(b)) as int], e[z as int])),
        );
    }
}

/// Binding the leading variable commutes with taking pointwise affine
/// combinations of evaluation vectors.
pub proof fn lemma_spec_pe_aff(u: Seq<nat>, w: Seq<nat>, t: nat, m: nat, r0: nat)
    requires
        m >= 1,
        u.len() == pow2(m),
        w.len() == pow2(m),
    ensures
        spec_pe(aff_seq(u, w, t), m, 0, r0) == aff_seq(
            spec_pe(u, m, 0, r0),
            spec_pe(w, m, 0, r0),
            t,
        ),
{
    let b = (m - 1) as nat;
    let lhs = spec_pe(aff_seq(u, w, t), m, 0, r0);
    let rhs = aff_seq(spec_pe(u, m, 0, r0), spec_pe(w, m, 0, r0), t);
    assert forall|k: int| 0 <= k < pow2((m - 1) as nat) implies #[trigger] lhs[k] == rhs[k] by {
        lemma_insert_zero_bit(k as nat, b, m);
        let z = insert_zero_bit(k as nat, b) as int;
        let o = z + pow2(b);
        crate::field::lemma_f_aff_compose(u[z], u[o], w[z], w[o], t, r0);
    }
    assert(lhs =~= rhs);
}

/// Full evaluation is affine: evaluating a pointwise affine combination of two
/// evaluation vectors interpolates between their evaluations.
pub proof fn lemma_eval_affine_combination(u: Seq<nat>, w: Seq<nat>, t: nat, m: nat, rest: Seq<nat>)
    requires
        u.len() == pow2(m),
        w.len() == pow2(m),
        rest.len() == m,
    ensures
        spec_eval(aff_seq(u, w, t), m, rest) == f_aff(
            spec_eval(u, m, rest),
            spec_eval(w, m, rest),
            t,
        ),
    decreases m,
{
    if m == 0 {
        lemma2_to64();
        assert(aff_seq(u, w, t).len() == 1);
        assert(spec_mpe(aff_seq(u, w, t), 0, rest) == aff_seq(u, w, t));
        assert(spec_mpe(u, 0, rest) == u);
        assert(spec_mpe(w, 0, rest) == w);
        assert(aff_seq(u, w, t)[0] == f_aff(u[0], w[0], t));
    } else {
        let r0 = rest[0];
        let rest1 = rest.drop_first();
        lemma_spec_pe_aff(u, w, t, m, r0);
        lemma_eval_affine_combination(
            spec_pe(u, m, 0, r0),
            spec_pe(w, m, 0, r0),
            t,
            (m - 1) as nat,
            rest1,
        );
        assert(spec_mpe(aff_seq(u, w, t), m, rest) == spec_mpe(
            spec_pe(aff_seq(u, w, t), m, 0, r0),
            (m - 1) as nat,
            rest1,
        ));
        assert(spec_mpe(u, m, rest) == spec_mpe(spec_pe(u, m, 0, r0), (m - 1) as nat, rest1));
        assert(spec_mpe(w, m, rest) == spec_mpe(spec_pe(w, m, 0, r0), (m - 1) as nat, rest1));
    }
}

/// Evaluation is linear in each bound variable: the value at a point
/// interpolates, along any one coordinate, between the values with that
/// coordinate fixed to 0 and to 1.
pub proof fn lemma_evaluate_linear_in_coord(e: Seq<nat>, n: nat, point: Seq<nat>, i: int)
    requires
        e.len() == pow2(n),
        point.len() == n,
        0 <= i < n,
        forall|j: int| 0 <= j < e.len() ==> #[trigger] e[j] < crate::field::fq_modulus(),
    ensures
        spec_eval(e, n, point) == f_aff(
            spec_eval(e, n, point.update(i, 0nat)),
            spec_eval(e, n, point.update(i, 1nat)),
            point[i],
        ),
    decreases i,
{
    let p0 = point[0];
    let rest = point.drop_first();
    if i == 0 {
        let a = spec_pe(e, n, 0, 0);
        let b = spec_pe(e, n, 0, 1);
        assert(spec_pe(e, n, 0, p0) =~= aff_seq(a, b, p0)) by {
            assert forall|k: int| 0 <= k < pow2((n - 1) as nat) implies #[trigger] spec_pe(
                e,
                n,
                0,
                p0,
            )[k] == aff_seq(a, b, p0)[k] by {
                lemma_insert_zero_bit(k as nat, (n - 1) as nat, n);
                let z = insert_zero_bit(k as nat, (n - 1) as nat) as int;
                let o = z + pow2((n - 1) as nat);
                crate::field::lemma_f_aff_endpoints(e[z], e[o]);
            }
        }
        lemma_eval_affine_combination(a, b, p0, (n - 1) as nat, rest);
        assert(spec_mpe(e, n, point) == spec_mpe(spec_pe(e, n, 0, p0), (n - 1) as nat, rest));
        assert(point.update(0, 0nat)[0] == 0nat);
        assert(point.update(0, 0nat).drop_first() =~= rest);
        assert(spec_mpe(e, n, point.update(0, 0nat)) == spec_mpe(a, (n - 1) as nat, rest));
        assert(point.update(0, 1nat)[0] == 1nat);
        assert(point.update(0, 1nat).drop_first() =~= rest);
        assert(spec_mpe(e, n, point.update(0, 1nat)) == spec_mpe(b, (n - 1) as nat, rest));
    } else {
        let e1 = spec_pe(e, n, 0, p0);
        lemma_spec_pe_bounded(e, n, 0, p0);
        lemma_evaluate_linear_in_coord(e1, (n - 1) as nat, rest, i - 1);
        assert(rest[i - 1] == point[i]);
        assert(spec_mpe(e, n, point) == spec_mpe(e1, (n - 1) as nat, rest));
        assert(point.update(i, 0nat)[0] == p0);
        assert(point.update(i, 0nat).drop_first() =~= rest.update(i - 1, 0nat));
        assert(spec_mpe(e, n, point.update(i, 0nat)) == spec_mpe(
            e1,
            (n - 1) as nat,
            rest.update(i - 1, 0nat),
        ));
        assert(point.update(i, 1nat)[0] == p0);
        assert(point.update(i, 1nat).drop_first() =~= rest.update(i - 1, 1nat));
        assert(spec_mpe(e, n, point.update(i, 1nat)) == spec_mpe(
            e1,
            (n - 1) as nat,
            rest.update(i - 1, 1nat),
        ));
    }
}

/// Every partial field sum is in canonical range.
pub proof fn lemma_sum_prefix_bounded(s: Seq<nat>, i: int)
    ensures
        spec_sum_prefix(s, i) < crate::field::fq_modulus(),
{
    if i > 0 {
        crate::field::lemma_f_ops_bounded(spec_sum_prefix(s, i - 1), s[i - 1])
    }
}

/// Summation is affine: the field sum of a pointwise affine combination of two
/// vectors interpolates between their field sums.
pub proof fn lemma_sum_affine(u: Seq<nat>, w: Seq<nat>, t: nat, i: int)
    requires
        u.len() == w.len(),
        0 <= i <= u.len(),
    ensures
        spec_sum_prefix(aff_seq(u, w, t), i) == f_aff(
            spec_sum_prefix(u, i),
            spec_sum_prefix(w, i),
            t,
        ),
    decreases i,
{
    if i == 0 {
        assert(f_sub(0, 0) == 0) by {
            vstd::arithmetic::div_mod::lemma_small_mod(0, crate::field::fq_modulus());
        }
        assert(f_mul(t, 0) == 0) by {
            assert(t * 0 == 0) by (nonlinear_arith);
            vstd::arithmetic::div_mod::lemma_small_mod(0, crate::field::fq_modulus());
        }
        assert(f_add(0, 0) == 0) by {
            vstd::arithmetic::div_mod::lemma_small_mod(0, crate::field::fq_modulus());
        }
    } else {
        lemma_sum_affine(u, w, t, i - 1);
        assert(aff_seq(u, w, t)[i - 1] == f_aff(u[i - 1], w[i - 1], t));
        crate::field::lemma_f_aff_add(
            spec_sum_prefix(u, i - 1),
            spec_sum_prefix(w, i - 1),
            u[i - 1],
            w[i - 1],
            t,
        );
    }
}

/// A field sum splits at any cut: summing a prefix and the rest separately
/// and adding gives the full sum.
pub proof fn lemma_sum_prefix_split(s: Seq<nat>, h: int, j: int)
    requires
        0 <= h,
        0 <= j,
        h + j <= s.len(),
    ensures
        spec_sum_prefix(s, h + j) == f_add(spec_sum_prefix(s, h), spec_sum_prefix(s.skip(h), j)),
    decreases j,
{
    if j == 0 {
        lemma_sum_prefix_bounded(s, h);
        vstd::arithmetic::div_mod::lemma_small_mod(
            spec_sum_prefix(s, h),
            crate::field::fq_modulus(),
        );
    } else {
        lemma_sum_prefix_split(s, h, j - 1);
        assert(s.skip(h)[j - 1] == s[h + j - 1]);
        crate::field::lemma_f_add_assoc(
            spec_sum_prefix(s, h),
            spec_sum_prefix(s.skip(h), j - 1),
            s[h + j - 1],
        );
    }
}

/// Binding the leading variable pairs each index of the lower half of the
/// evaluation vector with its counterpart in the upper half: the result is the
/// pointwise affine combination of the two halves.
pub proof fn lemma_spec_pe_head_split(e: Seq<nat>, n: nat, t: nat)
    requires
        n >= 1,
        e.len() == pow2(n),
    ensures
        spec_pe(e, n, 0, t) == aff_seq(
            e.take(pow2((n - 1) as nat) as int),
            e.skip(pow2((n - 1) as nat) as int),
            t,
        ),
{
    let h = pow2((n - 1) as nat) as int;
    let a = e.take(h);
    let b = e.skip(h);
    lemma_pow2_unfold(n);
    assert forall|k: int| 0 <= k < h implies #[trigger] spec_pe(e, n, 0, t)[k] == aff_seq(
        a,
        b,
        t,
    )[k] by {
        lemma_pow2_pos((n - 1) as nat);
        vstd::arithmetic::div_mod::lemma_multiply_divide_lt(k, h, 1);
        vstd::arithmetic::div_mod::lemma_div_pos_is_pos(k, h);
        vstd::arithmetic::div_mod::lemma_small_mod(k as nat, h as nat);
        assert(insert_zero_bit(k as nat, (n - 1) as nat) == k);
        assert(a[k] == e[k] && b[k] == e[k + h]);
    }
    assert(spec_pe(e, n, 0, t) =~= aff_seq(a, b, t));
}

} // verus!
