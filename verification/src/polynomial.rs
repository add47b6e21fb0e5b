//! Single-variable polynomials over the field, in dense coefficient form
//! (low order first), with Horner evaluation and Lagrange interpolation.

use vstd::prelude::*;

use crate::field::{
    f_add, f_inv, f_mul, f_sub, fq_add, fq_eq, fq_inverse, fq_mul, fq_sub, fq_val, fq_modulus,
    lemma_f_add_assoc, lemma_f_add_rearrange, lemma_f_mul_comm, lemma_f_mul_distributes,
    lemma_f_ops_bounded, Fq,
};
use crate::multilinear_poly::{fq_seq, spec_scale_seq};
use crate::PolyError;

verus! {

/// Horner evaluation of the coefficients `c` (low order first) at `x`.
pub open spec fn spec_uni_eval(c: Seq<nat>, x: nat) -> nat
    decreases c.len(),
{
    if c.len() <= 1 {
        c[0]
    } else {
        f_add(f_mul(spec_uni_eval(c.drop_first(), x), x), c[0])
    }
}

/// The coefficient of degree `i`, taking absent coefficients as zero.
pub open spec fn coef_or_zero(s: Seq<nat>, i: int) -> nat {
    if 0 <= i < s.len() {
        s[i]
    } else {
        0
    }
}

/// Coefficientwise field sum, at the length of the longer operand.
pub open spec fn spec_poly_add(a: Seq<nat>, b: Seq<nat>) -> Seq<nat> {
    Seq::new(
        if a.len() >= b.len() {
            a.len()
        } else {
            b.len()
        },
        |i: int| f_add(coef_or_zero(a, i), coef_or_zero(b, i)),
    )
}

/// The degree-`k` coefficient of the product of `a` and `b`, accumulated over
/// the first `i` coefficients of `a` in the order the convolution loop visits
/// them.
pub open spec fn spec_conv_entry(a: Seq<nat>, b: Seq<nat>, k: int, i: int) -> nat
    decreases i,
{
    if i <= 0 {
        0
    } else {
        let prev = spec_conv_entry(a, b, k, i - 1);
        if 0 <= k - (i - 1) < b.len() {
            f_add(prev, f_mul(a[i - 1], b[k - (i - 1)]))
        } else {
            prev
        }
    }
}

/// The dense convolution of two coefficient vectors.
pub open spec fn spec_conv(a: Seq<nat>, b: Seq<nat>) -> Seq<nat> {
    Seq::new((a.len() + b.len() - 1) as nat, |k: int| spec_conv_entry(a, b, k, a.len() as int))
}

/// The field sum of the first `i` polynomials, folded left from the zero
/// polynomial.
pub open spec fn spec_poly_sum_prefix(ps: Seq<Seq<nat>>, i: int) -> Seq<nat>
    decreases i,
{
    if i <= 0 {
        seq![0nat]
    } else {
        spec_poly_add(spec_poly_sum_prefix(ps, i - 1), ps[i - 1])
    }
}

/// The field sum of all the polynomials.
pub open spec fn spec_poly_sum(ps: Seq<Seq<nat>>) -> Seq<nat> {
    spec_poly_sum_prefix(ps, ps.len() as int)
}

/// The product of the first `i` polynomials, folded left from the one
/// polynomial.
pub open spec fn spec_poly_prod_prefix(ps: Seq<Seq<nat>>, i: int) -> Seq<nat>
    decreases i,
{
    if i <= 0 {
        seq![1nat]
    } else {
        spec_conv(spec_poly_prod_prefix(ps, i - 1), ps[i - 1])
    }
}

/// The product of all the polynomials.
pub open spec fn spec_poly_prod(ps: Seq<Seq<nat>>) -> Seq<nat> {
    spec_poly_prod_prefix(ps, ps.len() as int)
}

/// The coefficient vectors of a sequence of polynomials.
pub open spec fn all_coefs(ps: Seq<UnivariatePolynomial>) -> Seq<Seq<nat>> {
    ps.map(|i: int, p: UnivariatePolynomial| p.coefs())
}

/// The coefficient count of the product of the first `i` polynomials.
pub open spec fn spec_prod_len(ps: Seq<Seq<nat>>, i: int) -> nat
    decreases i,
{
    if i <= 0 {
        1
    } else {
        (spec_prod_len(ps, i - 1) + ps[i - 1].len() - 1) as nat
    }
}


/// The Lagrange basis numerator for abscissa `i`, folded over the first `j`
/// abscissas: the product of the monomials `X - xs[j']` for `j' != i`.
pub open spec fn spec_basis_num_prefix(xs: Seq<nat>, i: int, j: int) -> Seq<nat>
    decreases j,
{
    if j <= 0 {
        seq![1nat]
    } else {
        let prev = spec_basis_num_prefix(xs, i, j - 1);
        if j - 1 == i {
            prev
        } else {
            spec_conv(prev, seq![f_sub(0, xs[j - 1]), 1nat])
        }
    }
}

/// The Lagrange basis numerator for abscissa `i`.
pub open spec fn spec_basis_num(xs: Seq<nat>, i: int) -> Seq<nat> {
    spec_basis_num_prefix(xs, i, xs.len() as int)
}

/// The basis denominator for abscissa `i`: its numerator evaluated at `xs[i]`.
/// Zero exactly when interpolation degenerates at `i`.
pub open spec fn spec_basis_denom(xs: Seq<nat>, i: int) -> nat {
    spec_uni_eval(spec_basis_num(xs, i), xs[i])
}

/// The Lagrange basis polynomial for abscissa `i`: its numerator scaled by the
/// inverse of its denominator.
pub open spec fn spec_basis(xs: Seq<nat>, i: int) -> Seq<nat> {
    spec_scale_seq(spec_basis_num(xs, i), f_inv(spec_basis_denom(xs, i)))
}

/// Two abscissas coincide.
pub open spec fn has_duplicate(xs: Seq<nat>) -> bool {
    exists|i: int, j: int| 0 <= i < j < xs.len() && xs[i] == xs[j]
}

/// No basis denominator vanishes.  For pairwise distinct abscissas this always
/// holds over a prime field; that arithmetic fact is not derived here, so the
/// contracts carry the condition itself.
pub open spec fn all_denoms_nonzero(xs: Seq<nat>) -> bool {
    forall|i: int|
        0 <= i < xs.len() ==> #[trigger] spec_basis_denom(xs, i) % crate::field::fq_modulus() != 0
}

/// The interpolated coefficients: the field sum of each basis polynomial
/// scaled by its ordinate.
pub open spec fn spec_interp(xs: Seq<nat>, ys: Seq<nat>) -> Seq<nat> {
    spec_poly_sum(Seq::new(xs.len(), |i: int| spec_scale_seq(spec_basis(xs, i), ys[i])))
}

/// A single-variable polynomial: `coefficients[i]` multiplies `x^i`.  Always
/// holds at least one coefficient.
pub struct UnivariatePolynomial {
    pub coefficients: Vec<Fq>,
}

impl UnivariatePolynomial {
    /// The canonical values of the coefficients.
    pub open spec fn coefs(&self) -> Seq<nat> {
        fq_seq(self.coefficients@)
    }

    /// The invariant: a polynomial holds at least one coefficient.
    pub open spec fn uwf(&self) -> bool {
        self.coefficients@.len() >= 1
    }

    /// Wraps a non-empty coefficient vector, low order first.
    pub fn new(coeff: Vec<Fq>) -> (r: Self)
        requires
            coeff@.len() >= 1,
        ensures
            r.coefficients@ == coeff@,
            r.uwf(),
    {
        UnivariatePolynomial { coefficients: coeff }
    }

    /// The degree the representation states: one less than the coefficient
    /// count.
    pub fn degree(&self) -> (r: usize)
        requires
            self.uwf(),
        ensures
            r == self.coefficients@.len() - 1,
    {
        self.coefficients.len() - 1
    }

    /// Horner evaluation at `x`, from the highest coefficient down.
    pub fn evaluate(&self, x: Fq) -> (r: Fq)
        requires
            self.uwf(),
        ensures
            fq_val(r) == spec_uni_eval(self.coefs(), fq_val(x)),
    {
        let n = self.coefficients.len();
        let mut acc = self.coefficients[n - 1];
        let mut i: usize = n - 1;
        while i > 0
            invariant
                i < n,
                n == self.coefficients@.len(),
                self.uwf(),
                fq_val(acc) == spec_uni_eval(self.coefs().skip(i as int), fq_val(x)),
            decreases i,
        {
            let ghost before = self.coefs().skip(i as int);
            acc = fq_add(&fq_mul(&acc, &x), &self.coefficients[i - 1]);
            i = i - 1;
            proof {
                assert(self.coefs().skip(i as int).drop_first() =~= before);
                assert(self.coefs().skip(i as int)[0] == self.coefs()[i as int]);
            }
        }
        proof {
            assert(self.coefs().skip(0) =~= self.coefs());
        }
        acc
    }

    /// Every coefficient multiplied by `scalar`.
    pub fn scalar_mul(&self, scalar: &Fq) -> (r: Self)
        requires
            self.uwf(),
        ensures
            r.uwf(),
            r.coefs() == spec_scale_seq(self.coefs(), fq_val(*scalar)),
    {
        let mut out: Vec<Fq> = Vec::new();
        let mut i: usize = 0;
        while i < self.coefficients.len()
            invariant
                i <= self.coefficients@.len(),
                out@.len() == i,
                forall|j: int|
                    0 <= j < i ==> fq_val(#[trigger] out@[j]) == f_mul(
                        self.coefs()[j],
                        fq_val(*scalar),
                    ),
            decreases self.coefficients@.len() - i,
        {
            out.push(fq_mul(&self.coefficients[i], scalar));
            i = i + 1;
        }
        let r = UnivariatePolynomial { coefficients: out };
        proof {
            assert(r.coefs() =~= spec_scale_seq(self.coefs(), fq_val(*scalar)));
        }
        r
    }

    /// Coefficientwise sum, padding the shorter operand with zeros.
    pub fn add(&self, rhs: &Self) -> (r: Self)
        requires
            self.uwf(),
            rhs.uwf(),
        ensures
            r.uwf(),
            r.coefs() == spec_poly_add(self.coefs(), rhs.coefs()),
    {
        let a_len = self.coefficients.len();
        let b_len = rhs.coefficients.len();
        let n = if a_len >= b_len {
            a_len
        } else {
            b_len
        };
        let zero = Fq::from_u64(0);
        let mut out: Vec<Fq> = Vec::new();
        let mut i: usize = 0;
        while i < n
            invariant
                i <= n,
                a_len == self.coefficients@.len(),
                b_len == rhs.coefficients@.len(),
                n == if a_len >= b_len {
                    a_len
                } else {
                    b_len
                },
                fq_val(zero) == 0,
                out@.len() == i,
                forall|j: int|
                    0 <= j < i ==> fq_val(#[trigger] out@[j]) == f_add(
                        coef_or_zero(self.coefs(), j),
                        coef_or_zero(rhs.coefs(), j),
                    ),
            decreases n - i,
        {
            let av = if i < a_len {
                self.coefficients[i]
            } else {
                zero
            };
            let bv = if i < b_len {
                rhs.coefficients[i]
            } else {
                zero
            };
            out.push(fq_add(&av, &bv));
            i = i + 1;
        }
        let r = UnivariatePolynomial { coefficients: out };
        proof {
            assert(r.coefs() =~= spec_poly_add(self.coefs(), rhs.coefs()));
        }
        r
    }

    /// Dense convolution product.
    pub fn mul(&self, rhs: &Self) -> (r: Self)
        requires
            self.uwf(),
            rhs.uwf(),
            self.coefficients@.len() + rhs.coefficients@.len() - 1 <= usize::MAX,
        ensures
            r.uwf(),
            r.coefs() == spec_conv(self.coefs(), rhs.coefs()),
            r.coefficients@.len() == self.coefficients@.len() + rhs.coefficients@.len() - 1,
    {
        let a_len = self.coefficients.len();
        let b_len = rhs.coefficients.len();
        let n = a_len - 1 + b_len;
        let zero = Fq::from_u64(0);
        let mut out: Vec<Fq> = Vec::new();
        let mut t: usize = 0;
        while t < n
            invariant
                t <= n,
                fq_val(zero) == 0,
                out@.len() == t,
                forall|k: int| 0 <= k < t ==> fq_val(#[trigger] out@[k]) == 0,
            decreases n - t,
        {
            out.push(zero);
            t = t + 1;
        }
        let ghost a = self.coefs();
        let ghost b = rhs.coefs();
        let mut i: usize = 0;
        while i < a_len
            invariant
                i <= a_len,
                a_len == self.coefficients@.len(),
                b_len == rhs.coefficients@.len(),
                a_len >= 1,
                b_len >= 1,
                n == a_len + b_len - 1,
                a == self.coefs(),
                b == rhs.coefs(),
                out@.len() == n,
                forall|k: int|
                    0 <= k < n ==> fq_val(#[trigger] out@[k]) == spec_conv_entry(a, b, k, i as int),
            decreases a_len - i,
        {
            let mut j: usize = 0;
            while j < b_len
                invariant
                    j <= b_len,
                    i < a_len,
                    a_len == self.coefficients@.len(),
                    b_len == rhs.coefficients@.len(),
                    n == a_len + b_len - 1,
                    a == self.coefs(),
                    b == rhs.coefs(),
                    out@.len() == n,
                    forall|k: int|
                        0 <= k < n && i <= k < i + j ==> fq_val(#[trigger] out@[k])
                            == spec_conv_entry(a, b, k, i as int + 1),
                    forall|k: int|
                        0 <= k < n && !(i <= k < i + j) ==> fq_val(#[trigger] out@[k])
                            == spec_conv_entry(a, b, k, i as int),
                decreases b_len - j,
            {
                let idx = i + j;
                let updated = fq_add(&out[idx], &fq_mul(&self.coefficients[i], &rhs.coefficients[j]));
                out.set(idx, updated);
                j = j + 1;
            }
            proof {
                assert forall|k: int| 0 <= k < n && !(i <= k < i + b_len) implies spec_conv_entry(
                    a,
                    b,
                    k,
                    i as int + 1,
                ) == spec_conv_entry(a, b, k, i as int) by {
                    assert(!(0 <= k - i < b.len()));
                }
            }
            i = i + 1;
        }
        let r = UnivariatePolynomial { coefficients: out };
        proof {
            assert(r.coefs() =~= spec_conv(a, b));
        }
        r
    }

    /// The field sum of the polynomials, folded left from the zero polynomial.
    pub fn sum(polys: &Vec<UnivariatePolynomial>) -> (r: Self)
        requires
            forall|i: int| 0 <= i < polys@.len() ==> (#[trigger] polys@[i]).uwf(),
        ensures
            r.uwf(),
            r.coefs() == spec_poly_sum(all_coefs(polys@)),
    {
        let ghost ps = all_coefs(polys@);
        let mut zero_vec: Vec<Fq> = Vec::new();
        zero_vec.push(Fq::from_u64(0));
        let mut acc = UnivariatePolynomial { coefficients: zero_vec };
        proof {
            assert(acc.coefs() =~= spec_poly_sum_prefix(ps, 0));
        }
        let mut i: usize = 0;
        while i < polys.len()
            invariant
                i <= polys@.len(),
                ps == all_coefs(polys@),
                forall|j: int| 0 <= j < polys@.len() ==> (#[trigger] polys@[j]).uwf(),
                acc.uwf(),
                acc.coefs() == spec_poly_sum_prefix(ps, i as int),
            decreases polys@.len() - i,
        {
            acc = acc.add(&polys[i]);
            i = i + 1;
        }
        acc
    }

    /// The field product of the polynomials, folded left from the one
    /// polynomial.
    pub fn product(polys: &Vec<UnivariatePolynomial>) -> (r: Self)
        requires
            forall|i: int| 0 <= i < polys@.len() ==> (#[trigger] polys@[i]).uwf(),
            forall|i: int|
                0 <= i <= polys@.len() ==> #[trigger] spec_prod_len(all_coefs(polys@), i)
                    <= usize::MAX,
        ensures
            r.uwf(),
            r.coefs() == spec_poly_prod(all_coefs(polys@)),
            r.coefficients@.len() == spec_prod_len(
                all_coefs(polys@),
                polys@.len() as int,
            ),
    {
        let ghost ps = all_coefs(polys@);
        let mut one_vec: Vec<Fq> = Vec::new();
        one_vec.push(Fq::from_u64(1));
        let mut acc = UnivariatePolynomial { coefficients: one_vec };
        proof {
            assert(acc.coefs() =~= spec_poly_prod_prefix(ps, 0));
        }
        let mut i: usize = 0;
        while i < polys.len()
            invariant
                i <= polys@.len(),
                ps == all_coefs(polys@),
                forall|j: int| 0 <= j < polys@.len() ==> (#[trigger] polys@[j]).uwf(),
                forall|j: int| 0 <= j <= polys@.len() ==> #[trigger] spec_prod_len(ps, j) <= usize::MAX,
                acc.uwf(),
                acc.coefs() == spec_poly_prod_prefix(ps, i as int),
                acc.coefficients@.len() == spec_prod_len(ps, i as int),
            decreases polys@.len() - i,
        {
            proof {
                assert(ps[i as int] == polys@[i as int].coefs());
                assert(spec_prod_len(ps, i as int + 1) == (spec_prod_len(ps, i as int)
                    + ps[i as int].len() - 1) as nat);
                assert(spec_prod_len(ps, i as int + 1) <= usize::MAX);
            }
            acc = acc.mul(&polys[i]);
            i = i + 1;
        }
        acc
    }

    /// The Lagrange basis polynomial for abscissa `i` of `xs`: the product of
    /// `X - xs[j]` over `j != i`, scaled by the inverse of its own value at
    /// `xs[i]`; degenerate when that value is zero.
    fn basis(i: usize, xs: &Vec<Fq>) -> (r: Result<Self, PolyError>)
        requires
            i < xs@.len(),
        ensures
            r is Ok <==> spec_basis_denom(fq_seq(xs@), i as int) % crate::field::fq_modulus()
                != 0,
            r matches Ok(p) ==> p.uwf() && p.coefs() == spec_basis(fq_seq(xs@), i as int),
            r is Ok ==> f_mul(
                f_inv(spec_basis_denom(fq_seq(xs@), i as int)),
                spec_basis_denom(fq_seq(xs@), i as int),
            ) == 1,
            r matches Err(e) ==> e == PolyError::DegenerateInput,
    {
        let ghost xv = fq_seq(xs@);
        let zero = Fq::from_u64(0);
        let one = Fq::from_u64(1);
        let mut one_vec: Vec<Fq> = Vec::new();
        one_vec.push(one);
        let mut acc = UnivariatePolynomial { coefficients: one_vec };
        proof {
            assert(acc.coefs() =~= spec_basis_num_prefix(xv, i as int, 0));
        }
        let mut j: usize = 0;
        while j < xs.len()
            invariant
                j <= xs@.len(),
                i < xs@.len(),
                xv == fq_seq(xs@),
                fq_val(zero) == 0,
                fq_val(one) == 1,
                acc.uwf(),
                acc.coefs() == spec_basis_num_prefix(xv, i as int, j as int),
                acc.coefficients@.len() == if j <= i {
                    j + 1
                } else {
                    j as int
                },
            decreases xs@.len() - j,
        {
            if j != i {
                let mut mono: Vec<Fq> = Vec::new();
                mono.push(fq_sub(&zero, &xs[j]));
                mono.push(one);
                let monomial = UnivariatePolynomial { coefficients: mono };
                proof {
                    assert(monomial.coefs() =~= seq![f_sub(0, xv[j as int]), 1nat]);
                }
                acc = acc.mul(&monomial);
            }
            j = j + 1;
        }
        let denominator = acc.evaluate(xs[i]);
        match fq_inverse(&denominator) {
            Some(inv) => {
                proof {
                    crate::field::lemma_f_inv(fq_val(denominator), fq_val(inv));
                }
                Ok(acc.scalar_mul(&inv))
            }
            None => Err(PolyError::DegenerateInput),
        }
    }

    /// Lagrange interpolation through the points `(xs[i], ys[i])`: the unique
    /// minimal-degree polynomial through them.  Rejects coordinate vectors of
    /// different lengths, and coinciding abscissas as degenerate input.
    pub fn interpolate(xs: Vec<Fq>, ys: Vec<Fq>) -> (r: Result<Self, PolyError>)
        ensures
            r is Ok <==> {
                &&& xs@.len() == ys@.len()
                &&& !has_duplicate(fq_seq(xs@))
                &&& all_denoms_nonzero(fq_seq(xs@))
            },
            r matches Ok(p) ==> p.uwf() && p.coefs() == spec_interp(fq_seq(xs@), fq_seq(ys@)),
            r is Ok ==> forall|i: int|
                0 <= i < xs@.len() ==> f_mul(
                    f_inv(#[trigger] spec_basis_denom(fq_seq(xs@), i)),
                    spec_basis_denom(fq_seq(xs@), i),
                ) == 1,
            r matches Err(e) ==> {
                ||| xs@.len() != ys@.len() && e == PolyError::ArityMismatch
                ||| xs@.len() == ys@.len() && e == PolyError::DegenerateInput
            },
    {
        let ghost xv = fq_seq(xs@);
        let ghost yv = fq_seq(ys@);
        if xs.len() != ys.len() {
            return Err(PolyError::ArityMismatch);
        }
        let mut i: usize = 0;
        while i < xs.len()
            invariant
                i <= xs@.len(),
                xs@.len() == ys@.len(),
                xv == fq_seq(xs@),
                forall|a: int, b: int| 0 <= a < b < xs@.len() && a < i ==> xv[a] != xv[b],
            decreases xs@.len() - i,
        {
            let mut j: usize = i + 1;
            while j < xs.len()
                invariant
                    i < j <= xs@.len() || j == i + 1,
                    i < xs@.len(),
                    xs@.len() == ys@.len(),
                    xv == fq_seq(xs@),
                    forall|b: int| i < b < j ==> xv[i as int] != xv[b],
                decreases xs@.len() - j,
            {
                if fq_eq(&xs[i], &xs[j]) {
                    proof {
                        assert(0 <= i < j < xs@.len() && xv[i as int] == xv[j as int]);
                    }
                    return Err(PolyError::DegenerateInput);
                }
                j = j + 1;
            }
            i = i + 1;
        }
        proof {
            assert(!has_duplicate(xv));
        }
        let mut scaled: Vec<UnivariatePolynomial> = Vec::new();
        let mut k: usize = 0;
        while k < xs.len()
            invariant
                k <= xs@.len(),
                xs@.len() == ys@.len(),
                xv == fq_seq(xs@),
                yv == fq_seq(ys@),
                scaled@.len() == k,
                forall|m: int| 0 <= m < k ==> (#[trigger] scaled@[m]).uwf(),
                forall|m: int|
                    0 <= m < k ==> (#[trigger] scaled@[m]).coefs() == spec_scale_seq(
                        spec_basis(xv, m),
                        yv[m],
                    ),
                forall|m: int|
                    0 <= m < k ==> #[trigger] spec_basis_denom(xv, m)
                        % crate::field::fq_modulus() != 0,
                forall|m: int|
                    0 <= m < k ==> f_mul(
                        f_inv(#[trigger] spec_basis_denom(xv, m)),
                        spec_basis_denom(xv, m),
                    ) == 1,
            decreases xs@.len() - k,
        {
            let b = match Self::basis(k, &xs) {
                Ok(b) => b,
                Err(_) => {
                    return Err(PolyError::DegenerateInput);
                }
            };
            scaled.push(b.scalar_mul(&ys[k]));
            k = k + 1;
        }
        let result = Self::sum(&scaled);
        proof {
            assert(all_coefs(scaled@) =~= Seq::new(
                xv.len(),
                |i: int| spec_scale_seq(spec_basis(xv, i), yv[i]),
            ));
        }
        Ok(result)
    }
}

/// A Horner evaluation of canonical coefficients is itself canonical.
pub proof fn lemma_uni_eval_bounded(c: Seq<nat>, x: nat)
    requires
        c.len() >= 1,
        forall|i: int| 0 <= i < c.len() ==> #[trigger] c[i] < fq_modulus(),
    ensures
        spec_uni_eval(c, x) < fq_modulus(),
{
    if c.len() > 1 {
        lemma_f_ops_bounded(f_mul(spec_uni_eval(c.drop_first(), x), x), c[0]);
    }
}

/// Evaluating a scaled polynomial scales the evaluation.
pub proof fn lemma_uni_eval_scale(c: Seq<nat>, s: nat, x: nat)
    requires
        c.len() >= 1,
    ensures
        spec_uni_eval(spec_scale_seq(c, s), x) == f_mul(s, spec_uni_eval(c, x)),
    decreases c.len(),
{
    let sc = spec_scale_seq(c, s);
    if c.len() == 1 {
        assert(sc[0] == f_mul(c[0], s));
        lemma_f_mul_comm(c[0], s);
    } else {
        assert(sc.drop_first() =~= spec_scale_seq(c.drop_first(), s));
        lemma_uni_eval_scale(c.drop_first(), s, x);
        let e1 = spec_uni_eval(c.drop_first(), x);
        // (s * e1) * x == s * (e1 * x), then distribute s over the addition
        crate::field::lemma_f_mul_assoc(s, e1, x);
        lemma_f_mul_distributes(s, f_mul(e1, x), c[0]);
        lemma_f_mul_comm(c[0], s);
    }
}

/// Prepending a zero coefficient multiplies the evaluation by the variable.
pub proof fn lemma_uni_eval_zero_cons(c: Seq<nat>, x: nat)
    requires
        c.len() >= 1,
        forall|i: int| 0 <= i < c.len() ==> #[trigger] c[i] < fq_modulus(),
    ensures
        spec_uni_eval(seq![0nat] + c, x) == f_mul(x, spec_uni_eval(c, x)),
{
    let z = seq![0nat] + c;
    assert(z.drop_first() =~= c);
    assert(z[0] == 0);
    lemma_uni_eval_bounded(c, x);
    lemma_f_ops_bounded(spec_uni_eval(c, x), x);
    vstd::arithmetic::div_mod::lemma_small_mod(
        f_mul(spec_uni_eval(c, x), x),
        fq_modulus(),
    );
    lemma_f_mul_comm(spec_uni_eval(c, x), x);
}

/// Evaluating a coefficientwise sum adds the evaluations.
pub proof fn lemma_uni_eval_add(a: Seq<nat>, b: Seq<nat>, x: nat)
    requires
        a.len() >= 1,
        b.len() >= 1,
        forall|i: int| 0 <= i < a.len() ==> #[trigger] a[i] < fq_modulus(),
        forall|i: int| 0 <= i < b.len() ==> #[trigger] b[i] < fq_modulus(),
    ensures
        spec_uni_eval(spec_poly_add(a, b), x) == f_add(spec_uni_eval(a, x), spec_uni_eval(b, x)),
    decreases a.len() + b.len(),
{
    let s = spec_poly_add(a, b);
    assert(s[0] == f_add(a[0], b[0]));
    if a.len() == 1 && b.len() == 1 {
    } else if a.len() == 1 {
        assert(s.drop_first() =~= b.drop_first()) by {
            assert forall|i: int| 0 <= i < b.len() - 1 implies s.drop_first()[i]
                == b.drop_first()[i] by {
                vstd::arithmetic::div_mod::lemma_small_mod(b[i + 1], fq_modulus());
            }
        }
        let eb = spec_uni_eval(b.drop_first(), x);
        // a0 + (eb * x + b0) == (eb * x) + (a0 + b0), all in the field
        lemma_f_add_assoc(f_mul(eb, x), a[0], b[0]);
        lemma_f_add_assoc(a[0], f_mul(eb, x), b[0]);
        assert(f_add(a[0], f_mul(eb, x)) == f_add(f_mul(eb, x), a[0]));
    } else if b.len() == 1 {
        assert(s.drop_first() =~= a.drop_first()) by {
            assert forall|i: int| 0 <= i < a.len() - 1 implies s.drop_first()[i]
                == a.drop_first()[i] by {
                vstd::arithmetic::div_mod::lemma_small_mod(a[i + 1], fq_modulus());
            }
        }
        let ea = spec_uni_eval(a.drop_first(), x);
        lemma_f_add_assoc(f_mul(ea, x), a[0], b[0]);
    } else {
        assert(s.drop_first() =~= spec_poly_add(a.drop_first(), b.drop_first()));
        lemma_uni_eval_add(a.drop_first(), b.drop_first(), x);
        let ea = spec_uni_eval(a.drop_first(), x);
        let eb = spec_uni_eval(b.drop_first(), x);
        lemma_f_mul_comm(f_add(ea, eb), x);
        lemma_f_mul_distributes(x, ea, eb);
        lemma_f_mul_comm(x, ea);
        lemma_f_mul_comm(x, eb);
        lemma_f_add_rearrange(f_mul(ea, x), f_mul(eb, x), a[0], b[0]);
    }
}

/// A convolution coefficient is canonical.
pub proof fn lemma_conv_entry_bounded(a: Seq<nat>, b: Seq<nat>, k: int, i: int)
    ensures
        spec_conv_entry(a, b, k, i) < fq_modulus(),
    decreases i,
{
    if i <= 0 {
    } else {
        lemma_conv_entry_bounded(a, b, k, i - 1);
        if 0 <= k - (i - 1) < b.len() {
            lemma_f_ops_bounded(spec_conv_entry(a, b, k, i - 1), f_mul(a[i - 1], b[k - (i - 1)]));
        }
    }
}

/// A convolution coefficient of negative degree is zero.
proof fn lemma_conv_entry_neg(a: Seq<nat>, b: Seq<nat>, k: int, i: int)
    requires
        k < 0,
    ensures
        spec_conv_entry(a, b, k, i) == 0,
    decreases i,
{
    if i > 0 {
        lemma_conv_entry_neg(a, b, k, i - 1);
    }
}

/// Splitting the convolution fold at its first coefficient: the head term of
/// `a` contributes `a[0] * b[k]`, the tail contributes a shifted convolution.
proof fn lemma_conv_entry_head(a: Seq<nat>, b: Seq<nat>, k: int, i: int)
    requires
        a.len() >= 2,
        1 <= i <= a.len(),
    ensures
        spec_conv_entry(a, b, k, i) == f_add(
            if 0 <= k < b.len() {
                f_mul(a[0], b[k])
            } else {
                0
            },
            spec_conv_entry(a.drop_first(), b, k - 1, i - 1),
        ),
    decreases i,
{
    let t0: nat = if 0 <= k < b.len() {
        f_mul(a[0], b[k])
    } else {
        0
    };
    if i == 1 {
        lemma_f_ops_bounded(0, t0);
        vstd::arithmetic::div_mod::lemma_small_mod(t0, fq_modulus());
        if 0 <= k < b.len() {
            lemma_f_ops_bounded(a[0], b[k]);
            vstd::arithmetic::div_mod::lemma_small_mod(f_mul(a[0], b[k]), fq_modulus());
        }
    } else {
        lemma_conv_entry_head(a, b, k, i - 1);
        let r_prev = spec_conv_entry(a.drop_first(), b, k - 1, i - 2);
        assert(a.drop_first()[i - 2] == a[i - 1]);
        if 0 <= k - (i - 1) < b.len() {
            lemma_f_add_assoc(t0, r_prev, f_mul(a[i - 1], b[k - (i - 1)]));
        }
    }
}

/// Evaluating a convolution multiplies the evaluations.
pub proof fn lemma_uni_eval_conv(a: Seq<nat>, b: Seq<nat>, x: nat)
    requires
        a.len() >= 1,
        b.len() >= 1,
        forall|i: int| 0 <= i < a.len() ==> #[trigger] a[i] < fq_modulus(),
        forall|i: int| 0 <= i < b.len() ==> #[trigger] b[i] < fq_modulus(),
    ensures
        spec_uni_eval(spec_conv(a, b), x) == f_mul(spec_uni_eval(a, x), spec_uni_eval(b, x)),
    decreases a.len(),
{
    let cv = spec_conv(a, b);
    if a.len() == 1 {
        assert(cv =~= spec_scale_seq(b, a[0])) by {
            assert forall|k: int| 0 <= k < b.len() implies cv[k] == spec_scale_seq(b, a[0])[k] by {
                assert(spec_conv_entry(a, b, k, 0) == 0);
                assert(cv[k] == f_add(0, f_mul(a[0], b[k])));
                lemma_f_ops_bounded(a[0], b[k]);
                vstd::arithmetic::div_mod::lemma_small_mod(f_mul(a[0], b[k]), fq_modulus());
                lemma_f_mul_comm(a[0], b[k]);
            }
        }
        lemma_uni_eval_scale(b, a[0], x);
        lemma_f_mul_comm(a[0], spec_uni_eval(b, x));
    } else {
        let tail = a.drop_first();
        let cv_tail = spec_conv(tail, b);
        let head_scale = spec_scale_seq(b, a[0]);
        let shifted = seq![0nat] + cv_tail;
        assert(cv =~= spec_poly_add(head_scale, shifted)) by {
            assert forall|k: int| 0 <= k < cv.len() implies cv[k] == spec_poly_add(
                head_scale,
                shifted,
            )[k] by {
                lemma_conv_entry_head(a, b, k, a.len() as int);
                if k == 0 {
                    lemma_conv_entry_neg(tail, b, k - 1, tail.len() as int);
                } else {
                    assert(shifted[k] == cv_tail[k - 1]);
                }
                if 0 <= k < b.len() {
                    lemma_f_mul_comm(a[0], b[k]);
                }
            }
        }
        // entries of both summands are canonical
        assert(forall|k: int|
            0 <= k < head_scale.len() ==> #[trigger] head_scale[k] < fq_modulus()) by {
            assert forall|k: int| 0 <= k < head_scale.len() implies #[trigger] head_scale[k]
                < fq_modulus() by {
                lemma_f_ops_bounded(b[k], a[0]);
            }
        }
        assert(forall|k: int| 0 <= k < shifted.len() ==> #[trigger] shifted[k] < fq_modulus()) by {
            assert forall|k: int| 0 <= k < shifted.len() implies #[trigger] shifted[k]
                < fq_modulus() by {
                if k > 0 {
                    lemma_conv_entry_bounded(tail, b, k - 1, tail.len() as int);
                }
            }
        }
        assert(forall|k: int| 0 <= k < cv_tail.len() ==> #[trigger] cv_tail[k] < fq_modulus()) by {
            assert forall|k: int| 0 <= k < cv_tail.len() implies #[trigger] cv_tail[k]
                < fq_modulus() by {
                lemma_conv_entry_bounded(tail, b, k, tail.len() as int);
            }
        }
        lemma_uni_eval_add(head_scale, shifted, x);
        lemma_uni_eval_scale(b, a[0], x);
        lemma_uni_eval_zero_cons(cv_tail, x);
        lemma_uni_eval_conv(tail, b, x);
        let ea = spec_uni_eval(tail, x);
        let eb = spec_uni_eval(b, x);
        // a0 * eb + x * (ea * eb) == (ea * x + a0) * eb
        lemma_f_mul_comm(f_add(f_mul(ea, x), a[0]), eb);
        lemma_f_mul_distributes(eb, f_mul(ea, x), a[0]);
        lemma_f_mul_comm(eb, f_mul(ea, x));
        lemma_f_mul_comm(eb, a[0]);
        crate::field::lemma_f_mul_assoc(x, ea, eb);
        lemma_f_mul_comm(x, ea);
        crate::field::lemma_f_mul_assoc(ea, x, eb);
        lemma_f_mul_comm(f_mul(ea, x), eb);
        assert(f_add(f_mul(a[0], eb), f_mul(x, f_mul(ea, eb))) == f_add(
            f_mul(f_mul(ea, x), eb),
            f_mul(a[0], eb),
        )) by {
            assert(f_mul(x, f_mul(ea, eb)) == f_mul(f_mul(ea, x), eb)) by {
                crate::field::lemma_f_mul_assoc(x, ea, eb);
                lemma_f_mul_comm(x, ea);
                crate::field::lemma_f_mul_assoc(ea, x, eb);
            }
        }
    }
}

/// A monomial `X - r` evaluates to the field difference of the point and its
/// root.
proof fn lemma_uni_eval_monomial(r: nat, x: nat)
    requires
        x < fq_modulus(),
    ensures
        spec_uni_eval(seq![f_sub(0, r), 1nat], x) == f_sub(x, r),
{
    let q = fq_modulus() as int;
    let mono = seq![f_sub(0, r), 1nat];
    assert(mono.drop_first() =~= seq![1nat]);
    assert(spec_uni_eval(seq![1nat], x) == 1);
    assert(f_mul(1, x) == x) by {
        assert(1 * x == x) by (nonlinear_arith);
        vstd::arithmetic::div_mod::lemma_small_mod(x, fq_modulus());
    }
    assert((x as int + ((0 - r as int) % q)) % q == (x as int + (0 - r as int)) % q) by {
        vstd::arithmetic::div_mod::lemma_add_mod_noop_right(x as int, 0 - r as int, q);
    }
}

/// Every coefficient of a basis numerator is canonical, and the numerator is
/// never empty.
proof fn lemma_basis_num_prefix_bounded(xs: Seq<nat>, i: int, j: int)
    ensures
        spec_basis_num_prefix(xs, i, j).len() >= 1,
        forall|k: int|
            0 <= k < spec_basis_num_prefix(xs, i, j).len() ==> #[trigger] spec_basis_num_prefix(
                xs,
                i,
                j,
            )[k] < fq_modulus(),
    decreases j,
{
    if j <= 0 {
    } else {
        lemma_basis_num_prefix_bounded(xs, i, j - 1);
        if j - 1 != i {
            let prev = spec_basis_num_prefix(xs, i, j - 1);
            let cv = spec_conv(prev, seq![f_sub(0, xs[j - 1]), 1nat]);
            assert forall|k: int| 0 <= k < cv.len() implies #[trigger] cv[k] < fq_modulus() by {
                lemma_conv_entry_bounded(prev, seq![f_sub(0, xs[j - 1]), 1nat], k, prev.len() as int);
            }
        }
    }
}

/// A basis numerator for abscissa `i` vanishes at every other abscissa whose
/// monomial it already contains.
proof fn lemma_basis_num_root(xs: Seq<nat>, i: int, j: int, m: int)
    requires
        0 <= i < xs.len(),
        0 <= j < xs.len(),
        i != j,
        j < m <= xs.len(),
        forall|k: int| 0 <= k < xs.len() ==> #[trigger] xs[k] < fq_modulus(),
    ensures
        spec_uni_eval(spec_basis_num_prefix(xs, i, m), xs[j]) == 0,
    decreases m,
{
    let q = fq_modulus() as nat;
    let mono = seq![f_sub(0, xs[m - 1]), 1nat];
    if m == j + 1 {
        let prev = spec_basis_num_prefix(xs, i, j);
        lemma_basis_num_prefix_bounded(xs, i, j);
        assert(mono[0] < fq_modulus() && mono[1] < fq_modulus()) by {
            lemma_f_ops_bounded(0, xs[j]);
        }
        lemma_uni_eval_conv(prev, mono, xs[j]);
        lemma_uni_eval_monomial(xs[j], xs[j]);
        assert(f_sub(xs[j], xs[j]) == 0) by {
            vstd::arithmetic::div_mod::lemma_small_mod(0, q);
        }
        let e = spec_uni_eval(prev, xs[j]);
        assert(f_mul(e, 0) == 0) by {
            assert(e * 0 == 0) by (nonlinear_arith);
            vstd::arithmetic::div_mod::lemma_small_mod(0, q);
        }
    } else {
        lemma_basis_num_root(xs, i, j, m - 1);
        if m - 1 != i {
            let prev = spec_basis_num_prefix(xs, i, m - 1);
            lemma_basis_num_prefix_bounded(xs, i, m - 1);
            assert(mono[0] < fq_modulus() && mono[1] < fq_modulus()) by {
                lemma_f_ops_bounded(0, xs[m - 1]);
            }
            lemma_uni_eval_conv(prev, mono, xs[j]);
            let em = spec_uni_eval(mono, xs[j]);
            assert(f_mul(0, em) == 0) by {
                assert(0 * em == 0) by (nonlinear_arith);
                vstd::arithmetic::div_mod::lemma_small_mod(0, q);
            }
        }
    }
}

/// Every coefficient of a partial interpolation sum is canonical, and the sum
/// is never empty.
proof fn lemma_poly_sum_prefix_bounded(ps: Seq<Seq<nat>>, i: int)
    ensures
        spec_poly_sum_prefix(ps, i).len() >= 1,
        forall|k: int|
            0 <= k < spec_poly_sum_prefix(ps, i).len() ==> #[trigger] spec_poly_sum_prefix(
                ps,
                i,
            )[k] < fq_modulus(),
    decreases i,
{
    if i <= 0 {
    } else {
        lemma_poly_sum_prefix_bounded(ps, i - 1);
        let s = spec_poly_add(spec_poly_sum_prefix(ps, i - 1), ps[i - 1]);
        assert forall|k: int| 0 <= k < s.len() implies #[trigger] s[k] < fq_modulus() by {
            lemma_f_ops_bounded(
                coef_or_zero(spec_poly_sum_prefix(ps, i - 1), k),
                coef_or_zero(ps[i - 1], k),
            );
        }
    }
}

/// The value of a scaled basis polynomial at an abscissa: its own ordinate at
/// its own abscissa, zero at every other.
proof fn lemma_scaled_basis_at_point(xs: Seq<nat>, ys: Seq<nat>, m: int, j: int)
    requires
        xs.len() == ys.len(),
        0 <= m < xs.len(),
        0 <= j < xs.len(),
        forall|k: int| 0 <= k < xs.len() ==> #[trigger] xs[k] < fq_modulus(),
        forall|k: int| 0 <= k < ys.len() ==> #[trigger] ys[k] < fq_modulus(),
        f_mul(f_inv(spec_basis_denom(xs, m)), spec_basis_denom(xs, m)) == 1,
    ensures
        spec_uni_eval(spec_scale_seq(spec_basis(xs, m), ys[m]), xs[j]) == if m == j {
            ys[j]
        } else {
            0
        },
{
    let q = fq_modulus() as nat;
    let num = spec_basis_num(xs, m);
    let inv = f_inv(spec_basis_denom(xs, m));
    lemma_basis_num_prefix_bounded(xs, m, xs.len() as int);
    // the basis itself: the numerator scaled by the inverse denominator
    lemma_uni_eval_scale(num, inv, xs[j]);
    assert(spec_uni_eval(spec_basis(xs, m), xs[j]) == f_mul(inv, spec_uni_eval(num, xs[j])));
    // and the ordinate scaling on top
    let basis = spec_basis(xs, m);
    assert(basis.len() >= 1);
    lemma_uni_eval_scale(basis, ys[m], xs[j]);
    if m == j {
        assert(f_mul(inv, spec_basis_denom(xs, m)) == 1);
        assert(f_mul(ys[m], 1) == ys[m]) by {
            assert(ys[m] * 1 == ys[m]) by (nonlinear_arith);
            vstd::arithmetic::div_mod::lemma_small_mod(ys[m], q);
        }
    } else {
        lemma_basis_num_root(xs, m, j, xs.len() as int);
        assert(f_mul(inv, 0) == 0) by {
            assert(inv * 0 == 0) by (nonlinear_arith);
            vstd::arithmetic::div_mod::lemma_small_mod(0, q);
        }
        assert(f_mul(ys[m], 0) == 0) by {
            assert(ys[m] * 0 == 0) by (nonlinear_arith);
            vstd::arithmetic::div_mod::lemma_small_mod(0, q);
        }
    }
}

/// The partial interpolation sums, evaluated at abscissa `j`: zero until the
/// `j`-th scaled basis enters the sum, the ordinate `ys[j]` from then on.
proof fn lemma_interp_prefix_at_point(xs: Seq<nat>, ys: Seq<nat>, j: int, i: int)
    requires
        xs.len() == ys.len(),
        0 <= j < xs.len(),
        0 <= i <= xs.len(),
        forall|k: int| 0 <= k < xs.len() ==> #[trigger] xs[k] < fq_modulus(),
        forall|k: int| 0 <= k < ys.len() ==> #[trigger] ys[k] < fq_modulus(),
        forall|k: int|
            0 <= k < xs.len() ==> f_mul(
                f_inv(#[trigger] spec_basis_denom(xs, k)),
                spec_basis_denom(xs, k),
            ) == 1,
    ensures
        spec_uni_eval(
            spec_poly_sum_prefix(
                Seq::new(xs.len(), |m: int| spec_scale_seq(spec_basis(xs, m), ys[m])),
                i,
            ),
            xs[j],
        ) == if j < i {
            ys[j]
        } else {
            0
        },
    decreases i,
{
    let q = fq_modulus() as nat;
    let ps = Seq::new(xs.len(), |m: int| spec_scale_seq(spec_basis(xs, m), ys[m]));
    if i == 0 {
    } else {
        lemma_interp_prefix_at_point(xs, ys, j, i - 1);
        let prev = spec_poly_sum_prefix(ps, i - 1);
        lemma_poly_sum_prefix_bounded(ps, i - 1);
        let cur = ps[i - 1];
        assert(cur == spec_scale_seq(spec_basis(xs, i - 1), ys[i - 1]));
        lemma_basis_num_prefix_bounded(xs, i - 1, xs.len() as int);
        assert(cur.len() >= 1);
        assert(forall|k: int| 0 <= k < cur.len() ==> #[trigger] cur[k] < fq_modulus()) by {
            assert forall|k: int| 0 <= k < cur.len() implies #[trigger] cur[k] < fq_modulus() by {
                lemma_f_ops_bounded(spec_basis(xs, i - 1)[k], ys[i - 1]);
            }
        }
        lemma_uni_eval_add(prev, cur, xs[j]);
        lemma_scaled_basis_at_point(xs, ys, i - 1, j);
        if i - 1 == j {
            assert(f_add(0, ys[j]) == ys[j]) by {
                vstd::arithmetic::div_mod::lemma_small_mod(ys[j], q);
            }
        } else if j < i - 1 {
            assert(f_add(ys[j], 0) == ys[j]) by {
                vstd::arithmetic::div_mod::lemma_small_mod(ys[j], q);
            }
        } else {
            assert(f_add(0, 0) == 0) by {
                vstd::arithmetic::div_mod::lemma_small_mod(0, q);
            }
        }
    }
}

/// The interpolated polynomial passes through every input point: at each
/// abscissa it takes the matching ordinate.
pub proof fn lemma_interpolate_passes_through(xs: Seq<nat>, ys: Seq<nat>, j: int)
    requires
        xs.len() == ys.len(),
        0 <= j < xs.len(),
        forall|k: int| 0 <= k < xs.len() ==> #[trigger] xs[k] < fq_modulus(),
        forall|k: int| 0 <= k < ys.len() ==> #[trigger] ys[k] < fq_modulus(),
        forall|k: int|
            0 <= k < xs.len() ==> f_mul(
                f_inv(#[trigger] spec_basis_denom(xs, k)),
                spec_basis_denom(xs, k),
            ) == 1,
    ensures
        spec_uni_eval(spec_interp(xs, ys), xs[j]) == ys[j],
{
    lemma_interp_prefix_at_point(xs, ys, j, xs.len() as int);
}

} // verus!
