//! The prime field the whole library computes in: the BN254 base field.
//!
//! The element type is opaque — the representation and the arithmetic live in
//! the outside `ark_bn254` / `ark_ff` crates — and every contract speaks of the
//! canonical integer value of an element, `fq_val`, which lies in
//! `[0, fq_modulus())`.  Each trusted wrapper below states, over `fq_val`, what
//! the one outside operation it calls returns.

use ark_ff::{BigInteger, Field, PrimeField};
use vstd::prelude::*;

verus! {

/// A field element of the BN254 base field.  Opaque: the backing value is an
/// element of the outside arithmetic crate's `Fp` type, whose declaration
/// carries trait bounds that cannot be restated here.
#[verifier::external_body]
pub struct Fq {
    inner: ark_bn254::Fq,
}

/// The canonical integer representative of a field element, in `[0, fq_modulus())`.
pub uninterp spec fn fq_val(x: Fq) -> nat;

/// The order of the BN254 base field (a prime).
pub open spec fn fq_modulus() -> nat {
    21888242871839275222246405745257275088696311157297823662689037894645226208583nat
}

/// Field addition on canonical values.
pub open spec fn f_add(a: nat, b: nat) -> nat {
    (a + b) % fq_modulus()
}

/// Field subtraction on canonical values (Euclidean remainder, so never negative).
pub open spec fn f_sub(a: nat, b: nat) -> nat {
    ((a as int - b as int) % (fq_modulus() as int)) as nat
}

/// Field multiplication on canonical values.
pub open spec fn f_mul(a: nat, b: nat) -> nat {
    (a * b) % fq_modulus()
}

/// The affine interpolation `a0 + t * (a1 - a0)` on canonical values: the value
/// at `t` of the unique line through `(0, a0)` and `(1, a1)`.
pub open spec fn f_aff(a0: nat, a1: nat, t: nat) -> nat {
    f_add(a0, f_mul(t, f_sub(a1, a0)))
}

impl Clone for Fq {
    /// Relies on `ark_ff`'s derived `Clone` for `Fp`: the copy is the same field element.
    #[verifier::external_body]
    fn clone(&self) -> (r: Self)
        ensures
            fq_val(r) == fq_val(*self),
    {
        Fq { inner: self.inner }
    }
}

impl Copy for Fq {

}

/// Relies on `ark_ff`'s derived `PartialEq` for `Fp`: representations are
/// canonical, so representation equality is field-element equality.
#[verifier::external_body]
pub fn fq_eq(a: &Fq, b: &Fq) -> (r: bool)
    ensures
        r == (fq_val(*a) == fq_val(*b)),
{
    a.inner == b.inner
}

impl PartialEq for Fq {
    fn eq(&self, other: &Fq) -> (r: bool) {
        fq_eq(self, other)
    }
}

impl vstd::std_specs::cmp::PartialEqSpecImpl for Fq {
    open spec fn obeys_eq_spec() -> bool {
        true
    }

    open spec fn eq_spec(&self, other: &Fq) -> bool {
        fq_val(*self) == fq_val(*other)
    }
}

impl Fq {
    /// Relies on `ark_ff`'s `From<u64>` for `Fp`: embeds the integer into the
    /// field.  Every `u64` is below the 254-bit modulus, so no reduction occurs.
    #[verifier::external_body]
    pub fn from_u64(v: u64) -> (r: Fq)
        ensures
            fq_val(r) == v as nat,
    {
        Fq { inner: ark_bn254::Fq::from(v) }
    }
}

/// Relies on `ark_ff`'s field addition for `Fp`: canonical values add modulo
/// the field order.
#[verifier::external_body]
pub fn fq_add(a: &Fq, b: &Fq) -> (r: Fq)
    ensures
        fq_val(r) == f_add(fq_val(*a), fq_val(*b)),
{
    Fq { inner: a.inner + b.inner }
}

/// Relies on `ark_ff`'s field subtraction for `Fp`: canonical values subtract
/// modulo the field order.
#[verifier::external_body]
pub fn fq_sub(a: &Fq, b: &Fq) -> (r: Fq)
    ensures
        fq_val(r) == f_sub(fq_val(*a), fq_val(*b)),
{
    Fq { inner: a.inner - b.inner }
}

/// Relies on `ark_ff`'s field multiplication for `Fp`: canonical values
/// multiply modulo the field order.
#[verifier::external_body]
pub fn fq_mul(a: &Fq, b: &Fq) -> (r: Fq)
    ensures
        fq_val(r) == f_mul(fq_val(*a), fq_val(*b)),
{
    Fq { inner: a.inner * b.inner }
}

/// The multiplicative inverse of `a` modulo the field order, when one exists:
/// the one value below the modulus whose product with `a` is 1.
pub open spec fn f_inv(a: nat) -> nat {
    choose|r: nat| r < fq_modulus() && f_mul(r, a) == 1
}

/// Inverses are unique, so any witness below the modulus is `f_inv`.
pub proof fn lemma_f_inv(a: nat, x: nat)
    requires
        x < fq_modulus(),
        f_mul(x, a) == 1,
    ensures
        f_inv(a) == x,
{
    let q = fq_modulus() as int;
    let y = f_inv(a);
    assert(y < fq_modulus() && f_mul(y, a) == 1) by {
        assert(x < fq_modulus() && f_mul(x, a) == 1);
    }
    // x == x * (a * y) == (x * a) * y == y, all modulo the field order
    assert(f_mul(x, f_mul(a, y)) == f_mul(f_mul(x, a), y)) by {
        lemma_f_mul_assoc(x, a, y);
    }
    assert(f_mul(a, y) == f_mul(y, a)) by {
        assert(a * y == y * a) by (nonlinear_arith);
    }
    assert(f_mul(x, 1) == x) by {
        assert(x * 1 == x) by (nonlinear_arith);
        vstd::arithmetic::div_mod::lemma_small_mod(x, fq_modulus());
    }
    assert(f_mul(1, y) == y) by {
        assert(1 * y == y) by (nonlinear_arith);
        vstd::arithmetic::div_mod::lemma_small_mod(y, fq_modulus());
    }
}

/// Field multiplication on canonical values is associative.
pub proof fn lemma_f_mul_assoc(a: nat, b: nat, c: nat)
    ensures
        f_mul(a, f_mul(b, c)) == f_mul(f_mul(a, b), c),
{
    let q = fq_modulus() as int;
    assert((a * ((b * c) % q as nat)) % q as nat == (a * (b * c)) % q as nat) by {
        vstd::arithmetic::div_mod::lemma_mul_mod_noop_right(a as int, (b * c) as int, q);
    }
    assert((((a * b) % q as nat) * c) % q as nat == ((a * b) * c) % q as nat) by {
        vstd::arithmetic::div_mod::lemma_mul_mod_noop_left((a * b) as int, c as int, q);
    }
    assert(a * (b * c) == (a * b) * c) by (nonlinear_arith);
}

/// Relies on `ark_ff`'s `Field::inverse` for `Fp`: `None` exactly on zero, and
/// otherwise the multiplicative inverse modulo the field order.
#[verifier::external_body]
pub fn fq_inverse(a: &Fq) -> (r: Option<Fq>)
    ensures
        r is Some <==> fq_val(*a) % fq_modulus() != 0,
        r is Some ==> f_mul(fq_val(r->0), fq_val(*a)) == 1 && fq_val(r->0) < fq_modulus(),
{
    match a.inner.inverse() {
        Some(inv) => Some(Fq { inner: inv }),
        None => None,
    }
}

/// The little-endian byte string of length `n` that encodes `v mod 256^n`.
pub open spec fn nat_to_le_bytes(v: nat, n: nat) -> Seq<u8>
    decreases n,
{
    if n == 0 {
        Seq::empty()
    } else {
        seq![(v % 256) as u8] + nat_to_le_bytes(v / 256, (n - 1) as nat)
    }
}

/// The integer a little-endian byte string denotes.
pub open spec fn le_bytes_to_nat(s: Seq<u8>) -> nat
    decreases s.len(),
{
    if s.len() == 0 {
        0
    } else {
        (s[0] + 256 * le_bytes_to_nat(s.drop_first())) as nat
    }
}

/// The canonical 32-byte little-endian encoding of a field element's value.
pub open spec fn fq_bytes_le(v: nat) -> Seq<u8> {
    nat_to_le_bytes(v, 32)
}

/// The canonical 32-byte big-endian encoding of a field element's value.
pub open spec fn fq_bytes_be(v: nat) -> Seq<u8> {
    nat_to_le_bytes(v, 32).reverse()
}

/// Relies on `ark_ff`'s `PrimeField::into_bigint` (the canonical representative)
/// and `BigInt::to_bytes_be`: the 32-byte big-endian encoding of the canonical
/// value.
#[verifier::external_body]
pub fn fq_to_bytes_be(a: &Fq) -> (r: Vec<u8>)
    ensures
        r@ == fq_bytes_be(fq_val(*a)),
        r@.len() == 32,
{
    a.inner.into_bigint().to_bytes_be()
}

/// Relies on `ark_ff`'s `PrimeField::into_bigint` (the canonical representative)
/// and `BigInt::to_bytes_le`: the 32-byte little-endian encoding of the
/// canonical value.
#[verifier::external_body]
pub fn fq_to_bytes_le(a: &Fq) -> (r: Vec<u8>)
    ensures
        r@ == fq_bytes_le(fq_val(*a)),
        r@.len() == 32,
{
    a.inner.into_bigint().to_bytes_le()
}

/// Relies on `ark_ff`'s `PrimeField::from_le_bytes_mod_order`: the bytes are
/// read as a little-endian integer and reduced modulo the field order.
#[verifier::external_body]
pub fn fq_from_le_bytes_mod_order(bytes: &[u8]) -> (r: Fq)
    ensures
        fq_val(r) == le_bytes_to_nat(bytes@) % fq_modulus(),
{
    Fq { inner: ark_bn254::Fq::from_le_bytes_mod_order(bytes) }
}

/// Every canonical value is below the modulus; results of the spec-level field
/// operations are therefore, too.
pub proof fn lemma_f_ops_bounded(a: nat, b: nat)
    ensures
        f_add(a, b) < fq_modulus(),
        f_sub(a, b) < fq_modulus(),
        f_mul(a, b) < fq_modulus(),
{
    vstd::arithmetic::div_mod::lemma_mod_bound((a + b) as int, fq_modulus() as int);
    vstd::arithmetic::div_mod::lemma_mod_bound(a as int - b as int, fq_modulus() as int);
    vstd::arithmetic::div_mod::lemma_mod_bound((a * b) as int, fq_modulus() as int);
}

/// The interpolation of a pair at `t = 0` gives the first value back and at
/// `t = 1` the second, for values already in canonical range.
pub proof fn lemma_f_aff_endpoints(a0: nat, a1: nat)
    requires
        a0 < fq_modulus(),
        a1 < fq_modulus(),
    ensures
        f_aff(a0, a1, 0) == a0,
        f_aff(a0, a1, 1) == a1,
{
    let q = fq_modulus() as int;
    assert(f_mul(0, f_sub(a1, a0)) == 0) by {
        vstd::arithmetic::div_mod::lemma_small_mod(0, fq_modulus());
    }
    vstd::arithmetic::div_mod::lemma_small_mod(a0, fq_modulus());
    assert(f_aff(a0, a1, 0) == a0);
    let d = f_sub(a1, a0);
    assert(f_mul(1, d) == d % fq_modulus());
    vstd::arithmetic::div_mod::lemma_mod_bound(a1 as int - a0 as int, q);
    vstd::arithmetic::div_mod::lemma_small_mod(d, fq_modulus());
    assert((a0 + (a1 as int - a0 as int) % q) % q == (a0 + (a1 as int - a0 as int)) % q) by {
        vstd::arithmetic::div_mod::lemma_add_mod_noop_right(
            a0 as int,
            a1 as int - a0 as int,
            q,
        );
    }
    vstd::arithmetic::div_mod::lemma_small_mod(a1, fq_modulus());
    assert(f_aff(a0, a1, 1) == a1);
}

/// Reducing the two endpoint arguments of the affine interpolation modulo the
/// field order does not change its value.
proof fn lemma_aff_mod_args(a0: int, a1: int, t: int, q: int)
    requires
        q > 0,
    ensures
        (a0 % q + t * (a1 % q) - t * (a0 % q)) % q == (a0 + t * a1 - t * a0) % q,
{
    let x = a0 % q;
    let y = a1 % q;
    assert((t * y) % q == (t * a1) % q) by {
        vstd::arithmetic::div_mod::lemma_mul_mod_noop_right(t, a1, q);
    }
    assert((t * x) % q == (t * a0) % q) by {
        vstd::arithmetic::div_mod::lemma_mul_mod_noop_right(t, a0, q);
    }
    // replace t * x by t * a0
    assert((x + t * y - t * x) % q == (x + t * y - t * a0) % q) by {
        vstd::arithmetic::div_mod::lemma_sub_mod_noop_right(x + t * y, t * x, q);
        vstd::arithmetic::div_mod::lemma_sub_mod_noop_right(x + t * y, t * a0, q);
    }
    // replace t * y by t * a1
    assert((x - t * a0 + t * y) % q == (x - t * a0 + t * a1) % q) by {
        vstd::arithmetic::div_mod::lemma_add_mod_noop_right(x - t * a0, t * y, q);
        vstd::arithmetic::div_mod::lemma_add_mod_noop_right(x - t * a0, t * a1, q);
    }
    // replace x by a0
    assert((t * a1 - t * a0 + x) % q == (t * a1 - t * a0 + a0) % q) by {
        vstd::arithmetic::div_mod::lemma_add_mod_noop_right(t * a1 - t * a0, x, q);
        vstd::arithmetic::div_mod::lemma_add_mod_noop_right(t * a1 - t * a0, a0, q);
    }
}

/// The value of the affine interpolation, written over the integers: it is the
/// residue of `a0 + t * a1 - t * a0`.
pub proof fn lemma_f_aff_value(a0: nat, a1: nat, t: nat)
    ensures
        f_aff(a0, a1, t) as int == (a0 + t * a1 - t * a0) % (fq_modulus() as int),
{
    let q = fq_modulus() as int;
    let d = f_sub(a1, a0);
    assert((t * (((a1 - a0) % q) as int)) % q == (t * (a1 - a0)) % q) by {
        vstd::arithmetic::div_mod::lemma_mul_mod_noop_right(t as int, a1 - a0, q);
    }
    assert(f_mul(t, d) as int == (t * (a1 - a0)) % q);
    assert((a0 + ((t * (a1 - a0)) % q)) % q == (a0 + t * (a1 - a0)) % q) by {
        vstd::arithmetic::div_mod::lemma_add_mod_noop_right(a0 as int, t * (a1 - a0), q);
    }
    assert(t * (a1 - a0) == t * a1 - t * a0) by (nonlinear_arith);
}

/// Interpolating between two interpolations commutes: sampling at `t` inside
/// each endpoint pair and then at `r` across equals sampling at `r` inside and
/// then at `t` across.
pub proof fn lemma_f_aff_compose(u0: nat, u1: nat, w0: nat, w1: nat, t: nat, r: nat)
    ensures
        f_aff(f_aff(u0, w0, t), f_aff(u1, w1, t), r) == f_aff(
            f_aff(u0, u1, r),
            f_aff(w0, w1, r),
            t,
        ),
{
    let q = fq_modulus() as int;
    let a0p = u0 + t * w0 - t * u0;
    let a1p = u1 + t * w1 - t * u1;
    let b0p = u0 + r * u1 - r * u0;
    let b1p = w0 + r * w1 - r * w0;
    lemma_f_aff_value(u0, w0, t);
    lemma_f_aff_value(u1, w1, t);
    lemma_f_aff_value(f_aff(u0, w0, t), f_aff(u1, w1, t), r);
    lemma_aff_mod_args(a0p, a1p, r as int, q);
    assert(f_aff(f_aff(u0, w0, t), f_aff(u1, w1, t), r) as int == (a0p + r * a1p - r * a0p) % q);
    lemma_f_aff_value(u0, u1, r);
    lemma_f_aff_value(w0, w1, r);
    lemma_f_aff_value(f_aff(u0, u1, r), f_aff(w0, w1, r), t);
    lemma_aff_mod_args(b0p, b1p, t as int, q);
    assert(f_aff(f_aff(u0, u1, r), f_aff(w0, w1, r), t) as int == (b0p + t * b1p - t * b0p) % q);
    assert(a0p + r * a1p - r * a0p == b0p + t * b1p - t * b0p) by (nonlinear_arith)
        requires
            a0p == u0 + t * w0 - t * u0,
            a1p == u1 + t * w1 - t * u1,
            b0p == u0 + r * u1 - r * u0,
            b1p == w0 + r * w1 - r * w0,
    ;
}

/// Field addition on canonical values is associative.
pub proof fn lemma_f_add_assoc(a: nat, b: nat, c: nat)
    ensures
        f_add(f_add(a, b), c) == f_add(a, f_add(b, c)),
{
    let q = fq_modulus() as int;
    assert((c + ((a + b) % q as nat)) % q as nat == (c + (a + b)) % q as nat) by {
        vstd::arithmetic::div_mod::lemma_add_mod_noop_right(c as int, a as int + b as int, q);
    }
    assert((a + ((b + c) % q as nat)) % q as nat == (a + (b + c)) % q as nat) by {
        vstd::arithmetic::div_mod::lemma_add_mod_noop_right(a as int, b as int + c as int, q);
    }
}

/// The affine interpolation is additive in its endpoint pairs.
pub proof fn lemma_f_aff_add(a0: nat, b0: nat, a1: nat, b1: nat, t: nat)
    ensures
        f_add(f_aff(a0, b0, t), f_aff(a1, b1, t)) == f_aff(f_add(a0, a1), f_add(b0, b1), t),
{
    let q = fq_modulus() as int;
    lemma_f_aff_value(a0, b0, t);
    lemma_f_aff_value(a1, b1, t);
    let xa = a0 + t * b0 - t * a0;
    let xb = a1 + t * b1 - t * a1;
    // left side: the residues of xa and xb, added and reduced
    assert(((xa % q) + (xb % q)) % q == (xa + xb) % q) by {
        vstd::arithmetic::div_mod::lemma_add_mod_noop(xa, xb, q);
    }
    // right side: the affine interpolation of the reduced sums
    lemma_f_aff_value(f_add(a0, a1), f_add(b0, b1), t);
    lemma_aff_mod_args(a0 as int + a1 as int, b0 as int + b1 as int, t as int, q);
    assert(f_aff(f_add(a0, a1), f_add(b0, b1), t) as int == ((a0 + a1) + t * (b0 + b1) - t * (a0
        + a1)) % q);
    assert(xa + xb == (a0 + a1) + t * (b0 + b1) - t * (a0 + a1)) by (nonlinear_arith)
        requires
            xa == a0 + t * b0 - t * a0,
            xb == a1 + t * b1 - t * a1,
    ;
}

/// Field multiplication on canonical values is commutative.
pub proof fn lemma_f_mul_comm(a: nat, b: nat)
    ensures
        f_mul(a, b) == f_mul(b, a),
{
    assert(a * b == b * a) by (nonlinear_arith);
}

/// Field multiplication distributes over field addition on canonical values.
pub proof fn lemma_f_mul_distributes(s: nat, u: nat, v: nat)
    ensures
        f_mul(s, f_add(u, v)) == f_add(f_mul(s, u), f_mul(s, v)),
{
    let q = fq_modulus() as int;
    assert((s as int * (((u + v) % q as nat) as int)) % q == (s as int * (u as int + v as int)) % q) by {
        vstd::arithmetic::div_mod::lemma_mul_mod_noop_right(s as int, u as int + v as int, q);
    }
    assert((((s * u) % q as nat) + ((s * v) % q as nat)) % q as nat == ((s * u) + (s * v))
        % q as nat) by {
        vstd::arithmetic::div_mod::lemma_add_mod_noop(s as int * u as int, s as int * v as int, q);
    }
    assert(s * (u + v) == s * u + s * v) by (nonlinear_arith);
}

/// Two field sums of two terms each regroup freely.
pub proof fn lemma_f_add_rearrange(a: nat, b: nat, c: nat, d: nat)
    ensures
        f_add(f_add(a, b), f_add(c, d)) == f_add(f_add(a, c), f_add(b, d)),
{
    let q = fq_modulus() as int;
    assert((((a + b) % q as nat) + ((c + d) % q as nat)) % q as nat == ((a + b) + (c + d))
        % q as nat) by {
        vstd::arithmetic::div_mod::lemma_add_mod_noop(a as int + b as int, c as int + d as int, q);
    }
    assert((((a + c) % q as nat) + ((b + d) % q as nat)) % q as nat == ((a + c) + (b + d))
        % q as nat) by {
        vstd::arithmetic::div_mod::lemma_add_mod_noop(a as int + c as int, b as int + d as int, q);
    }
}

} // verus!
