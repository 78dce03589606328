use vstd::prelude::*;
use crate::bignum::big_value;
use crate::bignum::big_from_i64;
use crate::bignum::big_add;
use crate::bignum::big_sub;
use crate::bignum::big_mul;
use crate::bignum::big_eq;
use crate::bignum::big_clone;

verus! {

/// A rational number in the specification world: numerator `n` over a nonzero
/// denominator `d`. Two values denote the same rational exactly when they are
/// equal under cross-multiplication (`feq`); the denominator may carry either
/// sign, so no canonical form is maintained.
pub struct Frac {
    pub n: int,
    pub d: int,
}

/// A specification-level rational is well formed when its denominator is nonzero.
pub open spec fn frac_wf(a: Frac) -> bool {
    a.d != 0
}

pub open spec fn fzero() -> Frac {
    Frac { n: 0, d: 1 }
}

pub open spec fn fone() -> Frac {
    Frac { n: 1, d: 1 }
}

/// Equality of the rationals denoted by `a` and `b`: a/b == c/d iff a*d == c*b.
pub open spec fn feq(a: Frac, b: Frac) -> bool {
    a.n * b.d == b.n * a.d
}

pub open spec fn fadd(a: Frac, b: Frac) -> Frac {
    Frac { n: a.n * b.d + b.n * a.d, d: a.d * b.d }
}

pub open spec fn fsub(a: Frac, b: Frac) -> Frac {
    Frac { n: a.n * b.d - b.n * a.d, d: a.d * b.d }
}

pub open spec fn fmul(a: Frac, b: Frac) -> Frac {
    Frac { n: a.n * b.n, d: a.d * b.d }
}

/// The reciprocal; well formed only when `a` denotes a nonzero rational.
pub open spec fn finv(a: Frac) -> Frac {
    Frac { n: a.d, d: a.n }
}

/// `feq` is reflexive by definition; transitivity needs the denominators nonzero.
pub proof fn lemma_feq_trans(a: Frac, b: Frac, c: Frac)
    by (nonlinear_arith)
    requires
        frac_wf(a),
        frac_wf(b),
        frac_wf(c),
        feq(a, b),
        feq(b, c),
    ensures
        feq(a, c),
{
}

pub proof fn lemma_feq_sym(a: Frac, b: Frac)
    requires
        feq(a, b),
    ensures
        feq(b, a),
{
}


/// Reordering a product of four factors.
proof fn lemma_mul_shuffle4(p: int, q: int, r: int, s: int)
    by (nonlinear_arith)
    ensures
        (p * q) * (r * s) == (p * r) * (q * s),
        (p * q) * (r * s) == (p * s) * (r * q),
{
}

/// Multiplication distributes over addition and subtraction of integers.
proof fn lemma_distrib_right(x: int, y: int, z: int)
    by (nonlinear_arith)
    ensures
        (x + y) * z == x * z + y * z,
        (x - y) * z == x * z - y * z,
{
}

proof fn lemma_mul_comm_int(x: int, y: int)
    by (nonlinear_arith)
    ensures
        x * y == y * x,
{
}

/// Addition respects rational equality.
pub proof fn lemma_fadd_congruence(a: Frac, a2: Frac, b: Frac, b2: Frac)
    requires
        frac_wf(a),
        frac_wf(a2),
        frac_wf(b),
        frac_wf(b2),
        feq(a, a2),
        feq(b, b2),
    ensures
        feq(fadd(a, b), fadd(a2, b2)),
{
    lemma_distrib_right(a.n * b.d, b.n * a.d, a2.d * b2.d);
    lemma_distrib_right(a2.n * b2.d, b2.n * a2.d, a.d * b.d);
    lemma_mul_shuffle4(a.n, b.d, a2.d, b2.d);
    lemma_mul_shuffle4(a2.n, b2.d, a.d, b.d);
    lemma_mul_comm_int(b.d, b2.d);
    assert((a.n * b.d) * (a2.d * b2.d) == (a2.n * b2.d) * (a.d * b.d));
    lemma_mul_shuffle4(b.n, a.d, a2.d, b2.d);
    lemma_mul_shuffle4(b2.n, a2.d, a.d, b.d);
    lemma_mul_comm_int(a.d, a2.d);
    assert((b.n * a.d) * (a2.d * b2.d) == (b2.n * a2.d) * (a.d * b.d));
}

/// The rational minus one.
pub open spec fn fneg_one() -> Frac {
    Frac { n: -1, d: 1 }
}

/// Multiplication respects rational equality.
pub proof fn lemma_fmul_congruence(a: Frac, a2: Frac, b: Frac, b2: Frac)
    requires
        frac_wf(a),
        frac_wf(a2),
        frac_wf(b),
        frac_wf(b2),
        feq(a, a2),
        feq(b, b2),
    ensures
        feq(fmul(a, b), fmul(a2, b2)),
{
    lemma_mul_shuffle4(a.n, b.n, a2.d, b2.d);
    lemma_mul_shuffle4(a2.n, b2.n, a.d, b.d);
    assert((a.n * a2.d) * (b.n * b2.d) == (a2.n * a.d) * (b2.n * b.d));
}

/// A nonzero rational times its reciprocal is one.
pub proof fn lemma_finv_cancels(a: Frac)
    by (nonlinear_arith)
    requires
        frac_wf(a),
        a.n != 0,
    ensures
        feq(fmul(finv(a), a), fone()),
        feq(fmul(a, finv(a)), fone()),
{
}

/// Subtracting a rational zero changes nothing.
pub proof fn lemma_fsub_zero(x: Frac, z: Frac)
    by (nonlinear_arith)
    requires
        frac_wf(x),
        frac_wf(z),
        feq(z, fzero()),
    ensures
        feq(fsub(x, z), x),
{
}

/// A rational plus minus-one times itself denotes zero.
pub proof fn lemma_fadd_neg_self(a: Frac)
    by (nonlinear_arith)
    requires
        frac_wf(a),
    ensures
        feq(fadd(a, fmul(a, fneg_one())), fzero()),
        feq(fadd(fmul(a, fneg_one()), a), fzero()),
{
}

/// Multiplying by a nonzero scalar reflects zeroness: if `w * x` denotes zero
/// and `w` does not, then `x` denotes zero.
pub proof fn lemma_fmul_cancel_zero(w: Frac, x: Frac)
    by (nonlinear_arith)
    requires
        frac_wf(w),
        frac_wf(x),
        w.n != 0,
        feq(fmul(w, x), fzero()),
    ensures
        feq(x, fzero()),
{
}

/// Multiplication commutes, up to rational equality.
pub proof fn lemma_fmul_comm(a: Frac, b: Frac)
    by (nonlinear_arith)
    requires
        frac_wf(a),
        frac_wf(b),
    ensures
        feq(fmul(a, b), fmul(b, a)),
{
}

/// Addition commutes, up to rational equality.
pub proof fn lemma_fadd_comm(a: Frac, b: Frac)
    by (nonlinear_arith)
    requires
        frac_wf(a),
        frac_wf(b),
    ensures
        feq(fadd(a, b), fadd(b, a)),
{
}

/// Addition is associative, up to rational equality.
pub proof fn lemma_fadd_assoc(p: Frac, q: Frac, r: Frac)
    requires
        frac_wf(p),
        frac_wf(q),
        frac_wf(r),
    ensures
        feq(fadd(fadd(p, q), r), fadd(p, fadd(q, r))),
{
    assert(((p.n * q.d + q.n * p.d) * r.d + r.n * (p.d * q.d)) * (p.d * (q.d * r.d))
        == ((p.n * q.d) * r.d) * (p.d * (q.d * r.d)) + ((q.n * p.d) * r.d) * (p.d * (q.d * r.d))
            + (r.n * (p.d * q.d)) * (p.d * (q.d * r.d))) by (nonlinear_arith);
    assert((p.n * (q.d * r.d) + (q.n * r.d + r.n * q.d) * p.d) * ((p.d * q.d) * r.d)
        == (p.n * (q.d * r.d)) * ((p.d * q.d) * r.d) + ((q.n * r.d) * p.d) * ((p.d * q.d) * r.d)
            + ((r.n * q.d) * p.d) * ((p.d * q.d) * r.d)) by (nonlinear_arith);
    assert(((p.n * q.d) * r.d) * (p.d * (q.d * r.d)) == (p.n * (q.d * r.d)) * ((p.d * q.d) * r.d))
        by (nonlinear_arith);
    assert(((q.n * p.d) * r.d) * (p.d * (q.d * r.d)) == ((q.n * r.d) * p.d) * ((p.d * q.d) * r.d))
        by (nonlinear_arith);
    assert((r.n * (p.d * q.d)) * (p.d * (q.d * r.d)) == ((r.n * q.d) * p.d) * ((p.d * q.d) * r.d))
        by (nonlinear_arith);
}

/// Subtraction respects rational equality.
pub proof fn lemma_fsub_congruence(a: Frac, a2: Frac, b: Frac, b2: Frac)
    requires
        frac_wf(a),
        frac_wf(a2),
        frac_wf(b),
        frac_wf(b2),
        feq(a, a2),
        feq(b, b2),
    ensures
        feq(fsub(a, b), fsub(a2, b2)),
{
    lemma_distrib_right(a.n * b.d, b.n * a.d, a2.d * b2.d);
    lemma_distrib_right(a2.n * b2.d, b2.n * a2.d, a.d * b.d);
    lemma_mul_shuffle4(a.n, b.d, a2.d, b2.d);
    lemma_mul_shuffle4(a2.n, b2.d, a.d, b.d);
    lemma_mul_comm_int(b.d, b2.d);
    assert((a.n * b.d) * (a2.d * b2.d) == (a2.n * b2.d) * (a.d * b.d));
    lemma_mul_shuffle4(b.n, a.d, a2.d, b2.d);
    lemma_mul_shuffle4(b2.n, a2.d, a.d, b.d);
    lemma_mul_comm_int(a.d, a2.d);
    assert((b.n * a.d) * (a2.d * b2.d) == (b2.n * a2.d) * (a.d * b.d));
}

/// Multiplication distributes over subtraction, up to rational equality.
pub proof fn lemma_fmul_distributes_sub(c: Frac, a: Frac, b: Frac)
    requires
        frac_wf(c),
        frac_wf(a),
        frac_wf(b),
    ensures
        feq(fmul(c, fsub(a, b)), fsub(fmul(c, a), fmul(c, b))),
{
    assert(c.n * (a.n * b.d - b.n * a.d) == c.n * (a.n * b.d) - c.n * (b.n * a.d))
        by (nonlinear_arith);
    lemma_distrib_right(c.n * (a.n * b.d), c.n * (b.n * a.d), (c.d * a.d) * (c.d * b.d));
    lemma_distrib_right(
        (c.n * a.n) * (c.d * b.d),
        (c.n * b.n) * (c.d * a.d),
        c.d * (a.d * b.d),
    );
    assert((c.n * (a.n * b.d)) * ((c.d * a.d) * (c.d * b.d))
        == ((c.n * a.n) * (c.d * b.d)) * (c.d * (a.d * b.d))) by (nonlinear_arith);
    assert((c.n * (b.n * a.d)) * ((c.d * a.d) * (c.d * b.d))
        == ((c.n * b.n) * (c.d * a.d)) * (c.d * (a.d * b.d))) by (nonlinear_arith);
}

/// Multiplication distributes over subtraction on the left factor.
pub proof fn lemma_fmul_sub_distributes(c: Frac, a: Frac, b: Frac)
    requires
        frac_wf(c),
        frac_wf(a),
        frac_wf(b),
    ensures
        feq(fmul(fsub(a, b), c), fsub(fmul(a, c), fmul(b, c))),
{
    lemma_wf_ops(a, b);
    lemma_wf_ops(c, a);
    lemma_wf_ops(c, b);
    lemma_wf_ops(a, c);
    lemma_wf_ops(b, c);
    lemma_wf_ops(fsub(a, b), c);
    lemma_wf_ops(c, fsub(a, b));
    lemma_fmul_comm(fsub(a, b), c);
    lemma_fmul_distributes_sub(c, a, b);
    lemma_fmul_comm(c, a);
    lemma_fmul_comm(c, b);
    lemma_fsub_congruence(fmul(c, a), fmul(a, c), fmul(c, b), fmul(b, c));
    lemma_wf_ops(fmul(c, a), fmul(c, b));
    lemma_wf_ops(fmul(a, c), fmul(b, c));
    lemma_feq_trans(fmul(fsub(a, b), c), fmul(c, fsub(a, b)), fsub(fmul(c, a), fmul(c, b)));
    lemma_feq_trans(
        fmul(fsub(a, b), c),
        fsub(fmul(c, a), fmul(c, b)),
        fsub(fmul(a, c), fmul(b, c)),
    );
}

/// Multiplication distributes over addition on the left factor.
pub proof fn lemma_fmul_add_distributes(c: Frac, a: Frac, b: Frac)
    requires
        frac_wf(c),
        frac_wf(a),
        frac_wf(b),
    ensures
        feq(fmul(fadd(a, b), c), fadd(fmul(a, c), fmul(b, c))),
{
    lemma_wf_ops(a, b);
    lemma_wf_ops(c, a);
    lemma_wf_ops(c, b);
    lemma_wf_ops(a, c);
    lemma_wf_ops(b, c);
    lemma_wf_ops(fadd(a, b), c);
    lemma_wf_ops(c, fadd(a, b));
    lemma_fmul_comm(fadd(a, b), c);
    lemma_fmul_distributes(c, a, b);
    lemma_fmul_comm(c, a);
    lemma_fmul_comm(c, b);
    lemma_fadd_congruence(fmul(c, a), fmul(a, c), fmul(c, b), fmul(b, c));
    lemma_wf_ops(fmul(c, a), fmul(c, b));
    lemma_wf_ops(fmul(a, c), fmul(b, c));
    lemma_feq_trans(fmul(fadd(a, b), c), fmul(c, fadd(a, b)), fadd(fmul(c, a), fmul(c, b)));
    lemma_feq_trans(
        fmul(fadd(a, b), c),
        fadd(fmul(c, a), fmul(c, b)),
        fadd(fmul(a, c), fmul(b, c)),
    );
}

/// Regrouping a sum of two sums.
pub proof fn lemma_fadd_regroup(p: Frac, q: Frac, r: Frac, s: Frac)
    requires
        frac_wf(p),
        frac_wf(q),
        frac_wf(r),
        frac_wf(s),
    ensures
        feq(fadd(fadd(p, q), fadd(r, s)), fadd(fadd(p, r), fadd(q, s))),
{
    lemma_wf_ops(p, q);
    lemma_wf_ops(r, s);
    lemma_wf_ops(q, r);
    lemma_wf_ops(r, q);
    lemma_wf_ops(p, r);
    lemma_wf_ops(q, s);
    lemma_wf_ops(fadd(q, r), s);
    lemma_wf_ops(fadd(r, q), s);
    lemma_wf_ops(q, fadd(r, s));
    lemma_wf_ops(r, fadd(q, s));
    lemma_wf_ops(fadd(p, q), fadd(r, s));
    lemma_wf_ops(fadd(p, r), fadd(q, s));
    // (p + q) + (r + s) ~ p + (q + (r + s))
    lemma_fadd_assoc(p, q, fadd(r, s));
    // q + (r + s) ~ (q + r) + s ~ (r + q) + s ~ r + (q + s)
    lemma_fadd_assoc(q, r, s);
    lemma_feq_sym(fadd(fadd(q, r), s), fadd(q, fadd(r, s)));
    lemma_fadd_comm(q, r);
    lemma_fadd_congruence(fadd(q, r), fadd(r, q), s, s);
    lemma_fadd_assoc(r, q, s);
    lemma_wf_ops(q, fadd(r, s));
    lemma_feq_trans(fadd(q, fadd(r, s)), fadd(fadd(q, r), s), fadd(fadd(r, q), s));
    lemma_feq_trans(fadd(q, fadd(r, s)), fadd(fadd(r, q), s), fadd(r, fadd(q, s)));
    // lift through the leading p and reassociate
    lemma_fadd_congruence(p, p, fadd(q, fadd(r, s)), fadd(r, fadd(q, s)));
    lemma_fadd_assoc(p, r, fadd(q, s));
    lemma_feq_sym(fadd(fadd(p, r), fadd(q, s)), fadd(p, fadd(r, fadd(q, s))));
    lemma_wf_ops(p, fadd(q, fadd(r, s)));
    lemma_wf_ops(p, fadd(r, fadd(q, s)));
    lemma_feq_trans(
        fadd(fadd(p, q), fadd(r, s)),
        fadd(p, fadd(q, fadd(r, s))),
        fadd(p, fadd(r, fadd(q, s))),
    );
    lemma_feq_trans(
        fadd(fadd(p, q), fadd(r, s)),
        fadd(p, fadd(r, fadd(q, s))),
        fadd(fadd(p, r), fadd(q, s)),
    );
}

/// Regrouping a sum of two differences.
pub proof fn lemma_fsub_regroup(p: Frac, q: Frac, r: Frac, s: Frac)
    requires
        frac_wf(p),
        frac_wf(q),
        frac_wf(r),
        frac_wf(s),
    ensures
        feq(fadd(fsub(p, q), fsub(r, s)), fsub(fadd(p, r), fadd(q, s))),
{
    assert(fsub(p, q) == fadd(p, fmul(q, fneg_one()))) by (nonlinear_arith);
    assert(fsub(r, s) == fadd(r, fmul(s, fneg_one()))) by (nonlinear_arith);
    lemma_wf_ops(q, fneg_one());
    lemma_wf_ops(s, fneg_one());
    lemma_fadd_regroup(p, fmul(q, fneg_one()), r, fmul(s, fneg_one()));
    lemma_wf_ops(q, s);
    assert(fadd(fmul(q, fneg_one()), fmul(s, fneg_one())) == fmul(fadd(q, s), fneg_one()))
        by (nonlinear_arith);
    assert(fsub(fadd(p, r), fadd(q, s)) == fadd(fadd(p, r), fmul(fadd(q, s), fneg_one())))
        by (nonlinear_arith);
}

/// Adding a rational zero changes nothing.
pub proof fn lemma_fadd_zero(a: Frac, z: Frac)
    by (nonlinear_arith)
    requires
        frac_wf(a),
        frac_wf(z),
        feq(z, fzero()),
    ensures
        feq(fadd(a, z), a),
        feq(fadd(z, a), a),
{
}

/// Multiplying by a rational zero gives zero.
pub proof fn lemma_fmul_zero(a: Frac, z: Frac)
    by (nonlinear_arith)
    requires
        frac_wf(a),
        frac_wf(z),
        feq(z, fzero()),
    ensures
        feq(fmul(a, z), fzero()),
        feq(fmul(z, a), fzero()),
{
}

/// Multiplying by a rational one changes nothing.
pub proof fn lemma_fmul_one(a: Frac, o: Frac)
    by (nonlinear_arith)
    requires
        frac_wf(a),
        frac_wf(o),
        feq(o, fone()),
    ensures
        feq(fmul(a, o), a),
        feq(fmul(o, a), a),
{
}

/// Multiplication distributes over addition, up to rational equality.
pub proof fn lemma_fmul_distributes(c: Frac, a: Frac, b: Frac)
    requires
        frac_wf(c),
        frac_wf(a),
        frac_wf(b),
    ensures
        feq(fmul(c, fadd(a, b)), fadd(fmul(c, a), fmul(c, b))),
{
    assert(c.n * (a.n * b.d + b.n * a.d) == c.n * (a.n * b.d) + c.n * (b.n * a.d))
        by (nonlinear_arith);
    lemma_distrib_right(c.n * (a.n * b.d), c.n * (b.n * a.d), (c.d * a.d) * (c.d * b.d));
    lemma_distrib_right(
        (c.n * a.n) * (c.d * b.d),
        (c.n * b.n) * (c.d * a.d),
        c.d * (a.d * b.d),
    );
    assert((c.n * (a.n * b.d)) * ((c.d * a.d) * (c.d * b.d))
        == ((c.n * a.n) * (c.d * b.d)) * (c.d * (a.d * b.d))) by (nonlinear_arith);
    assert((c.n * (b.n * a.d)) * ((c.d * a.d) * (c.d * b.d))
        == ((c.n * b.n) * (c.d * a.d)) * (c.d * (a.d * b.d))) by (nonlinear_arith);
}

/// Subtracting equal rationals gives zero.
pub proof fn lemma_fsub_self(a: Frac, b: Frac)
    by (nonlinear_arith)
    requires
        frac_wf(a),
        frac_wf(b),
        feq(a, b),
    ensures
        feq(fsub(a, b), fzero()),
{
}

/// Cancellation: (x + q) - q denotes the same rational as x.
pub proof fn lemma_fadd_fsub_cancel(x: Frac, q: Frac)
    by (nonlinear_arith)
    requires
        frac_wf(x),
        frac_wf(q),
    ensures
        feq(fsub(fadd(x, q), q), x),
{
}

/// Sums, differences and products of well-formed rationals are well formed.
pub proof fn lemma_wf_ops(a: Frac, b: Frac)
    requires
        frac_wf(a),
        frac_wf(b),
    ensures
        frac_wf(fadd(a, b)),
        frac_wf(fsub(a, b)),
        frac_wf(fmul(a, b)),
{
    assert(a.d * b.d != 0) by (nonlinear_arith)
        requires
            a.d != 0,
            b.d != 0,
    ;
}

/// An exact rational number: an arbitrary-precision numerator over a nonzero
/// arbitrary-precision denominator. No canonical form is maintained; values
/// are compared with `eq_value`, which mirrors `feq` on the abstract `Frac`.
pub struct Rational {
    num: num_bigint::BigInt,
    den: num_bigint::BigInt,
}

impl View for Rational {
    type V = Frac;

    closed spec fn view(&self) -> Frac {
        Frac { n: big_value(self.num), d: big_value(self.den) }
    }
}

impl Rational {
    pub open spec fn wf(self) -> bool {
        frac_wf(self@)
    }

    /// The rational with value `x`.
    pub fn from_int(x: i64) -> (r: Rational)
        ensures
            r@.n == x as int,
            r@.d == 1,
            r.wf(),
    {
        Rational { num: big_from_i64(x), den: big_from_i64(1) }
    }

    /// The rational `n / d`; rejected exactly when `d` is zero.
    pub fn new(n: i64, d: i64) -> (r: Option<Rational>)
        ensures
            d != 0 ==> (r matches Some(v) && v@.n == n as int && v@.d == d as int && v.wf()),
            d == 0 ==> r is None,
    {
        if d == 0 {
            None
        } else {
            Some(Rational { num: big_from_i64(n), den: big_from_i64(d) })
        }
    }

    /// A copy denoting the same rational.
    pub fn dup(&self) -> (r: Rational)
        ensures
            r@ == self@,
    {
        Rational { num: big_clone(&self.num), den: big_clone(&self.den) }
    }

    pub fn add(&self, other: &Rational) -> (r: Rational)
        requires
            self.wf(),
            other.wf(),
        ensures
            r@ == fadd(self@, other@),
            r.wf(),
    {
        let num = big_add(&big_mul(&self.num, &other.den), &big_mul(&other.num, &self.den));
        let den = big_mul(&self.den, &other.den);
        proof {
            assert(self@.d * other@.d != 0) by (nonlinear_arith)
                requires
                    self@.d != 0,
                    other@.d != 0,
            ;
        }
        Rational { num, den }
    }

    pub fn sub(&self, other: &Rational) -> (r: Rational)
        requires
            self.wf(),
            other.wf(),
        ensures
            r@ == fsub(self@, other@),
            r.wf(),
    {
        let num = big_sub(&big_mul(&self.num, &other.den), &big_mul(&other.num, &self.den));
        let den = big_mul(&self.den, &other.den);
        proof {
            assert(self@.d * other@.d != 0) by (nonlinear_arith)
                requires
                    self@.d != 0,
                    other@.d != 0,
            ;
        }
        Rational { num, den }
    }

    pub fn mul(&self, other: &Rational) -> (r: Rational)
        requires
            self.wf(),
            other.wf(),
        ensures
            r@ == fmul(self@, other@),
            r.wf(),
    {
        let num = big_mul(&self.num, &other.num);
        let den = big_mul(&self.den, &other.den);
        proof {
            assert(self@.d * other@.d != 0) by (nonlinear_arith)
                requires
                    self@.d != 0,
                    other@.d != 0,
            ;
        }
        Rational { num, den }
    }

    /// Whether this value denotes the rational zero.
    pub fn is_zero(&self) -> (r: bool)
        requires
            self.wf(),
        ensures
            r == feq(self@, fzero()),
    {
        let zero = big_from_i64(0);
        big_eq(&self.num, &zero)
    }

    /// Whether the two values denote the same rational.
    pub fn eq_value(&self, other: &Rational) -> (r: bool)
        requires
            self.wf(),
            other.wf(),
        ensures
            r == feq(self@, other@),
    {
        big_eq(&big_mul(&self.num, &other.den), &big_mul(&other.num, &self.den))
    }

    /// The reciprocal; `None` exactly when this value denotes zero.
    pub fn recip(&self) -> (r: Option<Rational>)
        requires
            self.wf(),
        ensures
            feq(self@, fzero()) ==> r is None,
            !feq(self@, fzero()) ==> (r matches Some(v) && v@ == finv(self@) && v.wf()),
    {
        if self.is_zero() {
            None
        } else {
            Some(Rational { num: big_clone(&self.den), den: big_clone(&self.num) })
        }
    }
}

} // verus!
