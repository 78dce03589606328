use vstd::prelude::*;
use crate::rational::Frac;
use crate::rational::frac_wf;
use crate::rational::fzero;
use crate::rational::fone;
use crate::rational::feq;
use crate::rational::fadd;
use crate::rational::fmul;
use crate::rational::lemma_feq_trans;
use crate::rational::lemma_feq_sym;
use crate::rational::lemma_fadd_zero;
use crate::rational::lemma_fsub_self;
use crate::rational::lemma_fadd_fsub_cancel;
use crate::rational::lemma_wf_ops;
use crate::matrix::mat_wf;
use crate::matrix::dot;
use crate::matrix::mul_entry;
use crate::matrix::ident_entry;
use crate::matrix::is_identity;
use crate::matrix::is_zero_mat;
use crate::matrix::left_inverse;
use crate::matrix::smat_mul;
use crate::matrix::smat_add;
use crate::matrix::smat_sub;
use crate::matrix::smat_scale;
use crate::matrix::smat_transpose;
use crate::matrix::lemma_dot_wf;
use crate::matrix::lemma_dot_zero_col;
use crate::matrix::lemma_dot_basis_row;
use crate::matrix::lemma_dot_basis_col;
use crate::matrix::lemma_dot_scale_col;

verus! {

/// A product of well-formed matrices is well formed.
pub proof fn lemma_smat_mul_wf(a: Seq<Seq<Frac>>, b: Seq<Seq<Frac>>, ra: nat, ca: nat, cb: nat)
    requires
        mat_wf(a, ra, ca),
        mat_wf(b, ca, cb),
    ensures
        mat_wf(smat_mul(a, b, ra, cb), ra, cb),
{
    assert forall|i: int, j: int| 0 <= i < ra && 0 <= j < cb implies frac_wf(
        #[trigger] smat_mul(a, b, ra, cb)[i][j],
    ) by {
        lemma_dot_wf(a[i], b, j, ca);
    }
}

/// A sum of well-formed matrices is well formed.
pub proof fn lemma_smat_add_wf(a: Seq<Seq<Frac>>, b: Seq<Seq<Frac>>, rows: nat, cols: nat)
    requires
        mat_wf(a, rows, cols),
        mat_wf(b, rows, cols),
    ensures
        mat_wf(smat_add(a, b, rows, cols), rows, cols),
{
    assert forall|i: int, j: int| 0 <= i < rows && 0 <= j < cols implies frac_wf(
        #[trigger] smat_add(a, b, rows, cols)[i][j],
    ) by {
        lemma_wf_ops(a[i][j], b[i][j]);
    }
}

/// The predicted state is linear in the state: predicting a scalar multiple
/// of the state scales the predicted state by the same factor, entry by entry.
pub proof fn lemma_predict_state_linear(f: Seq<Seq<Frac>>, x: Seq<Seq<Frac>>, a: Frac, n: nat)
    requires
        mat_wf(f, n, n),
        mat_wf(x, n, 1),
        frac_wf(a),
    ensures
        forall|i: int|
            0 <= i < n ==> feq(
                #[trigger] mul_entry(f, smat_scale(a, x, n, 1), i, 0),
                fmul(a, mul_entry(f, x, i, 0)),
            ),
{
    assert forall|i: int| 0 <= i < n implies feq(
        #[trigger] mul_entry(f, smat_scale(a, x, n, 1), i, 0),
        fmul(a, mul_entry(f, x, i, 0)),
    ) by {
        lemma_dot_scale_col(f[i], smat_scale(a, x, n, 1), a, x, 0, n);
    }
}

/// Subtracting the process noise back out of the predicted covariance leaves
/// exactly the propagated covariance: `(M + Q) - Q` denotes `M` entrywise.
pub proof fn lemma_predict_covariance_growth(m: Seq<Seq<Frac>>, q: Seq<Seq<Frac>>, n: nat)
    requires
        mat_wf(m, n, n),
        mat_wf(q, n, n),
    ensures
        forall|i: int, j: int|
            0 <= i < n && 0 <= j < n ==> feq(
                #[trigger] smat_sub(smat_add(m, q, n, n), q, n, n)[i][j],
                m[i][j],
            ),
{
    assert forall|i: int, j: int| 0 <= i < n && 0 <= j < n implies feq(
        #[trigger] smat_sub(smat_add(m, q, n, n), q, n, n)[i][j],
        m[i][j],
    ) by {
        lemma_fadd_fsub_cancel(m[i][j], q[i][j]);
    }
}

/// With the identity transition matrix, propagating a covariance through
/// `F * P * transpose(F)` leaves it unchanged, entry by entry.
pub proof fn lemma_predict_identity_covariance(f: Seq<Seq<Frac>>, p: Seq<Seq<Frac>>, n: nat)
    requires
        is_identity(f, n),
        mat_wf(p, n, n),
    ensures
        forall|i: int, j: int|
            0 <= i < n && 0 <= j < n ==> feq(
                #[trigger] mul_entry(
                    smat_mul(f, p, n, n),
                    smat_transpose(f, n, n),
                    i,
                    j,
                ),
                p[i][j],
            ),
{
    let g = smat_mul(f, p, n, n);
    let t = smat_transpose(f, n, n);
    assert(mat_wf(f, n, n));
    lemma_smat_mul_wf(f, p, n, n, n);
    assert forall|i: int, j: int| 0 <= i < n && 0 <= j < n implies feq(
        #[trigger] mul_entry(g, t, i, j),
        p[i][j],
    ) by {
        assert forall|k: int| 0 <= k < n implies (#[trigger] t[k])[j] == ident_entry(k, j) by {
            assert(t[k][j] == f[j][k]);
        }
        lemma_dot_basis_col(g[i], t, j, j, n);
        lemma_dot_basis_row(f[i], p, i, j, n);
        assert(g[i][j] == dot(f[i], p, j, n));
        lemma_dot_wf(g[i], t, j, n);
        lemma_dot_wf(f[i], p, j, n);
        lemma_feq_trans(mul_entry(g, t, i, j), g[i][j], p[i][j]);
    }
}

/// With the identity transition matrix, the predicted state denotes the state
/// unchanged, entry by entry.
pub proof fn lemma_predict_identity_state(f: Seq<Seq<Frac>>, x: Seq<Seq<Frac>>, n: nat)
    requires
        is_identity(f, n),
        mat_wf(x, n, 1),
    ensures
        forall|i: int|
            0 <= i < n ==> feq(#[trigger] mul_entry(f, x, i, 0), x[i][0]),
{
    assert forall|i: int| 0 <= i < n implies feq(#[trigger] mul_entry(f, x, i, 0), x[i][0]) by {
        lemma_dot_basis_row(f[i], x, i, 0, n);
    }
}

/// With the identity transition matrix and zero-valued process noise, one
/// predict step leaves both the state and the covariance denoting the same
/// rationals: the no-op model is idempotent.
pub proof fn lemma_predict_noop(
    f: Seq<Seq<Frac>>,
    q: Seq<Seq<Frac>>,
    x: Seq<Seq<Frac>>,
    p: Seq<Seq<Frac>>,
    n: nat,
)
    requires
        is_identity(f, n),
        mat_wf(q, n, n),
        is_zero_mat(q),
        mat_wf(x, n, 1),
        mat_wf(p, n, n),
    ensures
        forall|i: int|
            0 <= i < n ==> feq(#[trigger] smat_mul(f, x, n, 1)[i][0], x[i][0]),
        forall|i: int, j: int|
            0 <= i < n && 0 <= j < n ==> feq(
                #[trigger] smat_add(
                    smat_mul(smat_mul(f, p, n, n), smat_transpose(f, n, n), n, n),
                    q,
                    n,
                    n,
                )[i][j],
                p[i][j],
            ),
{
    lemma_predict_identity_state(f, x, n);
    lemma_predict_identity_covariance(f, p, n);
    assert forall|i: int| 0 <= i < n implies feq(
        #[trigger] smat_mul(f, x, n, 1)[i][0],
        x[i][0],
    ) by {
        assert(smat_mul(f, x, n, 1)[i][0] == mul_entry(f, x, i, 0));
    }
    let g = smat_mul(f, p, n, n);
    let t = smat_transpose(f, n, n);
    let gt = smat_mul(g, t, n, n);
    assert(mat_wf(f, n, n));
    lemma_smat_mul_wf(f, p, n, n, n);
    assert forall|i: int, j: int| 0 <= i < n && 0 <= j < n implies feq(
        #[trigger] smat_add(gt, q, n, n)[i][j],
        p[i][j],
    ) by {
        assert(smat_add(gt, q, n, n)[i][j] == fadd(gt[i][j], q[i][j]));
        assert(gt[i][j] == mul_entry(g, t, i, j));
        lemma_dot_wf(g[i], t, j, n);
        lemma_wf_ops(gt[i][j], q[i][j]);
        lemma_fadd_zero(gt[i][j], q[i][j]);
        lemma_feq_trans(fadd(gt[i][j], q[i][j]), gt[i][j], p[i][j]);
    }
}

/// Updating with a measurement that denotes exactly the predicted state
/// applies no correction: the innovation denotes zero, so the corrected state
/// denotes the predicted state, whatever the gain matrix is.
pub proof fn lemma_update_zero_innovation(
    x_pred: Seq<Seq<Frac>>,
    k: Seq<Seq<Frac>>,
    z: Seq<Seq<Frac>>,
    n: nat,
)
    requires
        mat_wf(x_pred, n, 1),
        mat_wf(z, n, 1),
        mat_wf(k, n, n),
        forall|t: int| 0 <= t < n ==> feq((#[trigger] z[t])[0], x_pred[t][0]),
    ensures
        forall|i: int|
            0 <= i < n ==> feq(
                #[trigger] smat_add(
                    x_pred,
                    smat_mul(k, smat_sub(z, x_pred, n, 1), n, 1),
                    n,
                    1,
                )[i][0],
                x_pred[i][0],
            ),
{
    let y = smat_sub(z, x_pred, n, 1);
    assert forall|t: int| 0 <= t < n implies feq((#[trigger] y[t])[0], fzero()) && frac_wf(
        y[t][0],
    ) by {
        assert(y[t][0] == crate::rational::fsub(z[t][0], x_pred[t][0]));
        lemma_fsub_self(z[t][0], x_pred[t][0]);
        lemma_wf_ops(z[t][0], x_pred[t][0]);
    }
    assert forall|i: int| 0 <= i < n implies feq(
        #[trigger] smat_add(x_pred, smat_mul(k, y, n, 1), n, 1)[i][0],
        x_pred[i][0],
    ) by {
        assert(smat_add(x_pred, smat_mul(k, y, n, 1), n, 1)[i][0] == fadd(
            x_pred[i][0],
            smat_mul(k, y, n, 1)[i][0],
        ));
        assert(smat_mul(k, y, n, 1)[i][0] == mul_entry(k, y, i, 0));
        lemma_dot_zero_col(k[i], y, 0, n);
        lemma_dot_wf(k[i], y, 0, n);
        let me = mul_entry(k, y, i, 0);
        lemma_fadd_zero(x_pred[i][0], me);
    }
}

/// An all-zero-valued square matrix of positive dimension has no left
/// inverse: multiplying anything by it denotes zero everywhere, never the
/// identity.
pub proof fn lemma_zero_not_invertible(s: Seq<Seq<Frac>>, n: nat)
    requires
        mat_wf(s, n, n),
        n > 0,
        is_zero_mat(s),
    ensures
        forall|m: Seq<Seq<Frac>>| !left_inverse(m, s),
{
    assert forall|m: Seq<Seq<Frac>>| !left_inverse(m, s) by {
        if left_inverse(m, s) {
            lemma_dot_zero_col(m[0], s, 0, n);
            lemma_dot_wf(m[0], s, 0, n);
            let d = mul_entry(m, s, 0, 0);
            assert(d == dot(m[0], s, 0, n));
            assert(feq(d, ident_entry(0, 0)));
            assert(feq(d, fzero()));
            lemma_feq_sym(d, fone());
            lemma_feq_trans(fone(), d, fzero());
            assert(false);
        }
    }
}

/// With a zero-valued predicted covariance and zero-valued measurement noise,
/// the innovation covariance `P_pred + R` denotes zero everywhere and so has
/// no inverse at all: the update step is owed a
/// `SingularInnovationCovariance` there.
pub proof fn lemma_update_singular(p_pred: Seq<Seq<Frac>>, r: Seq<Seq<Frac>>, n: nat)
    requires
        mat_wf(p_pred, n, n),
        mat_wf(r, n, n),
        is_zero_mat(p_pred),
        is_zero_mat(r),
        n > 0,
    ensures
        forall|m: Seq<Seq<Frac>>| !left_inverse(m, smat_add(p_pred, r, n, n)),
{
    let s = smat_add(p_pred, r, n, n);
    lemma_smat_add_wf(p_pred, r, n, n);
    assert forall|i: int, j: int| 0 <= i < s.len() && 0 <= j < s[i].len() implies feq(
        #[trigger] s[i][j],
        fzero(),
    ) by {
        assert(s[i][j] == fadd(p_pred[i][j], r[i][j]));
        lemma_fadd_zero(p_pred[i][j], r[i][j]);
        lemma_feq_trans(s[i][j], p_pred[i][j], fzero());
    }
    lemma_zero_not_invertible(s, n);
}

} // verus!
