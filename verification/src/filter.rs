use vstd::prelude::*;
use crate::matrix::Matrix;
use crate::matrix::mat_wf;
use crate::matrix::left_inverse;
use crate::matrix::smat_mul;
use crate::matrix::smat_add;
use crate::matrix::smat_sub;
use crate::matrix::smat_transpose;
use crate::matrix::kernel_vector;

verus! {

/// Why a filter operation was refused.
#[derive(Clone, Copy, Debug, PartialEq, Eq, Structural)]
pub enum KalmanError {
    /// A matrix or vector argument does not match the filter's dimension, or
    /// the three model matrices disagree with each other.
    DimensionMismatch,
    /// The innovation covariance `P_pred + R` could not be inverted.
    SingularInnovationCovariance,
}

/// A discrete-time linear Kalman filter over exact rationals, with the
/// identity observation model: the transition matrix `F`, the process-noise
/// covariance `Q` and the measurement-noise covariance `R` are fixed `n`-by-`n`
/// matrices, and measurements observe the full state directly.
pub struct KalmanFilter {
    n: usize,
    f: Matrix,
    q: Matrix,
    r: Matrix,
}

impl KalmanFilter {
    pub closed spec fn dim_spec(self) -> nat {
        self.n as nat
    }

    pub closed spec fn f_spec(self) -> Seq<Seq<crate::rational::Frac>> {
        self.f@
    }

    pub closed spec fn q_spec(self) -> Seq<Seq<crate::rational::Frac>> {
        self.q@
    }

    pub closed spec fn r_spec(self) -> Seq<Seq<crate::rational::Frac>> {
        self.r@
    }

    pub closed spec fn wf(self) -> bool {
        &&& self.f.wf()
        &&& self.f.rows_spec() == self.dim_spec()
        &&& self.f.cols_spec() == self.dim_spec()
        &&& self.q.wf()
        &&& self.q.rows_spec() == self.dim_spec()
        &&& self.q.cols_spec() == self.dim_spec()
        &&& self.r.wf()
        &&& self.r.rows_spec() == self.dim_spec()
        &&& self.r.cols_spec() == self.dim_spec()
    }

    /// Whether `(x, p)` is an estimate pair of this filter's dimension:
    /// an `n`-vector and an `n`-by-`n` matrix.
    pub open spec fn conforming(self, x: Matrix, p: Matrix) -> bool {
        &&& x.rows_spec() == self.dim_spec()
        &&& x.cols_spec() == 1
        &&& p.rows_spec() == self.dim_spec()
        &&& p.cols_spec() == self.dim_spec()
    }

    /// Builds a filter from its three model matrices; rejected with
    /// `DimensionMismatch` exactly when they are not all square of one size.
    pub fn new(f: Matrix, q: Matrix, r: Matrix) -> (res: Result<KalmanFilter, KalmanError>)
        requires
            f.wf(),
            q.wf(),
            r.wf(),
        ensures
            (res is Ok) <==> {
                &&& f.rows_spec() == f.cols_spec()
                &&& q.rows_spec() == f.rows_spec()
                &&& q.cols_spec() == f.rows_spec()
                &&& r.rows_spec() == f.rows_spec()
                &&& r.cols_spec() == f.rows_spec()
            },
            res matches Ok(k) ==> {
                &&& k.wf()
                &&& k.dim_spec() == f.rows_spec()
                &&& k.f_spec() == f@
                &&& k.q_spec() == q@
                &&& k.r_spec() == r@
            },
            res matches Err(e) ==> e == KalmanError::DimensionMismatch,
    {
        let n = f.rows();
        if f.cols() != n || q.rows() != n || q.cols() != n || r.rows() != n || r.cols() != n {
            return Err(KalmanError::DimensionMismatch);
        }
        Ok(KalmanFilter { n, f, q, r })
    }

    /// The filter's state dimension `n`.
    pub fn dim(&self) -> (r: usize)
        ensures
            r == self.dim_spec(),
    {
        self.n
    }

    /// The time update: propagates an estimate pair one step through the
    /// dynamics model,
    /// `x_pred = F * x` and `P_pred = F * P * transpose(F) + Q`,
    /// leaving the inputs untouched. Rejected with `DimensionMismatch` exactly
    /// when `(x, p)` is not an estimate pair of the filter's dimension.
    pub fn predict(&self, x: &Matrix, p: &Matrix) -> (res: Result<
        (Matrix, Matrix),
        KalmanError,
    >)
        requires
            self.wf(),
            x.wf(),
            p.wf(),
        ensures
            (res is Ok) <==> self.conforming(*x, *p),
            res matches Ok(pair) ==> {
                &&& pair.0.wf()
                &&& pair.0.rows_spec() == self.dim_spec()
                &&& pair.0.cols_spec() == 1
                &&& pair.1.wf()
                &&& pair.1.rows_spec() == self.dim_spec()
                &&& pair.1.cols_spec() == self.dim_spec()
                &&& pair.0@ == smat_mul(self.f_spec(), x@, self.dim_spec(), 1)
                &&& pair.1@ == smat_add(
                    smat_mul(
                        smat_mul(self.f_spec(), p@, self.dim_spec(), self.dim_spec()),
                        smat_transpose(self.f_spec(), self.dim_spec(), self.dim_spec()),
                        self.dim_spec(),
                        self.dim_spec(),
                    ),
                    self.q_spec(),
                    self.dim_spec(),
                    self.dim_spec(),
                )
            },
            res matches Err(e) ==> e == KalmanError::DimensionMismatch,
    {
        let n = self.n;
        if x.rows() != n || x.cols() != 1 || p.rows() != n || p.cols() != n {
            return Err(KalmanError::DimensionMismatch);
        }
        let ghost nn = self.dim_spec();
        let x_pred = self.f.mul(x);
        let fp = self.f.mul(p);
        let ft = self.f.transpose();
        let fpft = fp.mul(&ft);
        let p_pred = fpft.add(&self.q);
        proof {
            assert(x_pred@ =~~= smat_mul(self.f_spec(), x@, nn, 1));
            assert(fp@ =~~= smat_mul(self.f_spec(), p@, nn, nn));
            assert(ft@ =~~= smat_transpose(self.f_spec(), nn, nn));
            assert(fpft@ =~~= smat_mul(
                smat_mul(self.f_spec(), p@, nn, nn),
                smat_transpose(self.f_spec(), nn, nn),
                nn,
                nn,
            ));
            assert(p_pred@ =~~= smat_add(
                smat_mul(
                    smat_mul(self.f_spec(), p@, nn, nn),
                    smat_transpose(self.f_spec(), nn, nn),
                    nn,
                    nn,
                ),
                self.q_spec(),
                nn,
                nn,
            ));
        }
        Ok((x_pred, p_pred))
    }

    /// The corrected pair `(x_new, p_new)` follows the update formulas with
    /// `m` as a left inverse of the innovation covariance `P_pred + R`:
    /// `x_new = x_pred + (P_pred * m) * (z - x_pred)` and
    /// `p_new = (P_pred * m) * P_pred`.
    pub open spec fn update_result(
        self,
        x_pred: Matrix,
        p_pred: Matrix,
        z: Matrix,
        m: Seq<Seq<crate::rational::Frac>>,
        x_new: Matrix,
        p_new: Matrix,
    ) -> bool {
        &&& left_inverse(
            m,
            smat_add(p_pred@, self.r_spec(), self.dim_spec(), self.dim_spec()),
        )
        &&& x_new@ == smat_add(
            x_pred@,
            smat_mul(
                smat_mul(p_pred@, m, self.dim_spec(), self.dim_spec()),
                smat_sub(z@, x_pred@, self.dim_spec(), 1),
                self.dim_spec(),
                1,
            ),
            self.dim_spec(),
            1,
        )
        &&& p_new@ == smat_mul(
            smat_mul(p_pred@, m, self.dim_spec(), self.dim_spec()),
            p_pred@,
            self.dim_spec(),
            self.dim_spec(),
        )
    }

    /// The measurement update: corrects a predicted estimate pair with the
    /// observed `z`,
    /// `y = z - x_pred`, `S = P_pred + R`, `K = P_pred * inverse(S)`,
    /// `x_new = x_pred + K * y` and `P_new = K * P_pred`,
    /// leaving the inputs untouched. Rejected with `DimensionMismatch` exactly
    /// when the arguments do not match the filter's dimension, and with
    /// `SingularInnovationCovariance` exactly when `S` has no left inverse;
    /// on success the inverse used is a witness `m` with `m * S` denoting the
    /// identity.
    pub fn update(&self, x_pred: &Matrix, p_pred: &Matrix, z: &Matrix) -> (res: Result<
        (Matrix, Matrix),
        KalmanError,
    >)
        requires
            self.wf(),
            x_pred.wf(),
            p_pred.wf(),
            z.wf(),
        ensures
            (res matches Err(e) && e == KalmanError::DimensionMismatch) <==> !(self.conforming(
                *x_pred,
                *p_pred,
            ) && z.rows_spec() == self.dim_spec() && z.cols_spec() == 1),
            res matches Err(e) && e == KalmanError::SingularInnovationCovariance ==> {
                &&& forall|m: Seq<Seq<crate::rational::Frac>>|
                    !left_inverse(
                        m,
                        smat_add(p_pred@, self.r_spec(), self.dim_spec(), self.dim_spec()),
                    )
                &&& exists|v: Seq<Seq<crate::rational::Frac>>|
                    #[trigger] kernel_vector(
                        v,
                        smat_add(p_pred@, self.r_spec(), self.dim_spec(), self.dim_spec()),
                    )
            },
            (self.conforming(*x_pred, *p_pred) && z.rows_spec() == self.dim_spec()
                && z.cols_spec() == 1 && (forall|m: Seq<Seq<crate::rational::Frac>>|
                !left_inverse(
                    m,
                    smat_add(p_pred@, self.r_spec(), self.dim_spec(), self.dim_spec()),
                ))) ==> (res matches Err(e) && e == KalmanError::SingularInnovationCovariance),
            res matches Ok(pair) ==> {
                &&& pair.0.wf()
                &&& pair.0.rows_spec() == self.dim_spec()
                &&& pair.0.cols_spec() == 1
                &&& pair.1.wf()
                &&& pair.1.rows_spec() == self.dim_spec()
                &&& pair.1.cols_spec() == self.dim_spec()
                &&& exists|m: Seq<Seq<crate::rational::Frac>>|
                    #[trigger] self.update_result(*x_pred, *p_pred, *z, m, pair.0, pair.1)
            },
    {
        let n = self.n;
        if x_pred.rows() != n || x_pred.cols() != 1 || p_pred.rows() != n || p_pred.cols() != n
            || z.rows() != n || z.cols() != 1 {
            return Err(KalmanError::DimensionMismatch);
        }
        let ghost nn = self.dim_spec();
        let y = z.sub(x_pred);
        let s = p_pred.add(&self.r);
        proof {
            assert(s@ =~~= smat_add(p_pred@, self.r_spec(), nn, nn));
        }
        let s_inv = match crate::matrix::invert(&s) {
            Some(m) => m,
            None => {
                proof {
                    let sm = smat_add(p_pred@, self.r_spec(), nn, nn);
                    assert(s@ == sm);
                    let v0 = choose|v: Seq<Seq<crate::rational::Frac>>|
                        #[trigger] kernel_vector(v, s@);
                    assert(kernel_vector(v0, sm));
                }
                return Err(KalmanError::SingularInnovationCovariance);
            },
        };
        let k = p_pred.mul(&s_inv);
        let ky = k.mul(&y);
        let x_new = x_pred.add(&ky);
        let p_new = k.mul(p_pred);
        proof {
            assert(y@ =~~= smat_sub(z@, x_pred@, nn, 1));
            assert(k@ =~~= smat_mul(p_pred@, s_inv@, nn, nn));
            assert(ky@ =~~= smat_mul(
                smat_mul(p_pred@, s_inv@, nn, nn),
                smat_sub(z@, x_pred@, nn, 1),
                nn,
                1,
            ));
            assert(x_new@ =~~= smat_add(
                x_pred@,
                smat_mul(
                    smat_mul(p_pred@, s_inv@, nn, nn),
                    smat_sub(z@, x_pred@, nn, 1),
                    nn,
                    1,
                ),
                nn,
                1,
            ));
            assert(p_new@ =~~= smat_mul(smat_mul(p_pred@, s_inv@, nn, nn), p_pred@, nn, nn));
            assert(left_inverse(s_inv@, smat_add(p_pred@, self.r_spec(), nn, nn)));
            assert(self.update_result(*x_pred, *p_pred, *z, s_inv@, x_new, p_new));
        }
        Ok((x_new, p_new))
    }
}

} // verus!
