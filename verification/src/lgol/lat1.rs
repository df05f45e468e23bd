use vstd::prelude::*;

verus! {

/// A point or vector of space-time, `(x, y, t)`, or of lattice space, `(u, v, w)`.
pub type Vec3 = (isize, isize, isize);

/// `a . b`.
pub open spec fn dot3(a: Vec3, b: Vec3) -> int {
    a.0 * b.0 + a.1 * b.1 + a.2 * b.2
}

/// `a . b` computed left to right stays within `isize`.
pub open spec fn dot3_fits(a: Vec3, b: Vec3) -> bool {
    &&& isize::MIN <= a.0 * b.0 <= isize::MAX
    &&& isize::MIN <= a.1 * b.1 <= isize::MAX
    &&& isize::MIN <= a.2 * b.2 <= isize::MAX
    &&& isize::MIN <= a.0 * b.0 + a.1 * b.1 <= isize::MAX
    &&& isize::MIN <= a.0 * b.0 + a.1 * b.1 + a.2 * b.2 <= isize::MAX
}

/// `a . b`, computed as `a.0 * b.0 + a.1 * b.1 + a.2 * b.2`.
fn dot3_exec(a: Vec3, b: Vec3) -> (r: isize)
    requires
        dot3_fits(a, b),
    ensures
        r == dot3(a, b),
{
    a.0 * b.0 + a.1 * b.1 + a.2 * b.2
}

proof fn lemma_mul_lt_nonneg(a: int, b: int, m: int, n: int)
    requires
        0 <= a < m,
        0 <= b < n,
    ensures
        0 <= a * b < m * n,
{
    assert(0 <= a * b) by (nonlinear_arith)
        requires
            0 <= a,
            0 <= b,
    ;
    assert(a * b <= a * n) by (nonlinear_arith)
        requires
            0 <= a,
            b < n,
    ;
    assert(a * n < m * n) by (nonlinear_arith)
        requires
            a < m,
            0 < n,
    ;
}

/// A product of numbers below `m` and `n` in absolute value is below `m * n`.
pub proof fn lemma_mul_lt(a: int, b: int, m: int, n: int)
    requires
        0 < m,
        0 < n,
        -m < a < m,
        -n < b < n,
    ensures
        -(m * n) < a * b < m * n,
{
    let aa = if a < 0 { -a } else { a };
    let bb = if b < 0 { -b } else { b };
    lemma_mul_lt_nonneg(aa, bb, m, n);
    assert(a * b == aa * bb || a * b == -(aa * bb)) by (nonlinear_arith)
        requires
            aa == a || aa == -a,
            bb == b || bb == -b,
    ;
}

/// Dividing by a positive number stays between the number and zero.
proof fn lemma_div_in_range(a: int, d: int)
    requires
        d >= 1,
    ensures
        a >= 0 ==> 0 <= a / d <= a,
        a < 0 ==> a <= a / d < 0,
{
    vstd::arithmetic::div_mod::lemma_fundamental_div_mod(a, d);
    if a >= 0 {
        vstd::arithmetic::div_mod::lemma_div_pos_is_pos(a, d);
        vstd::arithmetic::div_mod::lemma_div_is_ordered_by_denominator(a, 1, d);
    } else {
        assert(a / d < 0 && a <= a / d) by (nonlinear_arith)
            requires
                d >= 1,
                a < 0,
                a == d * (a / d) + a % d,
                0 <= a % d < d,
        ;
    }
}

/// The determinant of the matrix with rows `u`, `v`, `w`.
pub open spec fn det3(u: Vec3, v: Vec3, w: Vec3) -> int {
    u.0 * (v.1 * w.2 - w.1 * v.2) - u.1 * (v.0 * w.2 - w.0 * v.2) + u.2 * (v.0 * w.1 - w.0 * v.1)
}

/// Every component of `v` is below 64 in absolute value, which keeps the lattice arithmetic
/// within a 32-bit `isize`.
pub open spec fn small_vec(v: Vec3) -> bool {
    -64 < v.0 < 64 && -64 < v.1 < 64 && -64 < v.2 < 64
}

/// Every component of `p` is below 512 in absolute value.
pub open spec fn small_point(p: Vec3) -> bool {
    -512 < p.0 < 512 && -512 < p.1 < 512 && -512 < p.2 < 512
}

/// A lattice of space-time given by three generating vectors `u`, `v`, `w`, with the inverse
/// transform (the adjugate, scaled by the sign of the determinant) to go back.
pub struct LGolLat1 {
    pub mx: isize,
    pub my: isize,
    pub mt: isize,
    pub u_to_xyt: Vec3,
    pub v_to_xyt: Vec3,
    pub w_to_xyt: Vec3,
    pub det: isize,
    pub adet: isize,
    pub sdet: isize,
    pub x_to_uvw: Vec3,
    pub y_to_uvw: Vec3,
    pub t_to_uvw: Vec3,
}

impl LGolLat1 {
    pub open spec fn u(&self) -> Vec3 {
        self.u_to_xyt
    }

    pub open spec fn v(&self) -> Vec3 {
        self.v_to_xyt
    }

    pub open spec fn w(&self) -> Vec3 {
        self.w_to_xyt
    }

    /// The sign of the determinant.
    pub open spec fn sign(&self) -> int {
        self.sdet as int
    }

    /// The absolute value of the determinant: how many points one cell of the lattice holds.
    pub open spec fn scale(&self) -> int {
        self.adet as int
    }

    /// The columns of the inverse transform, in `x`, `y`, `t` order.
    pub open spec fn inv(&self) -> (Vec3, Vec3, Vec3) {
        (self.x_to_uvw, self.y_to_uvw, self.t_to_uvw)
    }

    /// The generating vectors are independent, `det` is their determinant, `adet` its absolute
    /// value and `sdet` its sign, and the inverse columns are the adjugate's.
    pub open spec fn wf(&self) -> bool {
        let (u, v, w) = (self.u_to_xyt, self.v_to_xyt, self.w_to_xyt);
        let (xc, yc, tc) = (self.x_to_uvw, self.y_to_uvw, self.t_to_uvw);
        &&& self.det == det3(u, v, w)
        &&& self.det != 0
        &&& self.sdet == (if self.det < 0 { -1int } else { 1int })
        &&& self.adet == self.det * self.sdet
        &&& xc == ((v.1 * w.2 - w.1 * v.2) as isize, (w.1 * u.2 - u.1 * w.2) as isize, (u.1 * v.2 - v.1 * u.2) as isize)
        &&& yc == ((w.0 * v.2 - v.0 * w.2) as isize, (u.0 * w.2 - w.0 * u.2) as isize, (v.0 * u.2 - u.0 * v.2) as isize)
        &&& tc == ((v.0 * w.1 - w.0 * v.1) as isize, (w.0 * u.1 - u.0 * w.1) as isize, (u.0 * v.1 - v.0 * u.1) as isize)
        &&& small_vec(u) && small_vec(v) && small_vec(w)
    }

    /// The sign is 1 or -1 and `adet` is positive.
    pub proof fn lemma_sign(&self)
        requires
            self.wf(),
        ensures
            self.sign() == 1 || self.sign() == -1,
            self.scale() > 0,
            self.sdet == self.sign(),
            self.adet == self.scale(),
    {
        if self.det < 0 {
            assert(self.det * -1 > 0) by (nonlinear_arith)
                requires
                    self.det < 0,
            ;
        } else {
            assert(self.det * 1 > 0) by (nonlinear_arith)
                requires
                    self.det > 0,
            ;
        }
    }


    /// The lattice generated by `vu`, `vv`, `vw`, whose canonical (triangular) basis has diagonal
    /// `dims = (mx, my, mt)`.  The generators must be independent, and the diagonal's product
    /// must be the determinant's absolute value.
    pub fn new(vu: Vec3, vv: Vec3, vw: Vec3, dims: Vec3) -> (r: LGolLat1)
        requires
            small_vec(vu),
            small_vec(vv),
            small_vec(vw),
            det3(vu, vv, vw) != 0,
            (if det3(vu, vv, vw) < 0 {
                -det3(vu, vv, vw)
            } else {
                det3(vu, vv, vw)
            }) == dims.0 * dims.1 * dims.2,
        ensures
            r.wf(),
            r.u() == vu,
            r.v() == vv,
            r.w() == vw,
            (r.mx, r.my, r.mt) == dims,
            r.det == det3(vu, vv, vw),
    {
        let (ux, uy, ut) = vu;
        let (vx, vy, vt) = vv;
        let (wx, wy, wt) = vw;
        proof {
            lemma_mul_lt(vy as int, wt as int, 64, 64);
            lemma_mul_lt(wy as int, vt as int, 64, 64);
            lemma_mul_lt(vx as int, wt as int, 64, 64);
            lemma_mul_lt(wx as int, vt as int, 64, 64);
            lemma_mul_lt(vx as int, wy as int, 64, 64);
            lemma_mul_lt(wx as int, vy as int, 64, 64);
            lemma_mul_lt(uy as int, wt as int, 64, 64);
            lemma_mul_lt(wy as int, ut as int, 64, 64);
            lemma_mul_lt(ux as int, wt as int, 64, 64);
            lemma_mul_lt(wx as int, ut as int, 64, 64);
            lemma_mul_lt(ux as int, wy as int, 64, 64);
            lemma_mul_lt(wx as int, uy as int, 64, 64);
            lemma_mul_lt(uy as int, vt as int, 64, 64);
            lemma_mul_lt(vy as int, ut as int, 64, 64);
            lemma_mul_lt(ux as int, vt as int, 64, 64);
            lemma_mul_lt(vx as int, ut as int, 64, 64);
            lemma_mul_lt(ux as int, vy as int, 64, 64);
            lemma_mul_lt(vx as int, uy as int, 64, 64);
            lemma_mul_lt(ux as int, vy * wt - wy * vt, 64, 8192);
            lemma_mul_lt(uy as int, vx * wt - wx * vt, 64, 8192);
            lemma_mul_lt(ut as int, vx * wy - wx * vy, 64, 8192);
        }
        let det = ux * (vy * wt - wy * vt) - uy * (vx * wt - wx * vt) + ut * (vx * wy - wx * vy);
        let sdet: isize = if det < 0 {
            -1
        } else {
            1
        };
        let xc = (vy * wt - wy * vt, wy * ut - uy * wt, uy * vt - vy * ut);
        let yc = (wx * vt - vx * wt, ux * wt - wx * ut, vx * ut - ux * vt);
        let tc = (vx * wy - wx * vy, wx * uy - ux * wy, ux * vy - vx * uy);
        let r = LGolLat1 {
            mx: dims.0,
            my: dims.1,
            mt: dims.2,
            u_to_xyt: vu,
            v_to_xyt: vv,
            w_to_xyt: vw,
            det: det,
            adet: if det < 0 {
                -det
            } else {
                det
            },
            sdet: sdet,
            x_to_uvw: xc,
            y_to_uvw: yc,
            t_to_uvw: tc,
        };
        proof {
            if det < 0 {
                assert(det * -1 == -det);
            } else {
                assert(det * 1 == det);
            }
        }
        r
    }

    /// `(u, v, w)` (times `adet`) of point `p`.
    pub open spec fn spec_xyt_to_uvw(&self, p: Vec3) -> (int, int, int) {
        let (xc, yc, tc) = self.inv();
        (
            (p.0 * xc.0 + p.1 * yc.0 + p.2 * tc.0) * self.sign(),
            (p.0 * xc.1 + p.1 * yc.1 + p.2 * tc.1) * self.sign(),
            (p.0 * xc.2 + p.1 * yc.2 + p.2 * tc.2) * self.sign(),
        )
    }

    /// `adet` times the point at lattice coordinates `q`.
    pub open spec fn spec_uvw_scaled(&self, q: Vec3) -> (int, int, int) {
        let (u, v, w) = (self.u(), self.v(), self.w());
        (
            q.0 * u.0 + q.1 * v.0 + q.2 * w.0,
            q.0 * u.1 + q.1 * v.1 + q.2 * w.1,
            q.0 * u.2 + q.1 * v.2 + q.2 * w.2,
        )
    }

    /// Lattice coordinates of `p`, scaled by `adet` so that they are integers.
    pub fn xyt_to_uvw(&self, p: Vec3) -> (r: Vec3)
        requires
            self.wf(),
            dot3_fits((p.0, p.1, p.2), (self.inv().0.0, self.inv().1.0, self.inv().2.0)),
            dot3_fits((p.0, p.1, p.2), (self.inv().0.1, self.inv().1.1, self.inv().2.1)),
            dot3_fits((p.0, p.1, p.2), (self.inv().0.2, self.inv().1.2, self.inv().2.2)),
            isize::MIN < p.0 * self.inv().0.0 + p.1 * self.inv().1.0 + p.2 * self.inv().2.0,
            isize::MIN < p.0 * self.inv().0.1 + p.1 * self.inv().1.1 + p.2 * self.inv().2.1,
            isize::MIN < p.0 * self.inv().0.2 + p.1 * self.inv().1.2 + p.2 * self.inv().2.2,
        ensures
            (r.0 as int, r.1 as int, r.2 as int) == self.spec_xyt_to_uvw(p),
    {
        let (x, y, t) = p;
        let (xu, xv, xw) = self.x_to_uvw;
        let (yu, yv, yw) = self.y_to_uvw;
        let (tu, tv, tw) = self.t_to_uvw;
        let u = dot3_exec((x, y, t), (xu, yu, tu));
        let v = dot3_exec((x, y, t), (xv, yv, tv));
        let w = dot3_exec((x, y, t), (xw, yw, tw));
        proof {
            self.lemma_sign();
        }
        if self.sdet < 0 {
            assert(self.sign() == -1);
            assert((u as int) * self.sign() == -u) by (nonlinear_arith)
                requires self.sign() == -1;
            assert((v as int) * self.sign() == -v) by (nonlinear_arith)
                requires self.sign() == -1;
            assert((w as int) * self.sign() == -w) by (nonlinear_arith)
                requires self.sign() == -1;
            (-u, -v, -w)
        } else {
            assert(self.sign() == 1);
            assert((u as int) * self.sign() == u) by (nonlinear_arith)
                requires self.sign() == 1;
            assert((v as int) * self.sign() == v) by (nonlinear_arith)
                requires self.sign() == 1;
            assert((w as int) * self.sign() == w) by (nonlinear_arith)
                requires self.sign() == 1;
            (u, v, w)
        }
    }

    /// The point at lattice coordinates `q` (scaled by `adet`); `q` must land on a point.
    pub fn uvw_to_xyt(&self, q: Vec3) -> (r: Vec3)
        requires
            self.wf(),
            dot3_fits(q, (self.u().0, self.v().0, self.w().0)),
            dot3_fits(q, (self.u().1, self.v().1, self.w().1)),
            dot3_fits(q, (self.u().2, self.v().2, self.w().2)),
            self.spec_uvw_scaled(q).0 % self.scale() == 0,
            self.spec_uvw_scaled(q).1 % self.scale() == 0,
            self.spec_uvw_scaled(q).2 % self.scale() == 0,
        ensures
            r.0 * self.scale() == self.spec_uvw_scaled(q).0,
            r.1 * self.scale() == self.spec_uvw_scaled(q).1,
            r.2 * self.scale() == self.spec_uvw_scaled(q).2,
    {
        let (u, v, w) = q;
        let (ux, uy, ut) = self.u_to_xyt;
        let (vx, vy, vt) = self.v_to_xyt;
        let (wx, wy, wt) = self.w_to_xyt;
        let x = dot3_exec((u, v, w), (ux, vx, wx));
        let y = dot3_exec((u, v, w), (uy, vy, wy));
        let t = dot3_exec((u, v, w), (ut, vt, wt));
        proof {
            self.lemma_sign();
            vstd::arithmetic::div_mod::lemma_fundamental_div_mod(x as int, self.adet as int);
            vstd::arithmetic::div_mod::lemma_fundamental_div_mod(y as int, self.adet as int);
            vstd::arithmetic::div_mod::lemma_fundamental_div_mod(t as int, self.adet as int);
        }
        proof {
            lemma_div_in_range(x as int, self.adet as int);
            lemma_div_in_range(y as int, self.adet as int);
            lemma_div_in_range(t as int, self.adet as int);
        }
        let rx = x.checked_div_euclid(self.adet).unwrap();
        let ry = y.checked_div_euclid(self.adet).unwrap();
        let rt = t.checked_div_euclid(self.adet).unwrap();
        proof {
            assert(rx * self.adet == x) by (nonlinear_arith)
                requires
                    self.adet > 0,
                    (x as int) % (self.adet as int) == 0,
                    x as int == self.adet * ((x as int) / (self.adet as int)) + (x as int) % (self.adet as int),
                    rx == (x as int) / (self.adet as int),
            ;
            assert(ry * self.adet == y) by (nonlinear_arith)
                requires
                    self.adet > 0,
                    (y as int) % (self.adet as int) == 0,
                    y as int == self.adet * ((y as int) / (self.adet as int)) + (y as int) % (self.adet as int),
                    ry == (y as int) / (self.adet as int),
            ;
            assert(rt * self.adet == t) by (nonlinear_arith)
                requires
                    self.adet > 0,
                    (t as int) % (self.adet as int) == 0,
                    t as int == self.adet * ((t as int) / (self.adet as int)) + (t as int) % (self.adet as int),
                    rt == (t as int) / (self.adet as int),
            ;
        }
        (rx, ry, rt)
    }
}

proof fn lemma_expand_term(a: int, b0: int, b1: int, c0: int, c1: int)
    ensures
        a * (b0 * b1 - c0 * c1) == a * b0 * b1 - a * c0 * c1,
{
    vstd::arithmetic::mul::lemma_mul_is_distributive_sub(a, b0 * b1, c0 * c1);
    vstd::arithmetic::mul::lemma_mul_is_associative(a, b0, b1);
    vstd::arithmetic::mul::lemma_mul_is_associative(a, c0, c1);
}

proof fn lemma_expand_det(u0: int, u1: int, u2: int, v0: int, v1: int, v2: int, w0: int, w1: int, w2: int)
    ensures
        u0 * (v1 * w2 - w1 * v2) - u1 * (v0 * w2 - w0 * v2) + u2 * (v0 * w1 - w0 * v1) == u0 * v1 * w2 - u0 * w1 * v2 - u1 * v0 * w2
            + u1 * w0 * v2 + u2 * v0 * w1 - u2 * w0 * v1,
{
    lemma_expand_term(u0, v1, w2, w1, v2);
    lemma_expand_term(u1, v0, w2, w0, v2);
    lemma_expand_term(u2, v0, w1, w0, v1);
}

proof fn lemma_expand_cof(a0: int, a1: int, b0: int, b1: int, c: int)
    ensures
        (a0 * a1 - b0 * b1) * c == a0 * a1 * c - b0 * b1 * c,
{
    vstd::arithmetic::mul::lemma_mul_is_distributive_sub_other_way(c, a0 * a1, b0 * b1);
}

proof fn lemma_cofactor_det(u0: int, u1: int, u2: int, v0: int, v1: int, v2: int, w0: int, w1: int, w2: int)
    ensures
        (v1 * w2 - w1 * v2) * u0 + (w1 * u2 - u1 * w2) * v0 + (u1 * v2 - v1 * u2) * w0 == u0 * (v1 * w2 - w1 * v2) - u1 * (v0 * w2
            - w0 * v2) + u2 * (v0 * w1 - w0 * v1),
        (w0 * v2 - v0 * w2) * u1 + (u0 * w2 - w0 * u2) * v1 + (v0 * u2 - u0 * v2) * w1 == u0 * (v1 * w2 - w1 * v2) - u1 * (v0 * w2
            - w0 * v2) + u2 * (v0 * w1 - w0 * v1),
        (v0 * w1 - w0 * v1) * u2 + (w0 * u1 - u0 * w1) * v2 + (u0 * v1 - v0 * u1) * w2 == u0 * (v1 * w2 - w1 * v2) - u1 * (v0 * w2
            - w0 * v2) + u2 * (v0 * w1 - w0 * v1),
{
    lemma_expand_det(u0, u1, u2, v0, v1, v2, w0, w1, w2);
    lemma_expand_cof(v1, w2, w1, v2, u0);
    lemma_expand_cof(w1, u2, u1, w2, v0);
    lemma_expand_cof(u1, v2, v1, u2, w0);
    lemma_expand_cof(w0, v2, v0, w2, u1);
    lemma_expand_cof(u0, w2, w0, u2, v1);
    lemma_expand_cof(v0, u2, u0, v2, w1);
    lemma_expand_cof(v0, w1, w0, v1, u2);
    lemma_expand_cof(w0, u1, u0, w1, v2);
    lemma_expand_cof(u0, v1, v0, u1, w2);
    lemma_mul3_comm(v1, w2, u0, u0, v1, w2);
    lemma_mul3_comm(w1, v2, u0, u0, v2, w1);
    lemma_mul3_comm(w1, u2, v0, u2, v0, w1);
    lemma_mul3_comm(u1, w2, v0, u1, v0, w2);
    lemma_mul3_comm(u1, v2, w0, u1, v2, w0);
    lemma_mul3_comm(v1, u2, w0, u2, v1, w0);
    lemma_mul3_comm(w0, v2, u1, u1, v2, w0);
    lemma_mul3_comm(v0, w2, u1, u1, v0, w2);
    lemma_mul3_comm(u0, w2, v1, u0, v1, w2);
    lemma_mul3_comm(w0, u2, v1, u2, v1, w0);
    lemma_mul3_comm(v0, u2, w1, u2, v0, w1);
    lemma_mul3_comm(u0, v2, w1, u0, v2, w1);
    lemma_mul3_comm(v0, w1, u2, u2, v0, w1);
    lemma_mul3_comm(w0, v1, u2, u2, v1, w0);
    lemma_mul3_comm(w0, u1, v2, u1, v2, w0);
    lemma_mul3_comm(u0, w1, v2, u0, v2, w1);
    lemma_mul3_comm(u0, v1, w2, u0, v1, w2);
    lemma_mul3_comm(v0, u1, w2, u1, v0, w2);
}

proof fn lemma_mul3_comm(a: int, b: int, c: int, x: int, y: int, z: int)
    requires
        (x == a && y == b && z == c) || (x == a && y == c && z == b) || (x == b && y == a && z == c) || (x == b && y == c && z == a)
            || (x == c && y == a && z == b) || (x == c && y == b && z == a),
    ensures
        a * b * c == x * y * z,
{
    vstd::arithmetic::mul::lemma_mul_is_associative(a, b, c);
    vstd::arithmetic::mul::lemma_mul_is_commutative(a, b);
    vstd::arithmetic::mul::lemma_mul_is_commutative(b, c);
    vstd::arithmetic::mul::lemma_mul_is_commutative(a, c);
    vstd::arithmetic::mul::lemma_mul_is_commutative(a, b * c);
    vstd::arithmetic::mul::lemma_mul_is_commutative(a * b, c);
    vstd::arithmetic::mul::lemma_mul_is_associative(b, a, c);
    vstd::arithmetic::mul::lemma_mul_is_associative(a, c, b);
    vstd::arithmetic::mul::lemma_mul_is_associative(b, c, a);
    vstd::arithmetic::mul::lemma_mul_is_associative(c, a, b);
    vstd::arithmetic::mul::lemma_mul_is_associative(c, b, a);
}

proof fn lemma_mul_swap(a: int, s: int, e: int)
    ensures
        (a * s) * e == s * (a * e),
{
    vstd::arithmetic::mul::lemma_mul_is_commutative(a, s);
    vstd::arithmetic::mul::lemma_mul_is_associative(s, a, e);
}

proof fn lemma_mul3_distrib(s: int, a: int, b: int, c: int, e0: int, e1: int, e2: int)
    ensures
        (a * s) * e0 + (b * s) * e1 + (c * s) * e2 == s * (a * e0 + b * e1 + c * e2),
{
    lemma_mul_swap(a, s, e0);
    lemma_mul_swap(b, s, e1);
    lemma_mul_swap(c, s, e2);
    vstd::arithmetic::mul::lemma_mul_is_distributive_add(s, a * e0, b * e1 + c * e2);
    vstd::arithmetic::mul::lemma_mul_is_distributive_add(s, b * e1, c * e2);
}

proof fn lemma_sum3_distrib(p0: int, p1: int, p2: int, x0: int, y0: int, t0: int, e0: int)
    ensures
        (p0 * x0 + p1 * y0 + p2 * t0) * e0 == p0 * (x0 * e0) + p1 * (y0 * e0) + p2 * (t0 * e0),
{
    vstd::arithmetic::mul::lemma_mul_is_distributive_add_other_way(e0, p0 * x0 + p1 * y0, p2 * t0);
    vstd::arithmetic::mul::lemma_mul_is_distributive_add_other_way(e0, p0 * x0, p1 * y0);
    vstd::arithmetic::mul::lemma_mul_is_associative(p0, x0, e0);
    vstd::arithmetic::mul::lemma_mul_is_associative(p1, y0, e0);
    vstd::arithmetic::mul::lemma_mul_is_associative(p2, t0, e0);
}

proof fn lemma_dot_expand(s: int, p0: int, p1: int, p2: int, x: (int, int, int), y: (int, int, int), t: (int, int, int), e0: int, e1: int, e2: int)
    ensures
        ((p0 * x.0 + p1 * y.0 + p2 * t.0) * s) * e0 + ((p0 * x.1 + p1 * y.1 + p2 * t.1) * s) * e1 + ((p0 * x.2 + p1 * y.2 + p2 * t.2) * s) * e2
            == s * (p0 * (x.0 * e0 + x.1 * e1 + x.2 * e2) + p1 * (y.0 * e0 + y.1 * e1 + y.2 * e2) + p2 * (t.0 * e0 + t.1 * e1 + t.2 * e2)),
{
    lemma_mul3_distrib(s, p0 * x.0 + p1 * y.0 + p2 * t.0, p0 * x.1 + p1 * y.1 + p2 * t.1, p0 * x.2 + p1 * y.2 + p2 * t.2, e0, e1, e2);
    lemma_sum3_distrib(p0, p1, p2, x.0, y.0, t.0, e0);
    lemma_sum3_distrib(p0, p1, p2, x.1, y.1, t.1, e1);
    lemma_sum3_distrib(p0, p1, p2, x.2, y.2, t.2, e2);
    vstd::arithmetic::mul::lemma_mul_is_distributive_add(p0, x.0 * e0, x.1 * e1 + x.2 * e2);
    vstd::arithmetic::mul::lemma_mul_is_distributive_add(p0, x.1 * e1, x.2 * e2);
    vstd::arithmetic::mul::lemma_mul_is_distributive_add(p1, y.0 * e0, y.1 * e1 + y.2 * e2);
    vstd::arithmetic::mul::lemma_mul_is_distributive_add(p1, y.1 * e1, y.2 * e2);
    vstd::arithmetic::mul::lemma_mul_is_distributive_add(p2, t.0 * e0, t.1 * e1 + t.2 * e2);
    vstd::arithmetic::mul::lemma_mul_is_distributive_add(p2, t.1 * e1, t.2 * e2);
}

impl LGolLat1 {
    /// Every cofactor is below `8192` in absolute value, and `adet` below `1572864`.
    proof fn lemma_bounds(&self)
        requires
            self.wf(),
        ensures
            -8192 < self.x_to_uvw.0 < 8192 && -8192 < self.x_to_uvw.1 < 8192 && -8192 < self.x_to_uvw.2 < 8192,
            -8192 < self.y_to_uvw.0 < 8192 && -8192 < self.y_to_uvw.1 < 8192 && -8192 < self.y_to_uvw.2 < 8192,
            -8192 < self.t_to_uvw.0 < 8192 && -8192 < self.t_to_uvw.1 < 8192 && -8192 < self.t_to_uvw.2 < 8192,
            0 < self.adet < 1572864,
    {
        let (u, v, w) = (self.u_to_xyt, self.v_to_xyt, self.w_to_xyt);
        lemma_mul_lt(v.1 as int, w.2 as int, 64, 64);
        lemma_mul_lt(w.1 as int, v.2 as int, 64, 64);
        lemma_mul_lt(w.1 as int, u.2 as int, 64, 64);
        lemma_mul_lt(u.1 as int, w.2 as int, 64, 64);
        lemma_mul_lt(u.1 as int, v.2 as int, 64, 64);
        lemma_mul_lt(v.1 as int, u.2 as int, 64, 64);
        lemma_mul_lt(w.0 as int, v.2 as int, 64, 64);
        lemma_mul_lt(v.0 as int, w.2 as int, 64, 64);
        lemma_mul_lt(u.0 as int, w.2 as int, 64, 64);
        lemma_mul_lt(w.0 as int, u.2 as int, 64, 64);
        lemma_mul_lt(v.0 as int, u.2 as int, 64, 64);
        lemma_mul_lt(u.0 as int, v.2 as int, 64, 64);
        lemma_mul_lt(v.0 as int, w.1 as int, 64, 64);
        lemma_mul_lt(w.0 as int, v.1 as int, 64, 64);
        lemma_mul_lt(w.0 as int, u.1 as int, 64, 64);
        lemma_mul_lt(u.0 as int, w.1 as int, 64, 64);
        lemma_mul_lt(u.0 as int, v.1 as int, 64, 64);
        lemma_mul_lt(v.0 as int, u.1 as int, 64, 64);
        lemma_mul_lt(u.0 as int, v.1 * w.2 - w.1 * v.2, 64, 8192);
        lemma_mul_lt(u.1 as int, v.0 * w.2 - w.0 * v.2, 64, 8192);
        lemma_mul_lt(u.2 as int, v.0 * w.1 - w.0 * v.1, 64, 8192);
        self.lemma_sign();
        if self.sdet == 1 {
            assert(self.adet == self.det);
        } else {
            assert(self.adet == -self.det);
        }
    }

    /// Going to lattice coordinates and back gives a point back: the generators taken by the
    /// lattice coordinates `(a, b, c)` of `p` make `adet` times `p` (the generators times the
    /// adjugate is the determinant times the identity), so `uvw_to_xyt` of `xyt_to_uvw(p)` is `p`.
    pub proof fn lemma_roundtrip(&self, p: Vec3, a: int, b: int, c: int)
        requires
            self.wf(),
            (a, b, c) == self.spec_xyt_to_uvw(p),
        ensures
            a * self.u_to_xyt.0 + b * self.v_to_xyt.0 + c * self.w_to_xyt.0 == self.adet * p.0,
            a * self.u_to_xyt.1 + b * self.v_to_xyt.1 + c * self.w_to_xyt.1 == self.adet * p.1,
            a * self.u_to_xyt.2 + b * self.v_to_xyt.2 + c * self.w_to_xyt.2 == self.adet * p.2,
    {
        self.lemma_bounds();
        self.lemma_sign();
        let (u0, u1, u2) = (self.u_to_xyt.0 as int, self.u_to_xyt.1 as int, self.u_to_xyt.2 as int);
        let (v0, v1, v2) = (self.v_to_xyt.0 as int, self.v_to_xyt.1 as int, self.v_to_xyt.2 as int);
        let (w0, w1, w2) = (self.w_to_xyt.0 as int, self.w_to_xyt.1 as int, self.w_to_xyt.2 as int);
        let (xc, yc, tc) = self.inv();
        lemma_mul_lt(v1, w2, 64, 64);
        lemma_mul_lt(w1, v2, 64, 64);
        lemma_mul_lt(w1, u2, 64, 64);
        lemma_mul_lt(u1, w2, 64, 64);
        lemma_mul_lt(u1, v2, 64, 64);
        lemma_mul_lt(v1, u2, 64, 64);
        lemma_mul_lt(w0, v2, 64, 64);
        lemma_mul_lt(v0, w2, 64, 64);
        lemma_mul_lt(u0, w2, 64, 64);
        lemma_mul_lt(w0, u2, 64, 64);
        lemma_mul_lt(v0, u2, 64, 64);
        lemma_mul_lt(u0, v2, 64, 64);
        lemma_mul_lt(v0, w1, 64, 64);
        lemma_mul_lt(w0, v1, 64, 64);
        lemma_mul_lt(w0, u1, 64, 64);
        lemma_mul_lt(u0, w1, 64, 64);
        lemma_mul_lt(u0, v1, 64, 64);
        lemma_mul_lt(v0, u1, 64, 64);
        assert(xc.0 == v1 * w2 - w1 * v2 && xc.1 == w1 * u2 - u1 * w2 && xc.2 == u1 * v2 - v1 * u2);
        assert(yc.0 == w0 * v2 - v0 * w2 && yc.1 == u0 * w2 - w0 * u2 && yc.2 == v0 * u2 - u0 * v2);
        assert(tc.0 == v0 * w1 - w0 * v1 && tc.1 == w0 * u1 - u0 * w1 && tc.2 == u0 * v1 - v0 * u1);
        let d = self.det as int;
        let s = self.sdet as int;
        let (p0, p1, p2) = (p.0 as int, p.1 as int, p.2 as int);
        let (x0, x1, x2) = (v1 * w2 - w1 * v2, w1 * u2 - u1 * w2, u1 * v2 - v1 * u2);
        let (y0, y1, y2) = (w0 * v2 - v0 * w2, u0 * w2 - w0 * u2, v0 * u2 - u0 * v2);
        let (t0, t1, t2) = (v0 * w1 - w0 * v1, w0 * u1 - u0 * w1, u0 * v1 - v0 * u1);
        assert(d == u0 * (v1 * w2 - w1 * v2) - u1 * (v0 * w2 - w0 * v2) + u2 * (v0 * w1 - w0 * v1));
        lemma_cofactor_det(u0, u1, u2, v0, v1, v2, w0, w1, w2);
        assert((v1 * w2 - w1 * v2) * u1 + (w1 * u2 - u1 * w2) * v1 + (u1 * v2 - v1 * u2) * w1 == 0) by (nonlinear_arith);
        assert((v1 * w2 - w1 * v2) * u2 + (w1 * u2 - u1 * w2) * v2 + (u1 * v2 - v1 * u2) * w2 == 0) by (nonlinear_arith);
        assert((w0 * v2 - v0 * w2) * u0 + (u0 * w2 - w0 * u2) * v0 + (v0 * u2 - u0 * v2) * w0 == 0) by (nonlinear_arith);
        assert((w0 * v2 - v0 * w2) * u2 + (u0 * w2 - w0 * u2) * v2 + (v0 * u2 - u0 * v2) * w2 == 0) by (nonlinear_arith);
        assert((v0 * w1 - w0 * v1) * u0 + (w0 * u1 - u0 * w1) * v0 + (u0 * v1 - v0 * u1) * w0 == 0) by (nonlinear_arith);
        assert((v0 * w1 - w0 * v1) * u1 + (w0 * u1 - u0 * w1) * v1 + (u0 * v1 - v0 * u1) * w1 == 0) by (nonlinear_arith);
        assert(a == (p0 * x0 + p1 * y0 + p2 * t0) * s);
        assert(b == (p0 * x1 + p1 * y1 + p2 * t1) * s);
        assert(c == (p0 * x2 + p1 * y2 + p2 * t2) * s);
        assert(self.adet == d * s);
        lemma_dot_expand(s, p0, p1, p2, (x0, x1, x2), (y0, y1, y2), (t0, t1, t2), u0, v0, w0);
        lemma_dot_expand(s, p0, p1, p2, (x0, x1, x2), (y0, y1, y2), (t0, t1, t2), u1, v1, w1);
        lemma_dot_expand(s, p0, p1, p2, (x0, x1, x2), (y0, y1, y2), (t0, t1, t2), u2, v2, w2);
        assert(s * (p0 * d) == d * s * p0) by (nonlinear_arith);
        assert(s * (p1 * d) == d * s * p1) by (nonlinear_arith);
        assert(s * (p2 * d) == d * s * p2) by (nonlinear_arith);
    }
}

proof fn lemma_shift_dot(a: int, b: int, c: int, l: int, m: int, n: int, d: int, x: int, y: int, z: int)
    ensures
        (a - l * d) * x + (b - m * d) * y + (c - n * d) * z == (a * x + b * y + c * z) - d * (l * x + m * y + n * z),
{
    vstd::arithmetic::mul::lemma_mul_is_distributive_sub_other_way(x, a, l * d);
    vstd::arithmetic::mul::lemma_mul_is_distributive_sub_other_way(y, b, m * d);
    vstd::arithmetic::mul::lemma_mul_is_distributive_sub_other_way(z, c, n * d);
    lemma_mul3_comm(l, d, x, d, l, x);
    lemma_mul3_comm(m, d, y, d, m, y);
    lemma_mul3_comm(n, d, z, d, n, z);
    vstd::arithmetic::mul::lemma_mul_is_associative(d, l, x);
    vstd::arithmetic::mul::lemma_mul_is_associative(d, m, y);
    vstd::arithmetic::mul::lemma_mul_is_associative(d, n, z);
    vstd::arithmetic::mul::lemma_mul_is_distributive_add(d, l * x, m * y + n * z);
    vstd::arithmetic::mul::lemma_mul_is_distributive_add(d, m * y, n * z);
}

proof fn lemma_cancel(d: int, x: int, y: int)
    requires
        d > 0,
        x * d == d * y,
    ensures
        x == y,
{
    vstd::arithmetic::mul::lemma_mul_is_commutative(x, d);
    vstd::arithmetic::mul::lemma_mul_equality_converse(d, x, y);
}

impl LGolLat1 {
    /// Whether `xyt_to_uvw` can compute the lattice coordinates of `p` in `isize`.
    pub open spec fn uvw_fits(&self, p: Vec3) -> bool {
        &&& dot3_fits((p.0, p.1, p.2), (self.inv().0.0, self.inv().1.0, self.inv().2.0))
        &&& dot3_fits((p.0, p.1, p.2), (self.inv().0.1, self.inv().1.1, self.inv().2.1))
        &&& dot3_fits((p.0, p.1, p.2), (self.inv().0.2, self.inv().1.2, self.inv().2.2))
        &&& isize::MIN < p.0 * self.inv().0.0 + p.1 * self.inv().1.0 + p.2 * self.inv().2.0
        &&& isize::MIN < p.0 * self.inv().0.1 + p.1 * self.inv().1.1 + p.2 * self.inv().2.1
        &&& isize::MIN < p.0 * self.inv().0.2 + p.1 * self.inv().1.2 + p.2 * self.inv().2.2
    }

    /// Moves `p` into the fundamental cell of the lattice: its lattice coordinates (scaled by
    /// `adet`) are reduced into `[0, adet)`. Returns the point reached and how many whole cells
    /// were taken off along `u`, `v` and `w`.
    pub fn canonicalize_xyt(&self, p: Vec3) -> (r: (Vec3, Vec3))
        requires
            self.wf(),
            self.uvw_fits(p),
        ensures
            r.1.0 == self.spec_xyt_to_uvw(p).0 / self.scale(),
            r.1.1 == self.spec_xyt_to_uvw(p).1 / self.scale(),
            r.1.2 == self.spec_xyt_to_uvw(p).2 / self.scale(),
            r.0.0 == p.0 - (r.1.0 * self.u().0 + r.1.1 * self.v().0 + r.1.2 * self.w().0),
            r.0.1 == p.1 - (r.1.0 * self.u().1 + r.1.1 * self.v().1 + r.1.2 * self.w().1),
            r.0.2 == p.2 - (r.1.0 * self.u().2 + r.1.1 * self.v().2 + r.1.2 * self.w().2),
    {
        let (u, v, w) = self.xyt_to_uvw(p);
        proof {
            self.lemma_bounds();
            lemma_div_in_range(u as int, self.adet as int);
            lemma_div_in_range(v as int, self.adet as int);
            lemma_div_in_range(w as int, self.adet as int);
        }
        let d = self.adet;
        let lu = u.checked_div_euclid(d).unwrap();
        let lv = v.checked_div_euclid(d).unwrap();
        let lw = w.checked_div_euclid(d).unwrap();
        let ru = u.checked_rem_euclid(d).unwrap();
        let rv = v.checked_rem_euclid(d).unwrap();
        let rw = w.checked_rem_euclid(d).unwrap();
        proof {
            vstd::arithmetic::div_mod::lemma_fundamental_div_mod(u as int, d as int);
            vstd::arithmetic::div_mod::lemma_fundamental_div_mod(v as int, d as int);
            vstd::arithmetic::div_mod::lemma_fundamental_div_mod(w as int, d as int);
            vstd::arithmetic::mul::lemma_mul_is_commutative(d as int, lu as int);
            vstd::arithmetic::mul::lemma_mul_is_commutative(d as int, lv as int);
            vstd::arithmetic::mul::lemma_mul_is_commutative(d as int, lw as int);
            self.lemma_roundtrip(p, u as int, v as int, w as int);
            let (uu, vv, ww) = (self.u_to_xyt, self.v_to_xyt, self.w_to_xyt);
            lemma_shift_dot(u as int, v as int, w as int, lu as int, lv as int, lw as int, d as int, uu.0 as int, vv.0 as int, ww.0 as int);
            lemma_shift_dot(u as int, v as int, w as int, lu as int, lv as int, lw as int, d as int, uu.1 as int, vv.1 as int, ww.1 as int);
            lemma_shift_dot(u as int, v as int, w as int, lu as int, lv as int, lw as int, d as int, uu.2 as int, vv.2 as int, ww.2 as int);
            let k0 = p.0 - (lu * uu.0 + lv * vv.0 + lw * ww.0);
            let k1 = p.1 - (lu * uu.1 + lv * vv.1 + lw * ww.1);
            let k2 = p.2 - (lu * uu.2 + lv * vv.2 + lw * ww.2);
            vstd::arithmetic::mul::lemma_mul_is_distributive_sub(d as int, p.0 as int, lu * uu.0 + lv * vv.0 + lw * ww.0);
            vstd::arithmetic::mul::lemma_mul_is_distributive_sub(d as int, p.1 as int, lu * uu.1 + lv * vv.1 + lw * ww.1);
            vstd::arithmetic::mul::lemma_mul_is_distributive_sub(d as int, p.2 as int, lu * uu.2 + lv * vv.2 + lw * ww.2);
            assert(self.spec_uvw_scaled((ru, rv, rw)).0 == d * k0);
            assert(self.spec_uvw_scaled((ru, rv, rw)).1 == d * k1);
            assert(self.spec_uvw_scaled((ru, rv, rw)).2 == d * k2);
            vstd::arithmetic::mul::lemma_mul_is_commutative(d as int, k0);
            vstd::arithmetic::mul::lemma_mul_is_commutative(d as int, k1);
            vstd::arithmetic::mul::lemma_mul_is_commutative(d as int, k2);
            vstd::arithmetic::div_mod::lemma_mod_multiples_basic(k0, d as int);
            vstd::arithmetic::div_mod::lemma_mod_multiples_basic(k1, d as int);
            vstd::arithmetic::div_mod::lemma_mod_multiples_basic(k2, d as int);
            lemma_mul_lt(ru as int, uu.0 as int, 1572864, 64);
            lemma_mul_lt(rv as int, vv.0 as int, 1572864, 64);
            lemma_mul_lt(rw as int, ww.0 as int, 1572864, 64);
            lemma_mul_lt(ru as int, uu.1 as int, 1572864, 64);
            lemma_mul_lt(rv as int, vv.1 as int, 1572864, 64);
            lemma_mul_lt(rw as int, ww.1 as int, 1572864, 64);
            lemma_mul_lt(ru as int, uu.2 as int, 1572864, 64);
            lemma_mul_lt(rv as int, vv.2 as int, 1572864, 64);
            lemma_mul_lt(rw as int, ww.2 as int, 1572864, 64);
        }
        let q = self.uvw_to_xyt((ru, rv, rw));
        proof {
            let (uu, vv, ww) = (self.u_to_xyt, self.v_to_xyt, self.w_to_xyt);
            lemma_cancel(d as int, q.0 as int, p.0 - (lu * uu.0 + lv * vv.0 + lw * ww.0));
            lemma_cancel(d as int, q.1 as int, p.1 - (lu * uu.1 + lv * vv.1 + lw * ww.1));
            lemma_cancel(d as int, q.2 as int, p.2 - (lu * uu.2 + lv * vv.2 + lw * ww.2));
        }
        (q, (lu, lv, lw))
    }
}

} // verus!
