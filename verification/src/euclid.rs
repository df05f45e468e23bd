use vstd::prelude::*;
use crate::zmodule::{ZModule, addmul_ok, axpy, fits, scale};

verus! {

/// Euclid's algorithm on `(a, b)`, applying each step to the pair of vectors `(va, vb)` too:
/// while `a > 0`, `(a, b)` becomes `(b - q * a, a)` and `(va, vb)` becomes `(vb - q * va, va)`
/// with `q = b / a`. The result is the final `b` with the final `va` and `vb`.
pub open spec fn euclid(a: int, b: int, va: Seq<int>, vb: Seq<int>) -> (int, Seq<int>, Seq<int>)
    decreases a,
{
    if a <= 0 {
        (b, va, vb)
    } else {
        let q = b / a;
        euclid(b % a, a, axpy(vb, -q, va), va)
    }
}

/// Whether every vector step of `euclid(a, b, va, vb)` can be computed in `isize`
/// coordinates.
pub open spec fn euclid_ok(a: int, b: int, va: Seq<int>, vb: Seq<int>) -> bool
    decreases a,
{
    if a <= 0 {
        true
    } else {
        let q = b / a;
        addmul_ok(vb, -q, va) && euclid_ok(b % a, a, axpy(vb, -q, va), va)
    }
}

/// `a` made nonnegative, with `va` negated alongside it.
pub open spec fn unsign(a: int, va: Seq<int>) -> (int, Seq<int>) {
    if a < 0 {
        (-a, scale(va, -1))
    } else {
        (a, va)
    }
}

/// `s * v + t * w`, coordinate by coordinate.
pub open spec fn comb(s: int, v: Seq<int>, t: int, w: Seq<int>) -> Seq<int> {
    Seq::new(v.len(), |i: int| s * v[i] + t * w[i])
}

/// Whether `g` divides `a`.
pub open spec fn divides(g: int, a: int) -> bool {
    exists|k: int| a == #[trigger] (k * g)
}

/// The outcome of `euclid(a, b, va, vb)` comes from one integer matrix `m` of determinant
/// `1` or `-1`, applied to both pairs: `m * (a, b) == (0, g)`, and the vectors are
/// `m * (va, vb)`.
pub open spec fn unimodular_outcome(a: int, b: int, va: Seq<int>, vb: Seq<int>, g: int, x: Seq<int>, y: Seq<int>) -> bool {
    exists|m: (int, int, int, int)|
        {
            &&& (m.0 * m.3 - m.1 * m.2 == 1 || m.0 * m.3 - m.1 * m.2 == -1)
            &&& #[trigger] (m.0 * a) + m.1 * b == 0
            &&& m.2 * a + m.3 * b == g
            &&& x == comb(m.0, va, m.1, vb)
            &&& y == comb(m.2, va, m.3, vb)
        }
}

proof fn lemma_div_mod(a: int, b: int)
    requires
        a > 0,
        b >= 0,
    ensures
        b == a * (b / a) + b % a,
        0 <= b % a < a,
        0 <= b / a <= b,
        0 <= (b / a) * a <= b,
{
    vstd::arithmetic::div_mod::lemma_fundamental_div_mod(b, a);
    assert(0 <= b / a <= b) by (nonlinear_arith)
        requires a > 0, b >= 0, b == a * (b / a) + b % a, 0 <= b % a < a;
    assert(0 <= (b / a) * a <= b) by (nonlinear_arith)
        requires a > 0, b >= 0, b == a * (b / a) + b % a, 0 <= b % a < a, 0 <= b / a;
}

/// Euclid's algorithm, with its vectors, gives the greatest common divisor: for
/// nonnegative `a` and `b`, the final `g` divides both and is an integer combination of them,
/// and one matrix of determinant `1` or `-1` takes `(a, b)` to `(0, g)` and the vectors
/// `(va, vb)` to the final pair.
pub proof fn lemma_euclid_gcd(a: int, b: int, va: Seq<int>, vb: Seq<int>)
    requires
        a >= 0,
        b >= 0,
        va.len() == vb.len(),
    ensures
        euclid(a, b, va, vb).0 >= 0,
        divides(euclid(a, b, va, vb).0, a),
        divides(euclid(a, b, va, vb).0, b),
        exists|s: int, t: int| #[trigger] (s * a) + #[trigger] (t * b) == euclid(a, b, va, vb).0,
        unimodular_outcome(a, b, va, vb, euclid(a, b, va, vb).0, euclid(a, b, va, vb).1, euclid(a, b, va, vb).2),
    decreases a,
{
    let (g, x, y) = euclid(a, b, va, vb);
    if a == 0 {
        assert(0 == 0 * g);
        assert(b == 1 * g);
        let m = (1int, 0int, 0int, 1int);
        assert(m.0 * a + m.1 * b == 0);
        assert(m.2 * a + m.3 * b == g);
        assert(x =~= comb(m.0, va, m.1, vb));
        assert(y =~= comb(m.2, va, m.3, vb));
        assert(0 * a + 1 * b == g);
    } else {
        let q = b / a;
        let r = b % a;
        lemma_div_mod(a, b);
        let nva = axpy(vb, -q, va);
        lemma_euclid_gcd(r, a, nva, va);
        let kr = choose|k: int| r == #[trigger] (k * g);
        let ka = choose|k: int| a == #[trigger] (k * g);
        assert(b == (q * ka + kr) * g) by (nonlinear_arith)
            requires b == a * q + r, r == kr * g, a == ka * g;
        let mp = choose|m: (int, int, int, int)|
            {
                &&& (m.0 * m.3 - m.1 * m.2 == 1 || m.0 * m.3 - m.1 * m.2 == -1)
                &&& #[trigger] (m.0 * r) + m.1 * a == 0
                &&& m.2 * r + m.3 * a == g
                &&& x == comb(m.0, nva, m.1, va)
                &&& y == comb(m.2, nva, m.3, va)
            };
        let m = (mp.1 - q * mp.0, mp.0, mp.3 - q * mp.2, mp.2);
        assert(m.0 * m.3 - m.1 * m.2 == -(mp.0 * mp.3 - mp.1 * mp.2)) by (nonlinear_arith)
            requires m == (mp.1 - q * mp.0, mp.0, mp.3 - q * mp.2, mp.2);
        assert(m.0 * a + m.1 * b == mp.0 * r + mp.1 * a) by (nonlinear_arith)
            requires m == (mp.1 - q * mp.0, mp.0, mp.3 - q * mp.2, mp.2), b == a * q + r;
        assert(m.2 * a + m.3 * b == mp.2 * r + mp.3 * a) by (nonlinear_arith)
            requires m == (mp.1 - q * mp.0, mp.0, mp.3 - q * mp.2, mp.2), b == a * q + r;
        assert forall|i: int| 0 <= i < x.len() implies x[i] == #[trigger] comb(m.0, va, m.1, vb)[i] by {
            let (p0, p1, vi, wi) = (mp.0, mp.1, va[i], vb[i]);
            assert(nva[i] == wi + (-q) * vi);
            assert(p0 * (wi + (-q) * vi) + p1 * vi == (p1 - q * p0) * vi + p0 * wi) by (nonlinear_arith);
        }
        assert(x =~= comb(m.0, va, m.1, vb));
        assert forall|i: int| 0 <= i < y.len() implies y[i] == #[trigger] comb(m.2, va, m.3, vb)[i] by {
            let (p2, p3, vi, wi) = (mp.2, mp.3, va[i], vb[i]);
            assert(nva[i] == wi + (-q) * vi);
            assert(p2 * (wi + (-q) * vi) + p3 * vi == (p3 - q * p2) * vi + p2 * wi) by (nonlinear_arith);
        }
        assert(y =~= comb(m.2, va, m.3, vb));
        assert(m.2 * a + m.3 * b == g);
    }
}

/// Extended Euclid in place: makes `a` and `b` nonnegative (negating `ra` or `rb` with
/// them), then runs Euclid's algorithm on `(a, b)`, applying each step to `(ra, rb)`, until
/// `a` is `0`; `b` is then the greatest common divisor.
pub fn egcd_mut<R: ZModule>(a: &mut isize, b: &mut isize, ra: &mut R, rb: &mut R)
    requires
        *old(a) != isize::MIN,
        *old(b) != isize::MIN,
        *old(a) < 0 ==> fits(scale(old(ra).coords(), -1)),
        *old(b) < 0 ==> fits(scale(old(rb).coords(), -1)),
        euclid_ok(
            unsign(*old(a) as int, old(ra).coords()).0,
            unsign(*old(b) as int, old(rb).coords()).0,
            unsign(*old(a) as int, old(ra).coords()).1,
            unsign(*old(b) as int, old(rb).coords()).1,
        ),
    ensures
        *final(a) == 0,
        (*final(b) as int, final(ra).coords(), final(rb).coords()) == euclid(
            unsign(*old(a) as int, old(ra).coords()).0,
            unsign(*old(b) as int, old(rb).coords()).0,
            unsign(*old(a) as int, old(ra).coords()).1,
            unsign(*old(b) as int, old(rb).coords()).1,
        ),
{
    let ghost ua = unsign(*a as int, ra.coords());
    let ghost ub = unsign(*b as int, rb.coords());
    let mut av: isize = *a;
    let mut bv: isize = *b;
    if av < 0 {
        av = -av;
        ra.mul(-1);
    }
    if bv < 0 {
        bv = -bv;
        rb.mul(-1);
    }
    let ghost target = euclid(ua.0, ub.0, ua.1, ub.1);
    proof {
        ra.lemma_coords();
        rb.lemma_coords();
    }
    while av > 0
        invariant
            av >= 0,
            bv >= 0,
            ra.coords().len() == rb.coords().len(),
            euclid(av as int, bv as int, ra.coords(), rb.coords()) == target,
            euclid_ok(av as int, bv as int, ra.coords(), rb.coords()),
        decreases av,
    {
        proof {
            lemma_div_mod(av as int, bv as int);
        }
        let q = bv / av;
        let rest = bv - q * av;
        rb.addmul(-q, &*ra);
        bv = av;
        av = rest;
        std::mem::swap(ra, rb);
        proof {
            ra.lemma_coords();
            rb.lemma_coords();
        }
    }
    *a = av;
    *b = bv;
}

/// Extended Euclid on values: the greatest common divisor of `a` and `b`, with `ra` and `rb`
/// carried through the same steps (see `egcd_mut`).
pub fn egcd<R: ZModule>(a: isize, b: isize, ra: R, rb: R) -> (r: (isize, R, R))
    requires
        a != isize::MIN,
        b != isize::MIN,
        a < 0 ==> fits(scale(ra.coords(), -1)),
        b < 0 ==> fits(scale(rb.coords(), -1)),
        euclid_ok(unsign(a as int, ra.coords()).0, unsign(b as int, rb.coords()).0, unsign(a as int, ra.coords()).1, unsign(b as int, rb.coords()).1),
    ensures
        (r.0 as int, r.1.coords(), r.2.coords()) == euclid(
            unsign(a as int, ra.coords()).0,
            unsign(b as int, rb.coords()).0,
            unsign(a as int, ra.coords()).1,
            unsign(b as int, rb.coords()).1,
        ),
{
    let mut a = a;
    let mut b = b;
    let mut ra = ra;
    let mut rb = rb;
    egcd_mut(&mut a, &mut b, &mut ra, &mut rb);
    (b, ra, rb)
}

} // verus!
