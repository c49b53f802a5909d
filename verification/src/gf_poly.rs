//! Sums and polynomials over the field of 256 elements.
use crate::gf256::{gf_inv, gf_mul, gf_pow};
use crate::gf256::{
    lemma_inv, lemma_mul_assoc, lemma_mul_comm, lemma_mul_dist, lemma_mul_nonzero, lemma_mul_unit,
    lemma_xor, lemma_xor_assoc,
};
use vstd::prelude::*;

verus! {

/// `f(0) + f(1) + ... + f(n - 1)`.
pub open spec fn gf_sum(f: spec_fn(int) -> u8, n: nat) -> u8
    decreases n,
{
    if n == 0 {
        0
    } else {
        gf_sum(f, (n - 1) as nat) ^ f(n - 1)
    }
}

/// Equal terms give equal sums.
pub proof fn lemma_sum_eq(f: spec_fn(int) -> u8, g: spec_fn(int) -> u8, n: nat)
    requires
        forall|i: int| 0 <= i < n ==> #[trigger] f(i) == g(i),
    ensures
        gf_sum(f, n) == gf_sum(g, n),
    decreases n,
{
    if n > 0 {
        lemma_sum_eq(f, g, (n - 1) as nat);
        assert(f(n - 1) == g(n - 1));
    }
}

/// The sum of termwise sums is the sum of the sums.
pub proof fn lemma_sum_xor(f: spec_fn(int) -> u8, g: spec_fn(int) -> u8, n: nat)
    ensures
        gf_sum(|i: int| f(i) ^ g(i), n) == gf_sum(f, n) ^ gf_sum(g, n),
    decreases n,
{
    broadcast use lemma_xor;

    if n > 0 {
        let m = (n - 1) as nat;
        lemma_sum_xor(f, g, m);
        let (a, b, c, d) = (gf_sum(f, m), gf_sum(g, m), f(n - 1), g(n - 1));
        lemma_xor_four(a, b, c, d);
    }
}

proof fn lemma_xor_four(a: u8, b: u8, c: u8, d: u8)
    by (bit_vector)
    ensures
        (a ^ b) ^ (c ^ d) == (a ^ c) ^ (b ^ d),
{
}

/// A common factor can be taken out of a sum.
pub proof fn lemma_sum_scale(c: u8, f: spec_fn(int) -> u8, n: nat)
    ensures
        gf_sum(|i: int| gf_mul(c, f(i)), n) == gf_mul(c, gf_sum(f, n)),
    decreases n,
{
    if n == 0 {
        lemma_mul_unit(c);
    } else {
        lemma_sum_scale(c, f, (n - 1) as nat);
        lemma_mul_dist(c, gf_sum(f, (n - 1) as nat), f(n - 1));
    }
}

/// A sum of zeros is zero.
pub proof fn lemma_sum_zero(f: spec_fn(int) -> u8, n: nat)
    requires
        forall|i: int| 0 <= i < n ==> #[trigger] f(i) == 0,
    ensures
        gf_sum(f, n) == 0,
    decreases n,
{
    broadcast use lemma_xor;

    if n > 0 {
        lemma_sum_zero(f, (n - 1) as nat);
        assert(f(n - 1) == 0);
    }
}

/// A sum with at most one nonzero term is that term.
pub proof fn lemma_sum_single(f: spec_fn(int) -> u8, n: nat, j: int)
    requires
        0 <= j < n,
        forall|i: int| 0 <= i < n && i != j ==> #[trigger] f(i) == 0,
    ensures
        gf_sum(f, n) == f(j),
    decreases n,
{
    broadcast use lemma_xor;

    if j == n - 1 {
        lemma_sum_zero(f, (n - 1) as nat);
    } else {
        lemma_sum_single(f, (n - 1) as nat, j);
        assert(f(n - 1) == 0);
    }
}

/// The two orders of a double sum agree.
pub proof fn lemma_sum_swap(f: spec_fn(int, int) -> u8, m: nat, n: nat)
    ensures
        gf_sum(|i: int| gf_sum(|j: int| f(i, j), n), m) == gf_sum(
            |j: int| gf_sum(|i: int| f(i, j), m),
            n,
        ),
    decreases m,
{
    if m == 0 {
        lemma_sum_zero(|j: int| gf_sum(|i: int| f(i, j), 0), n);
    } else {
        let p = (m - 1) as nat;
        lemma_sum_swap(f, p, n);
        let g = |j: int| gf_sum(|i: int| f(i, j), p);
        let h = |j: int| f(p as int, j);
        lemma_sum_xor(g, h, n);
        lemma_sum_eq(|j: int| gf_sum(|i: int| f(i, j), m), |j: int| g(j) ^ h(j), n);
        let rows = |i: int| gf_sum(|j: int| f(i, j), n);
        assert(gf_sum(rows, m) == gf_sum(rows, p) ^ rows(p as int));
        assert(h =~= (|j: int| f(p as int, j)));
    }
}

/// The value at `x` of the polynomial with coefficients `p`, lowest first.
pub open spec fn poly_eval(p: Seq<u8>, x: u8) -> u8
    decreases p.len(),
{
    if p.len() == 0 {
        0
    } else {
        p[0] ^ gf_mul(x, poly_eval(p.skip(1), x))
    }
}

/// The value of a polynomial is the sum of its terms.
pub proof fn lemma_poly_eval_sum(p: Seq<u8>, x: u8)
    ensures
        poly_eval(p, x) == gf_sum(|i: int| gf_mul(p[i], gf_pow(x, i as nat)), p.len()),
    decreases p.len(),
{
    broadcast use lemma_xor;

    if p.len() > 0 {
        let n = p.len();
        let q = p.skip(1);
        lemma_poly_eval_sum(q, x);
        let term = |i: int| gf_mul(p[i], gf_pow(x, i as nat));
        let qterm = |i: int| gf_mul(q[i], gf_pow(x, i as nat));
        lemma_sum_scale(x, qterm, q.len());
        let shifted = |i: int| gf_mul(x, qterm(i));
        assert forall|i: int| 0 <= i < q.len() implies #[trigger] shifted(i) == term(i + 1) by {
            let e = gf_pow(x, i as nat);
            lemma_mul_comm(x, gf_mul(q[i], e));
            lemma_mul_assoc(q[i], e, x);
            assert(gf_pow(x, (i + 1) as nat) == gf_mul(e, x));
        }
        lemma_sum_shift(term, shifted, q.len());
        lemma_mul_unit(p[0]);
    }
}

/// Splitting off the first term of a sum.
proof fn lemma_sum_shift(f: spec_fn(int) -> u8, g: spec_fn(int) -> u8, n: nat)
    requires
        forall|i: int| 0 <= i < n ==> #[trigger] g(i) == f(i + 1),
    ensures
        gf_sum(f, n + 1) == f(0) ^ gf_sum(g, n),
    decreases n,
{
    broadcast use lemma_xor;

    if n == 0 {
        assert(gf_sum(f, 1) == gf_sum(f, 0) ^ f(0));
    } else {
        lemma_sum_shift(f, g, (n - 1) as nat);
        assert(g(n - 1) == f(n as int));
        lemma_xor_assoc(f(0), gf_sum(g, (n - 1) as nat), f(n as int));
    }
}

/// Coefficientwise sum.
pub open spec fn poly_add(p: Seq<u8>, q: Seq<u8>) -> Seq<u8> {
    Seq::new(p.len(), |i: int| p[i] ^ q[i])
}

/// Every coefficient times `c`.
pub open spec fn poly_scale(c: u8, p: Seq<u8>) -> Seq<u8> {
    Seq::new(p.len(), |i: int| gf_mul(c, p[i]))
}

pub proof fn lemma_poly_add(p: Seq<u8>, q: Seq<u8>, x: u8)
    requires
        p.len() == q.len(),
    ensures
        poly_eval(poly_add(p, q), x) == poly_eval(p, x) ^ poly_eval(q, x),
    decreases p.len(),
{
    broadcast use lemma_xor;

    if p.len() > 0 {
        lemma_poly_add(p.skip(1), q.skip(1), x);
        assert(poly_add(p, q).skip(1) =~= poly_add(p.skip(1), q.skip(1)));
        let (a, b) = (poly_eval(p.skip(1), x), poly_eval(q.skip(1), x));
        lemma_mul_dist(x, a, b);
        lemma_xor_four(p[0], q[0], gf_mul(x, a), gf_mul(x, b));
    }
}

pub proof fn lemma_poly_scale(c: u8, p: Seq<u8>, x: u8)
    ensures
        poly_eval(poly_scale(c, p), x) == gf_mul(c, poly_eval(p, x)),
    decreases p.len(),
{
    if p.len() == 0 {
        lemma_mul_unit(c);
    } else {
        lemma_poly_scale(c, p.skip(1), x);
        assert(poly_scale(c, p).skip(1) =~= poly_scale(c, p.skip(1)));
        let a = poly_eval(p.skip(1), x);
        lemma_mul_dist(c, p[0], gf_mul(x, a));
        lemma_mul_assoc(x, c, a);
        lemma_mul_assoc(c, x, a);
        lemma_mul_comm(x, c);
    }
}

/// The quotient of division by `x - r`: synthetic division from the top.
pub open spec fn poly_div(p: Seq<u8>, r: u8) -> Seq<u8>
    decreases p.len(),
{
    if p.len() <= 1 {
        Seq::empty()
    } else {
        seq![poly_eval(p.skip(1), r)] + poly_div(p.skip(1), r)
    }
}

pub proof fn lemma_poly_div_coefficients(p: Seq<u8>, r: u8)
    ensures
        p.len() > 0 ==> poly_div(p, r).len() == p.len() - 1,
        forall|i: int|
            0 <= i < p.len() - 1 ==> #[trigger] poly_div(p, r)[i] == p[i + 1] ^ (if i + 1 < p.len() - 1 {
                gf_mul(r, poly_div(p, r)[i + 1])
            } else {
                0
            }),
    decreases p.len(),
{
    broadcast use lemma_xor;

    if p.len() > 1 {
        let t = p.skip(1);
        lemma_poly_div_coefficients(t, r);
        let q = poly_div(p, r);
        let qt = poly_div(t, r);
        assert(q.skip(1) =~= qt);
        assert forall|i: int| 0 <= i < p.len() - 1 implies #[trigger] q[i] == p[i + 1] ^ (if i + 1
            < p.len() - 1 {
            gf_mul(r, q[i + 1])
        } else {
            0
        }) by {
            if i == 0 {
                if t.len() == 1 {
                    assert(poly_eval(t.skip(1), r) == 0);
                    lemma_mul_unit(r);
                } else {
                    assert(q[1] == qt[0]);
                }
            } else {
                assert(q[i] == qt[i - 1]);
                if i + 1 < p.len() - 1 {
                    assert(q[i + 1] == qt[i]);
                }
            }
        }
    }
}

/// Division with remainder: `p(x) = (x - r) * q(x) + p(r)`.
pub proof fn lemma_poly_div(p: Seq<u8>, r: u8, x: u8)
    ensures
        poly_eval(p, x) == gf_mul(x ^ r, poly_eval(poly_div(p, r), x)) ^ poly_eval(p, r),
    decreases p.len(),
{
    broadcast use lemma_xor;

    if p.len() <= 1 {
        lemma_mul_unit(x ^ r);
        if p.len() == 1 {
            assert(poly_eval(p.skip(1), x) == 0);
            assert(poly_eval(p.skip(1), r) == 0);
            lemma_mul_unit(x);
            lemma_mul_unit(r);
        }
    } else {
        let t = p.skip(1);
        lemma_poly_div(t, r, x);
        let q = poly_div(p, r);
        let qt = poly_div(t, r);
        assert(q.skip(1) =~= qt);
        let s = poly_eval(qt, x);
        let v = poly_eval(t, r);
        // t(x) = (x + r) * s + v and q(x) = v + x * s
        lemma_mul_dist(x, gf_mul(x ^ r, s), v);
        lemma_mul_dist(x ^ r, v, gf_mul(x, s));
        lemma_mul_dist(v, x, r);
        lemma_mul_assoc(x, x ^ r, s);
        lemma_mul_assoc(x ^ r, x, s);
        lemma_mul_comm(x, x ^ r);
        lemma_div_xor(p[0], gf_mul(x, gf_mul(x ^ r, s)), gf_mul(x, v), gf_mul(r, v));
    }
}

proof fn lemma_div_xor(a: u8, b: u8, c: u8, d: u8)
    by (bit_vector)
    ensures
        a ^ (b ^ c) == ((c ^ d) ^ b) ^ (a ^ d),
{
}

/// No value occurs twice.
pub open spec fn distinct(xs: Seq<u8>) -> bool {
    forall|i: int, j: int| 0 <= i < j < xs.len() ==> #[trigger] xs[i] != #[trigger] xs[j]
}

/// A polynomial with as many coefficients as distinct roots is zero.
pub proof fn lemma_poly_roots(p: Seq<u8>, roots: Seq<u8>)
    requires
        p.len() == roots.len(),
        distinct(roots),
        forall|i: int| 0 <= i < roots.len() ==> poly_eval(p, #[trigger] roots[i]) == 0,
    ensures
        forall|i: int| 0 <= i < p.len() ==> #[trigger] p[i] == 0,
    decreases p.len(),
{
    broadcast use lemma_xor;

    let n = p.len();
    if n > 0 {
        let r = roots[n - 1];
        let q = poly_div(p, r);
        lemma_poly_div_coefficients(p, r);
        let others = roots.drop_last();
        assert forall|i: int| 0 <= i < others.len() implies poly_eval(q, #[trigger] others[i]) == 0 by {
            let x = roots[i];
            assert(roots[i] != roots[n - 1]);
            lemma_poly_div(p, r, x);
            if poly_eval(q, x) != 0 {
                lemma_mul_nonzero(x ^ r, poly_eval(q, x));
            }
        }
        lemma_poly_roots(q, others);
        assert forall|i: int| 0 < i < n implies p[i] == 0 by {
            assert(q[i - 1] == 0);
            lemma_mul_unit(r);
        }
        assert(poly_eval(p.skip(1), r) == 0) by {
            if n > 1 {
                assert(q[0] == poly_eval(p.skip(1), r));
            }
        }
        lemma_mul_unit(r);
        assert(poly_eval(p, r) == 0);
    }
}

/// `p` times `x - r`.
pub open spec fn poly_mul_linear(p: Seq<u8>, r: u8) -> Seq<u8> {
    poly_add(seq![0u8] + p, poly_scale(r, p.push(0)))
}

proof fn lemma_poly_push_zero(p: Seq<u8>, x: u8)
    ensures
        poly_eval(p.push(0), x) == poly_eval(p, x),
    decreases p.len(),
{
    broadcast use lemma_xor;

    lemma_mul_unit(x);
    if p.len() == 0 {
        assert(poly_eval(p.push(0).skip(1), x) == 0);
    } else {
        lemma_poly_push_zero(p.skip(1), x);
        assert(p.push(0).skip(1) =~= p.skip(1).push(0));
    }
}

pub proof fn lemma_poly_mul_linear(p: Seq<u8>, r: u8, x: u8)
    ensures
        poly_eval(poly_mul_linear(p, r), x) == gf_mul(x ^ r, poly_eval(p, x)),
{
    broadcast use lemma_xor;

    let shifted = seq![0u8] + p;
    let padded = p.push(0);
    lemma_poly_add(shifted, poly_scale(r, padded), x);
    lemma_poly_scale(r, padded, x);
    lemma_poly_push_zero(p, x);
    assert(shifted.skip(1) =~= p);
    lemma_mul_dist(poly_eval(p, x), x, r);
}

/// The monic polynomial whose roots are `xs`.
pub open spec fn poly_from_roots(xs: Seq<u8>) -> Seq<u8>
    decreases xs.len(),
{
    if xs.len() == 0 {
        seq![1u8]
    } else {
        poly_mul_linear(poly_from_roots(xs.drop_last()), xs.last())
    }
}

pub proof fn lemma_poly_from_roots(xs: Seq<u8>)
    ensures
        poly_from_roots(xs).len() == xs.len() + 1,
        poly_from_roots(xs)[xs.len() as int] == 1,
        forall|i: int| 0 <= i < xs.len() ==> poly_eval(poly_from_roots(xs), #[trigger] xs[i]) == 0,
    decreases xs.len(),
{
    broadcast use lemma_xor;

    if xs.len() > 0 {
        let rest = xs.drop_last();
        let p = poly_from_roots(rest);
        lemma_poly_from_roots(rest);
        lemma_mul_unit(xs.last());
        assert forall|i: int| 0 <= i < xs.len() implies poly_eval(
            poly_from_roots(xs),
            #[trigger] xs[i],
        ) == 0 by {
            lemma_poly_mul_linear(p, xs.last(), xs[i]);
            lemma_mul_unit(poly_eval(p, xs[i]));
            lemma_mul_unit(xs[i] ^ xs.last());
            if i < rest.len() {
                assert(xs[i] == rest[i]);
            }
        }
    }
}

/// The quotient of the polynomial with roots `xs` by `x - xs[j]`.
pub open spec fn poly_without_root(xs: Seq<u8>, j: int) -> Seq<u8> {
    poly_div(poly_from_roots(xs), xs[j])
}

/// The polynomial that is one at `xs[j]` and zero at the other points.
pub open spec fn lagrange(xs: Seq<u8>, j: int) -> Seq<u8> {
    let b = poly_without_root(xs, j);
    poly_scale(gf_inv(poly_eval(b, xs[j])), b)
}

/// Leaving one root out leaves a polynomial that is zero at the other points only.
pub proof fn lemma_poly_without_root(xs: Seq<u8>, j: int)
    requires
        distinct(xs),
        0 <= j < xs.len(),
    ensures
        poly_without_root(xs, j).len() == xs.len(),
        forall|i: int|
            0 <= i < xs.len() && i != j ==> poly_eval(poly_without_root(xs, j), #[trigger] xs[i]) == 0,
        poly_eval(poly_without_root(xs, j), xs[j]) != 0,
{
    broadcast use lemma_xor;

    let p = poly_from_roots(xs);
    let b = poly_without_root(xs, j);
    lemma_poly_from_roots(xs);
    lemma_poly_div_coefficients(p, xs[j]);
    assert forall|i: int| 0 <= i < xs.len() && i != j implies poly_eval(b, #[trigger] xs[i]) == 0 by {
        lemma_poly_div(p, xs[j], xs[i]);
        if poly_eval(b, xs[i]) != 0 {
            assert(xs[i] ^ xs[j] != 0);
            lemma_mul_nonzero(xs[i] ^ xs[j], poly_eval(b, xs[i]));
        }
    }
    if poly_eval(b, xs[j]) == 0 {
        lemma_poly_roots(b, xs);
        assert(b[xs.len() - 1] == 1);
    }
}

pub proof fn lemma_lagrange(xs: Seq<u8>, j: int)
    requires
        distinct(xs),
        0 <= j < xs.len(),
    ensures
        lagrange(xs, j).len() == xs.len(),
        forall|i: int|
            0 <= i < xs.len() ==> poly_eval(lagrange(xs, j), #[trigger] xs[i]) == if i == j {
                1u8
            } else {
                0u8
            },
{
    let b = poly_without_root(xs, j);
    let t = poly_eval(b, xs[j]);
    lemma_poly_without_root(xs, j);
    lemma_inv(t);
    lemma_mul_comm(t, gf_inv(t));
    lemma_mul_unit(gf_inv(t));
    assert forall|i: int| 0 <= i < xs.len() implies poly_eval(lagrange(xs, j), #[trigger] xs[i]) == (
    if i == j {
        1u8
    } else {
        0u8
    }) by {
        lemma_poly_scale(gf_inv(t), b, xs[i]);
    }
}

/// The polynomial of degree below `xs.len()` whose value at `xs[j]` is `d[j]`.
pub open spec fn interpolate(xs: Seq<u8>, d: Seq<u8>) -> Seq<u8> {
    Seq::new(xs.len(), |m: int| gf_sum(|j: int| gf_mul(d[j], lagrange(xs, j)[m]), xs.len()))
}

/// The value of the interpolating polynomial is the weighted sum of the data.
pub proof fn lemma_interpolate_eval(xs: Seq<u8>, d: Seq<u8>, x: u8)
    requires
        distinct(xs),
    ensures
        poly_eval(interpolate(xs, d), x) == gf_sum(
            |j: int| gf_mul(d[j], poly_eval(lagrange(xs, j), x)),
            xs.len(),
        ),
{
    let n = xs.len();
    let p = interpolate(xs, d);
    let f = |m: int, j: int| gf_mul(gf_mul(d[j], lagrange(xs, j)[m]), gf_pow(x, m as nat));
    lemma_poly_eval_sum(p, x);
    let lhs = |m: int| gf_mul(p[m], gf_pow(x, m as nat));
    let rows = |m: int| gf_sum(|j: int| f(m, j), n);
    assert forall|m: int| 0 <= m < n implies #[trigger] lhs(m) == rows(m) by {
        let e = gf_pow(x, m as nat);
        let g = |j: int| gf_mul(d[j], lagrange(xs, j)[m]);
        lemma_sum_scale(e, g, n);
        lemma_mul_comm(e, gf_sum(g, n));
        let fm = |j: int| f(m, j);
        let ge = |j: int| gf_mul(e, g(j));
        assert forall|j: int| 0 <= j < n implies #[trigger] ge(j) == fm(j) by {
            lemma_mul_comm(e, g(j));
        }
        lemma_sum_eq(ge, fm, n);
    }
    lemma_sum_eq(lhs, rows, n);
    lemma_sum_swap(f, n, n);
    let columns = |j: int| gf_sum(|m: int| f(m, j), n);
    let rhs = |j: int| gf_mul(d[j], poly_eval(lagrange(xs, j), x));
    assert forall|j: int| 0 <= j < n implies #[trigger] columns(j) == rhs(j) by {
        let l = lagrange(xs, j);
        lemma_lagrange(xs, j);
        lemma_poly_eval_sum(l, x);
        let term = |m: int| gf_mul(l[m], gf_pow(x, m as nat));
        lemma_sum_scale(d[j], term, n);
        let fj = |m: int| f(m, j);
        let dt = |m: int| gf_mul(d[j], term(m));
        assert forall|m: int| 0 <= m < n implies #[trigger] fj(m) == dt(m) by {
            lemma_mul_assoc(d[j], l[m], gf_pow(x, m as nat));
        }
        lemma_sum_eq(fj, dt, n);
    }
    lemma_sum_eq(columns, rhs, n);
}

/// The interpolating polynomial goes through its points.
pub proof fn lemma_interpolate_points(xs: Seq<u8>, d: Seq<u8>, i: int)
    requires
        distinct(xs),
        0 <= i < xs.len(),
    ensures
        poly_eval(interpolate(xs, d), xs[i]) == d[i],
{
    lemma_interpolate_eval(xs, d, xs[i]);
    let f = |j: int| gf_mul(d[j], poly_eval(lagrange(xs, j), xs[i]));
    assert forall|j: int| 0 <= j < xs.len() && j != i implies #[trigger] f(j) == 0 by {
        lemma_lagrange(xs, j);
        lemma_mul_unit(d[j]);
    }
    lemma_lagrange(xs, i);
    lemma_mul_unit(d[i]);
    lemma_sum_single(f, xs.len(), i);
}

/// Two polynomials with as many coefficients as points on which they agree are equal.
pub proof fn lemma_interpolate_unique(p: Seq<u8>, q: Seq<u8>, xs: Seq<u8>)
    requires
        distinct(xs),
        p.len() == xs.len(),
        q.len() == xs.len(),
        forall|i: int| 0 <= i < xs.len() ==> poly_eval(p, #[trigger] xs[i]) == poly_eval(q, xs[i]),
    ensures
        p == q,
{
    broadcast use lemma_xor;

    let d = poly_add(p, q);
    assert forall|i: int| 0 <= i < xs.len() implies poly_eval(d, #[trigger] xs[i]) == 0 by {
        lemma_poly_add(p, q, xs[i]);
    }
    lemma_poly_roots(d, xs);
    assert forall|i: int| 0 <= i < p.len() implies p[i] == q[i] by {
        assert(d[i] == 0);
    }
    assert(p =~= q);
}

} // verus!
