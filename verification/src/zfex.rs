//! Erasure coding: any `k` of `n` blocks bring back the `k` data blocks.
//!
//! Byte `b` of the data blocks is read as the values of a polynomial of degree below `k` at the
//! first `k` points; byte `b` of block `i` is the value of that polynomial at point `i`.
use crate::gf256::{gf_mul, gf_pow, Gf};
use crate::gf256::{
    lemma_generator_distinct, lemma_mul_assoc, lemma_mul_comm, lemma_mul_unit, lemma_pow_add,
    lemma_pow_nonzero, lemma_xor,
};
use crate::gf_matrix::{
    cell, cell_get, cell_set, dot, inverse_matrix, invert_mat, matmul, matrix_column, orthogonal,
    regular, rows,
};
use crate::gf_matrix::lemma_inverse_matrix;
use crate::gf_poly::{
    distinct, gf_sum, interpolate, lagrange, poly_eval, poly_from_roots, poly_mul_linear,
    poly_without_root,
};
use crate::gf_poly::{
    lemma_interpolate_eval, lemma_interpolate_points, lemma_interpolate_unique, lemma_lagrange,
    lemma_poly_div_coefficients, lemma_poly_eval_sum, lemma_poly_from_roots, lemma_sum_eq,
    lemma_sum_scale, lemma_sum_single, lemma_sum_swap, lemma_sum_zero,
};
use crate::gf_tables::{init_fec, lemma_pow_period, modnn, GfTables};
use vstd::arithmetic::div_mod::{
    lemma_fundamental_div_mod, lemma_fundamental_div_mod_converse, lemma_mod_multiples_basic,
};
use vstd::arithmetic::power2::{lemma2_to64, lemma_pow2_pos, pow2};
use vstd::prelude::*;

verus! {

/// Blocks begin at multiples of this.
pub const ZFEX_SIMD_ALIGNMENT: usize = 16;

/// Blocks are encoded in pieces of this many bytes.
pub const ZFEX_STRIDE: usize = 8192;

/// Outcome of an operation of the coder.
#[derive(Clone, Copy, Debug, PartialEq, Eq, Structural)]
pub enum ZfexStatusCode {
    Success,
    BadInputBlockAlignment,
    BadOutputBlockAlignment,
    NullPointerInput,
    DecodeInvalidBlockIndex,
}

/// Vector instructions of the processor.
#[derive(Clone, Copy, Debug, PartialEq, Eq, Structural)]
pub enum SimdKind {
    NoAccel,
    Ssse3,
    Neon,
}

/// The name of an instruction set.
pub fn zfex_opt(kind: SimdKind) -> (name: &'static str)
    ensures
        name@ == match kind {
            SimdKind::Ssse3 => "SSSE3"@,
            SimdKind::Neon => "NEON"@,
            SimdKind::NoAccel => "noaccel"@,
        },
{
    match kind {
        SimdKind::Ssse3 => "SSSE3",
        SimdKind::Neon => "NEON",
        SimdKind::NoAccel => "noaccel",
    }
}

/// `x` is a power of two.
pub open spec fn is_power_of_two(x: int) -> bool {
    exists|e: nat| x == #[trigger] pow2(e)
}

/// The alignment of blocks is a power of two.
pub proof fn lemma_simd_alignment()
    ensures
        is_power_of_two(ZFEX_SIMD_ALIGNMENT as int),
{
    lemma2_to64();
    assert(pow2(4) == 16);
}

/// `size` brought up to the least multiple of `align`, which is a power of two.
pub fn aligned_size(size: usize, align: usize) -> (r: usize)
    requires
        is_power_of_two(align as int),
        size + align - 1 <= usize::MAX,
    ensures
        r == (size + align - 1) / (align as int) * align,
        r as int % align as int == 0,
        size <= r < size + align,
{
    proof {
        let e = choose|e: nat| align == #[trigger] pow2(e);
        lemma_pow2_pos(e);
        let a = align as int;
        let x = size + a - 1;
        lemma_fundamental_div_mod(x, a);
        lemma_mod_multiples_basic(x / a, a);
        assert(x / a * a == x - x % a) by (nonlinear_arith)
            requires
                x == a * (x / a) + x % a,
        ;
    }
    (size + (align - 1)) / align * align
}

/// A size that is a multiple already stays as it is.
pub proof fn lemma_aligned_size_stays(size: int, align: int)
    requires
        align > 0,
        size >= 0,
    ensures
        ({
            let r = (size + align - 1) / align * align;
            (r + align - 1) / align * align == r
        }),
{
    let q = (size + align - 1) / align;
    lemma_fundamental_div_mod_converse(q * align + align - 1, align, q, align - 1);
}

/// A block of bytes.  `addr` is the address of its first byte; only its alignment matters.
#[derive(Clone, Debug)]
pub struct Block {
    pub addr: usize,
    pub data: Vec<Gf>,
}

/// The point that stands for block `i`.
pub open spec fn point(i: int) -> u8 {
    if i == 0 {
        0
    } else {
        gf_pow(2, (i - 1) as nat)
    }
}

/// The points of the data blocks.
pub open spec fn points(k: nat) -> Seq<u8> {
    Seq::new(k, |i: int| point(i))
}

/// Different blocks have different points.
pub proof fn lemma_point_distinct(i: int, j: int)
    requires
        0 <= i < j < 256,
    ensures
        point(i) != point(j),
{
    if i == 0 {
        lemma_pow_nonzero(2, (j - 1) as nat);
    } else {
        lemma_generator_distinct((i - 1) as nat, (j - 1) as nat);
    }
}

pub proof fn lemma_points_distinct(k: nat)
    requires
        k <= 256,
    ensures
        distinct(points(k)),
{
    assert forall|i: int, j: int| 0 <= i < j < k implies #[trigger] points(k)[i]
        != #[trigger] points(k)[j] by {
        lemma_point_distinct(i, j);
    }
}

/// The byte of block `i` for the data bytes `d`.
pub open spec fn coded(d: Seq<u8>, i: int) -> u8 {
    poly_eval(interpolate(points(d.len()), d), point(i))
}

/// The points are zero, one, and from there on each the double of the one before.
pub proof fn lemma_points_doubled(i: int)
    requires
        i >= 1,
    ensures
        point(0) == 0,
        point(1) == 1,
        point(i + 1) == gf_mul(point(i), 2),
{
    assert(gf_pow(2, 0) == 1);
    assert(gf_pow(2, i as nat) == gf_mul(gf_pow(2, (i - 1) as nat), 2) || gf_pow(2, i as nat) == gf_mul(
        2,
        gf_pow(2, (i - 1) as nat),
    ));
    lemma_mul_comm(2, gf_pow(2, (i - 1) as nat));
}

/// The bytes of all blocks lie on one polynomial with as many coefficients as there are data blocks:
/// whichever goes through the data gives the check bytes too.
pub proof fn lemma_code_polynomial(d: Seq<u8>, p: Seq<u8>, i: int)
    requires
        d.len() <= 256,
        p.len() == d.len(),
        forall|j: int| 0 <= j < d.len() ==> poly_eval(p, #[trigger] point(j)) == d[j],
    ensures
        coded(d, i) == poly_eval(p, point(i)),
{
    let xs = points(d.len());
    lemma_points_distinct(d.len());
    assert forall|j: int| 0 <= j < xs.len() implies poly_eval(p, #[trigger] xs[j]) == poly_eval(
        interpolate(xs, d),
        xs[j],
    ) by {
        lemma_interpolate_points(xs, d, j);
        assert(xs[j] == point(j));
    }
    lemma_interpolate_unique(p, interpolate(xs, d), xs);
}

/// A power of a power.
proof fn lemma_pow_pow(a: u8, m: nat, n: nat)
    ensures
        gf_pow(gf_pow(a, m), n) == gf_pow(a, m * n),
    decreases n,
{
    if n > 0 {
        lemma_pow_pow(a, m, (n - 1) as nat);
        lemma_pow_add(a, m * ((n - 1) as nat), m);
        assert(m * ((n - 1) as nat) + m == m * n) by (nonlinear_arith)
            requires
                n > 0,
        ;
    } else {
        assert(m * 0 == 0) by (nonlinear_arith);
    }
}

/// The powers of the points: row `r` holds the powers of point `r`.
spec fn is_vandermonde(m: Seq<u8>, k: int, rows: int) -> bool {
    &&& m.len() == rows * k
    &&& forall|r: int, c: int|
        0 <= r < rows && 0 <= c < k ==> #[trigger] cell(m, k, r, c) == gf_pow(point(r), c as nat)
}

proof fn lemma_zero_powers(c: nat)
    requires
        c > 0,
    ensures
        gf_pow(0, c) == 0,
{
    lemma_mul_unit(gf_pow(0, (c - 1) as nat));
}

fn vandermonde(tables: &GfTables, k: usize, n: usize) -> (m: Vec<Gf>)
    requires
        tables.wf(),
        1 <= k <= n < 256,
    ensures
        is_vandermonde(m@, k as int, n as int),
{
    proof {
        assert(n * k <= 65536) by (nonlinear_arith)
            requires
                n < 256,
                k < 256,
        ;
    }
    let mut m: Vec<Gf> = vec![0u8; n * k];
    cell_set(&mut m, k, 0, 0, 1, Ghost(n as int));
    let mut col: usize = 1;
    while col < k
        invariant
            1 <= col <= k,
            1 <= k <= n,
            m@.len() == n * k,
            forall|c: int|
                0 <= c < col ==> #[trigger] cell(m@, k as int, 0, c) == gf_pow(point(0), c as nat),
        decreases k - col,
    {
        proof {
            lemma_zero_powers(col as nat);
        }
        cell_set(&mut m, k, 0, col, 0, Ghost(n as int));
        col = col + 1;
    }
    let mut row: usize = 0;
    while row < n - 1
        invariant
            row <= n - 1,
            1 <= k <= n < 256,
            tables.wf(),
            m@.len() == n * k,
            forall|r: int, c: int|
                0 <= r <= row && 0 <= c < k ==> #[trigger] cell(m@, k as int, r, c) == gf_pow(
                    point(r),
                    c as nat,
                ),
        decreases n - row,
    {
        let mut c: usize = 0;
        while c < k
            invariant
                c <= k,
                row < n - 1,
                1 <= k <= n < 256,
                tables.wf(),
                m@.len() == n * k,
                forall|r: int, c2: int|
                    0 <= r <= row && 0 <= c2 < k ==> #[trigger] cell(m@, k as int, r, c2) == gf_pow(
                        point(r),
                        c2 as nat,
                    ),
                forall|c2: int|
                    0 <= c2 < c ==> #[trigger] cell(m@, k as int, row + 1, c2) == gf_pow(
                        point(row + 1),
                        c2 as nat,
                    ),
            decreases k - c,
        {
            proof {
                assert(0 <= row * c <= 65536) by (nonlinear_arith)
                    requires
                        row < 256,
                        c < 256,
                ;
                lemma_pow_pow(2, row as nat, c as nat);
                lemma_pow_period((row * c) as nat);
            }
            let idx: Gf = modnn((row as i32) * (c as i32));
            cell_set(&mut m, k, row + 1, c, tables.exp[idx as usize], Ghost(n as int));
            c = c + 1;
        }
        row = row + 1;
    }
    m
}

/// The coefficients below the leading one of the polynomial whose roots are the points `p`, the
/// first of which is zero.
fn root_coefficients(tables: &GfTables, p: &Vec<Gf>) -> (c: Vec<Gf>)
    requires
        tables.wf(),
        p@.len() >= 1,
        p@[0] == 0,
    ensures
        c@ == poly_from_roots(p@).drop_last(),
{
    let k: usize = p.len();
    let mut c: Vec<Gf> = vec![0u8; k];
    c.set(k - 1, p[0]);
    proof {
        let one = p@.take(1);
        assert(one.drop_last() =~= Seq::empty());
        assert(poly_from_roots(one.drop_last()) =~= seq![1u8]);
        lemma_poly_from_roots(one);
        lemma_constant_term(one);
    }
    let mut i: usize = 1;
    while i < k
        invariant
            tables.wf(),
            k == p@.len(),
            1 <= i <= k,
            p@[0] == 0,
            c@.len() == k,
            poly_from_roots(p@.take(i as int)).len() == i + 1,
            forall|m: int|
                0 <= m < i ==> c@[#[trigger] (k - i + m)] == poly_from_roots(p@.take(i as int))[m],
            forall|j: int| 0 <= j < k - i ==> #[trigger] c@[j] == 0,
        decreases k - i,
    {
        let p_i: Gf = p[i];
        let ghost before = c@;
        let ghost prev = poly_from_roots(p@.take(i as int));
        let ghost next = poly_from_roots(p@.take(i + 1));
        proof {
            let xs = p@.take(i + 1);
            assert(xs.drop_last() =~= p@.take(i as int));
            assert(next == poly_mul_linear(prev, p_i));
            lemma_poly_from_roots(p@.take(i as int));
            lemma_poly_from_roots(xs);
            lemma_constant_term(p@.take(i as int));
            lemma_constant_term(xs);
            lemma_mul_unit(p_i);
        }
        let mut j: usize = k - 1 - (i - 1);
        while j < k - 1
            invariant
                tables.wf(),
                1 <= i < k,
                k - i <= j <= k - 1,
                c@.len() == k,
                before.len() == k,
                forall|m: int| 0 <= m < k - i ==> #[trigger] c@[m] == before[m],
                forall|m: int|
                    k - i <= m < j ==> #[trigger] c@[m] == before[m] ^ gf_mul(p_i, before[m + 1]),
                forall|m: int| j <= m < k ==> #[trigger] c@[m] == before[m],
            decreases k - j,
        {
            let v: Gf = c[j] ^ tables.gf_mul(p_i, c[j + 1]);
            c.set(j, v);
            j = j + 1;
        }
        let last: Gf = c[k - 1] ^ p_i;
        c.set(k - 1, last);
        proof {
            broadcast use lemma_xor;

            assert forall|m: int| 0 <= m < i + 1 implies c@[#[trigger] (k - (i + 1) + m)] == next[m] by {
                let s = k - (i + 1) + m;
                if m == 0 {
                    assert(c@[s] == 0);
                } else {
                    assert(before[k - i + (m - 1)] == prev[m - 1]);
                    if m < i {
                        assert(before[k - i + m] == prev[m]);
                    }
                }
            }
        }
        i = i + 1;
    }
    proof {
        assert(p@.take(k as int) =~= p@);
        lemma_poly_from_roots(p@);
        assert forall|m: int| 0 <= m < k implies c@[m] == poly_from_roots(p@)[m] by {
            assert(c@[k - k + m] == poly_from_roots(p@)[m]);
        }
    }
    c
}

/// A polynomial with zero among its roots has no constant term.
proof fn lemma_constant_term(xs: Seq<u8>)
    requires
        xs.len() > 0,
        xs[0] == 0,
    ensures
        poly_from_roots(xs)[0] == 0,
{
    broadcast use lemma_xor;

    let p = poly_from_roots(xs);
    lemma_poly_from_roots(xs);
    assert(poly_eval(p, xs[0]) == 0);
    lemma_mul_unit(poly_eval(p.skip(1), 0));
}

/// Replaces the first `k` rows of a Vandermonde matrix by their inverse.
fn invert_vdm(tables: &GfTables, src: &mut Vec<Gf>, k: usize, Ghost(rows): Ghost<int>)
    requires
        tables.wf(),
        1 <= k <= rows < 256,
        is_vandermonde(old(src)@, k as int, rows),
    ensures
        final(src)@.len() == rows * k,
        forall|r: int, c: int|
            0 <= r < k && 0 <= c < k ==> #[trigger] cell(final(src)@, k as int, r, c) == lagrange(
                points(k as nat),
                c,
            )[r],
        forall|r: int, c: int|
            k <= r < rows && 0 <= c < k ==> #[trigger] cell(final(src)@, k as int, r, c) == cell(
                old(src)@,
                k as int,
                r,
                c,
            ),
{
    let ghost xs = points(k as nat);
    proof {
        lemma_points_distinct(k as nat);
    }
    if k == 1 {
        proof {
            broadcast use lemma_xor;

            let l = lagrange(xs, 0);
            lemma_lagrange(xs, 0);
            assert(poly_eval(l, xs[0]) == 1);
            lemma_mul_unit(poly_eval(l.skip(1), 0));
            assert(l[0] == 1);
            assert(cell(src@, 1, 0, 0) == gf_pow(point(0), 0));
        }
        return;
    }
    let mut b: Vec<Gf> = vec![0u8; k];
    let mut p: Vec<Gf> = vec![0u8; k];
    let mut i: usize = 0;
    while i < k
        invariant
            i <= k,
            2 <= k <= rows,
            p@.len() == k,
            is_vandermonde(src@, k as int, rows),
            forall|j: int| 0 <= j < i ==> #[trigger] p@[j] == point(j),
        decreases k - i,
    {
        let v: Gf = cell_get(src, k, i, 1, Ghost(rows));
        proof {
            lemma_mul_unit(point(i as int));
            assert(gf_pow(point(i as int), 1) == gf_mul(gf_pow(point(i as int), 0), point(i as int)));
        }
        p.set(i, v);
        i = i + 1;
    }
    assert(p@ =~= xs);
    let c: Vec<Gf> = root_coefficients(tables, &p);
    let ghost full = poly_from_roots(xs);
    proof {
        lemma_poly_from_roots(xs);
    }
    let ghost top = src@;
    let mut row: usize = 0;
    while row < k
        invariant
            row <= k,
            2 <= k <= rows < 256,
            tables.wf(),
            xs == points(k as nat),
            distinct(xs),
            p@ == xs,
            full == poly_from_roots(xs),
            full.len() == k + 1,
            full[k as int] == 1,
            c@ == full.drop_last(),
            b@.len() == k,
            src@.len() == rows * k,
            forall|r: int, j: int|
                0 <= r < k && 0 <= j < row ==> #[trigger] cell(src@, k as int, r, j) == lagrange(
                    xs,
                    j,
                )[r],
            forall|r: int, j: int|
                k <= r < rows && 0 <= j < k ==> #[trigger] cell(src@, k as int, r, j) == cell(
                    top,
                    k as int,
                    r,
                    j,
                ),
        decreases k - row,
    {
        let xx: Gf = p[row];
        let mut t: Gf = 1;
        b.set(k - 1, 1);
        let ghost q = poly_without_root(xs, row as int);
        proof {
            broadcast use lemma_xor;

            lemma_poly_div_coefficients(full, xx);
            assert(q[k - 1] == 1);
            assert(q.skip(k - 1).skip(1).len() == 0);
            assert(poly_eval(q.skip(k - 1).skip(1), xx) == 0);
            lemma_mul_unit(xx);
            assert(poly_eval(q.skip(k - 1), xx) == 1);
        }
        let mut i: usize = k - 1;
        while i >= 1
            invariant
                i <= k - 1,
                2 <= k,
                tables.wf(),
                b@.len() == k,
                q.len() == k,
                full.len() == k + 1,
                c@ == full.drop_last(),
                forall|j: int| 0 <= j < k - 1 ==> #[trigger] q[j] == full[j + 1] ^ gf_mul(xx, q[j + 1]),
                forall|j: int| i <= j < k ==> #[trigger] b@[j] == q[j],
                t == poly_eval(q.skip(i as int), xx),
            decreases i,
        {
            let v: Gf = c[i] ^ tables.gf_mul(xx, b[i]);
            b.set(i - 1, v);
            proof {
                broadcast use lemma_xor;

                assert(q[i - 1] == full[i as int] ^ gf_mul(xx, q[i as int]));
                assert(q.skip(i - 1).skip(1) =~= q.skip(i as int));
            }
            t = tables.gf_mul(xx, t) ^ b[i - 1];
            i = i - 1;
        }
        assert(q.skip(0) =~= q);
        let inv: Gf = tables.inverse_of(t);
        let mut col: usize = 0;
        while col < k
            invariant
                col <= k,
                row < k,
                2 <= k <= rows < 256,
                tables.wf(),
                b@.len() == k,
                b@ == q,
                q == poly_without_root(xs, row as int),
                xs == points(k as nat),
                inv == crate::gf256::gf_inv(poly_eval(q, xs[row as int])),
                src@.len() == rows * k,
                forall|r: int, j: int|
                    0 <= r < k && 0 <= j < row ==> #[trigger] cell(src@, k as int, r, j)
                        == lagrange(xs, j)[r],
                forall|r: int|
                    0 <= r < col ==> #[trigger] cell(src@, k as int, r, row as int) == lagrange(
                        xs,
                        row as int,
                    )[r],
                forall|r: int, j: int|
                    k <= r < rows && 0 <= j < k ==> #[trigger] cell(src@, k as int, r, j) == cell(
                        top,
                        k as int,
                        r,
                        j,
                    ),
            decreases k - col,
        {
            let v: Gf = tables.gf_mul(inv, b[col]);
            cell_set(src, k, col, row, v, Ghost(rows));
            col = col + 1;
        }
        row = row + 1;
    }
}

/// A code with `k` data blocks among `n` blocks.
#[derive(Clone)]
pub struct Fec {
    pub k: u16,
    pub n: u16,
    /// The `n` rows of `k` weights of the data blocks in each block.
    pub enc_matrix: Vec<Gf>,
    pub tables: GfTables,
}

impl Fec {
    /// The weight of data block `j` in block `i`.
    pub open spec fn weight(&self, i: int, j: int) -> u8 {
        cell(self.enc_matrix@, self.k as int, i, j)
    }

    /// The sizes are in range, and each weight is the value at the block's point of the polynomial
    /// that is one at data point `j` and zero at the other data points.
    pub open spec fn wf(&self) -> bool {
        &&& 1 <= self.k <= self.n < 256
        &&& self.tables.wf()
        &&& self.enc_matrix@.len() == self.n * self.k
        &&& forall|i: int, j: int|
            0 <= i < self.n && 0 <= j < self.k ==> #[trigger] self.weight(i, j) == poly_eval(
                lagrange(points(self.k as nat), j),
                point(i),
            )
    }

    /// The weighted sum of the data bytes `d` for block `i` is the coded byte.
    pub proof fn lemma_weights(&self, d: Seq<u8>, i: int)
        requires
            self.wf(),
            d.len() == self.k,
            0 <= i < self.n,
        ensures
            coded(d, i) == gf_sum(|j: int| gf_mul(d[j], self.weight(i, j)), self.k as nat),
    {
        let xs = points(self.k as nat);
        lemma_points_distinct(self.k as nat);
        lemma_interpolate_eval(xs, d, point(i));
        lemma_sum_eq(
            |j: int| gf_mul(d[j], poly_eval(lagrange(xs, j), point(i))),
            |j: int| gf_mul(d[j], self.weight(i, j)),
            self.k as nat,
        );
    }
}

/// The first `k` blocks are the data blocks themselves.
pub proof fn lemma_systematic(d: Seq<u8>, i: int)
    requires
        0 <= i < d.len() <= 256,
    ensures
        coded(d, i) == d[i],
{
    lemma_points_distinct(d.len());
    lemma_interpolate_points(points(d.len()), d, i);
}

/// A code for `k` data blocks among `n` blocks.
pub fn fec_new(k: u16, n: u16) -> (r: Result<Fec, ZfexStatusCode>)
    ensures
        k == 0 || n == 0 || n >= 256 || k > n ==> r == Err::<Fec, ZfexStatusCode>(
            ZfexStatusCode::NullPointerInput,
        ),
        !(k == 0 || n == 0 || n >= 256 || k > n) ==> r is Ok && r->Ok_0.wf() && r->Ok_0.k == k
            && r->Ok_0.n == n,
{
    if k == 0 || n == 0 || n >= 256 || k > n {
        return Err(ZfexStatusCode::NullPointerInput);
    }
    let tables = init_fec();
    let ku: usize = k as usize;
    let nu: usize = n as usize;
    proof {
        assert(nu * ku <= 65536) by (nonlinear_arith)
            requires
                nu < 256,
                ku < 256,
        ;
    }
    let mut enc_matrix: Vec<Gf> = vec![0u8; nu * ku];
    let mut tmp_m: Vec<Gf> = vandermonde(&tables, ku, nu);
    invert_vdm(&tables, &mut tmp_m, ku, Ghost(nu as int));
    matmul(
        &tables,
        &tmp_m,
        ku,
        &tmp_m,
        &mut enc_matrix,
        ku,
        nu - ku,
        ku,
        ku,
        Ghost((nu as int, nu as int, nu as int)),
    );
    let ghost xs = points(k as nat);
    proof {
        lemma_points_distinct(k as nat);
        assert forall|i: int, j: int| k <= i < n && 0 <= j < k implies #[trigger] cell(
            enc_matrix@,
            k as int,
            i,
            j,
        ) == poly_eval(lagrange(xs, j), point(i)) by {
            let l = lagrange(xs, j);
            lemma_lagrange(xs, j);
            lemma_poly_eval_sum(l, point(i));
            let f = |t: int|
                gf_mul(cell(tmp_m@, k as int, ku + (i - ku), t), cell(tmp_m@, k as int, t, j));
            let g = |t: int| gf_mul(l[t], gf_pow(point(i), t as nat));
            assert forall|t: int| 0 <= t < k implies #[trigger] f(t) == g(t) by {
                assert(cell(tmp_m@, k as int, i, t) == gf_pow(point(i), t as nat));
                lemma_mul_comm(gf_pow(point(i), t as nat), l[t]);
            }
            lemma_sum_eq(f, g, k as nat);
        }
    }
    let mut row: usize = 0;
    while row < ku
        invariant
            row <= ku,
            ku == k,
            nu == n,
            1 <= k <= n < 256,
            enc_matrix@.len() == nu * ku,
            forall|i: int, j: int|
                0 <= i < row && 0 <= j < k ==> #[trigger] cell(enc_matrix@, k as int, i, j) == 0,
            forall|i: int, j: int|
                k <= i < n && 0 <= j < k ==> #[trigger] cell(enc_matrix@, k as int, i, j)
                    == poly_eval(lagrange(xs, j), point(i)),
        decreases ku - row,
    {
        let mut c: usize = 0;
        while c < ku
            invariant
                c <= ku,
                row < ku,
                ku == k,
                nu == n,
                1 <= k <= n < 256,
                enc_matrix@.len() == nu * ku,
                forall|i: int, j: int|
                    0 <= i < row && 0 <= j < k ==> #[trigger] cell(enc_matrix@, k as int, i, j)
                        == 0,
                forall|j: int|
                    0 <= j < c ==> #[trigger] cell(enc_matrix@, k as int, row as int, j) == 0,
                forall|i: int, j: int|
                    k <= i < n && 0 <= j < k ==> #[trigger] cell(enc_matrix@, k as int, i, j)
                        == poly_eval(lagrange(xs, j), point(i)),
            decreases ku - c,
        {
            cell_set(&mut enc_matrix, ku, row, c, 0, Ghost(nu as int));
            c = c + 1;
        }
        row = row + 1;
    }
    let mut col: usize = 0;
    while col < ku
        invariant
            col <= ku,
            ku == k,
            nu == n,
            1 <= k <= n < 256,
            enc_matrix@.len() == nu * ku,
            forall|i: int, j: int|
                0 <= i < k && 0 <= j < k ==> #[trigger] cell(enc_matrix@, k as int, i, j) == (if i
                    == j && i < col {
                    1u8
                } else {
                    0u8
                }),
            forall|i: int, j: int|
                k <= i < n && 0 <= j < k ==> #[trigger] cell(enc_matrix@, k as int, i, j)
                    == poly_eval(lagrange(xs, j), point(i)),
        decreases ku - col,
    {
        cell_set(&mut enc_matrix, ku, col, col, 1, Ghost(nu as int));
        col = col + 1;
    }
    let code = Fec { k, n, enc_matrix, tables };
    proof {
        assert forall|i: int, j: int| 0 <= i < n && 0 <= j < k implies #[trigger] code.weight(i, j)
            == poly_eval(lagrange(xs, j), point(i)) by {
            if i < k {
                lemma_lagrange(xs, j);
                assert(xs[i] == point(i));
            }
        }
    }
    Ok(code)
}

/// Gives up a code.
pub fn fec_free(_fec: Fec) -> (r: ZfexStatusCode)
    ensures
        r == ZfexStatusCode::Success,
{
    ZfexStatusCode::Success
}

/// Bytes `offset..offset + sz` of `dst` gain `c` times those of `src`.
spec fn added(before: Seq<u8>, src: Seq<u8>, offset: int, sz: int, c: u8) -> Seq<u8> {
    Seq::new(
        before.len(),
        |i: int|
            if offset <= i < offset + sz {
                before[i] ^ gf_mul(src[i], c)
            } else {
                before[i]
            },
    )
}

proof fn lemma_added_zero(before: Seq<u8>, src: Seq<u8>, offset: int, sz: int)
    ensures
        added(before, src, offset, sz, 0) == before,
{
    broadcast use lemma_xor;

    assert forall|i: int| 0 <= i < before.len() implies #[trigger] added(
        before,
        src,
        offset,
        sz,
        0,
    )[i] == before[i] by {
        lemma_mul_unit(src[i]);
    }
    assert(added(before, src, offset, sz, 0) =~= before);
}

fn addmul_scalar(tables: &GfTables, dst: &mut Vec<Gf>, src: &Vec<Gf>, offset: usize, c: Gf, sz: usize)
    requires
        tables.wf(),
        offset + sz <= old(dst)@.len(),
        offset + sz <= src@.len(),
        old(dst)@.len() <= usize::MAX,
    ensures
        final(dst)@ == added(old(dst)@, src@, offset as int, sz as int, c),
{
    let ghost before = dst@;
    if c == 0 {
        proof {
            lemma_added_zero(before, src@, offset as int, sz as int);
        }
        return;
    }
    let mut i: usize = 0;
    while i < sz
        invariant
            i <= sz,
            tables.wf(),
            offset + sz <= before.len() <= usize::MAX,
            offset + sz <= src@.len(),
            dst@ == added(before, src@, offset as int, i as int, c),
        decreases sz - i,
    {
        let v: Gf = tables.gf_mul(src[offset + i], c);
        let w: Gf = dst[offset + i] ^ v;
        dst.set(offset + i, w);
        i = i + 1;
        assert(dst@ =~= added(before, src@, offset as int, i as int, c));
    }
    assert(added(before, src@, offset as int, sz as int, c) =~= dst@);
}

proof fn lemma_bits_nibbles(x: u8)
    by (bit_vector)
    ensures
        (x & 15) ^ ((x >> 4) << 4) == x,
        (x >> 4) << 4 == (x >> 4) * 16,
        x & 15 < 16,
        x >> 4 < 16,
{
}

/// As `addmul_scalar`, sixteen bytes at a time, each product put together from those of the two
/// halves of the byte.
fn addmul_nibbles(tables: &GfTables, dst: &mut Vec<Gf>, src: &Vec<Gf>, offset: usize, c: Gf, sz: usize)
    requires
        tables.wf(),
        offset + sz <= old(dst)@.len(),
        offset + sz <= src@.len(),
        old(dst)@.len() <= usize::MAX,
    ensures
        final(dst)@ == added(old(dst)@, src@, offset as int, sz as int, c),
{
    let ghost before = dst@;
    let mut i: usize = 0;
    assert(dst@ =~= added(before, src@, offset as int, 0, c));
    while sz - i >= 16
        invariant
            i <= sz,
            tables.wf(),
            offset + sz <= before.len() <= usize::MAX,
            offset + sz <= src@.len(),
            dst@ == added(before, src@, offset as int, i as int, c),
        decreases sz - i,
    {
        let mut lane: usize = 0;
        while lane < 16
            invariant
                lane <= 16,
                i + 16 <= sz,
                tables.wf(),
                offset + sz <= before.len() <= usize::MAX,
                offset + sz <= src@.len(),
                dst@ == added(before, src@, offset as int, i + lane, c),
            decreases 16 - lane,
        {
            let at: usize = offset + i + lane;
            let x: Gf = src[at];
            proof {
                lemma_bits_nibbles(x);
                crate::gf256::lemma_mul_dist(c, x & 15, (x >> 4) << 4);
                lemma_mul_comm(c, x);
                let lo = c * 256 + (x & 15);
                let hi = c * 16 + (x >> 4);
                assert(lo / 256 == c && lo % 256 == x & 15);
                assert(hi / 16 == c && hi % 16 == x >> 4);
            }
            let lo: Gf = tables.mul[c as usize * 256 + (x & 15) as usize];
            let hi: Gf = tables.mul_16[c as usize * 16 + (x >> 4) as usize];
            let w: Gf = dst[at] ^ (lo ^ hi);
            dst.set(at, w);
            lane = lane + 1;
            assert(dst@ =~= added(before, src@, offset as int, i + lane, c));
        }
        i = i + 16;
    }
    if i < sz {
        let ghost middle = dst@;
        addmul_scalar(tables, dst, src, offset + i, c, sz - i);
        assert(dst@ =~= added(before, src@, offset as int, sz as int, c));
    }
}

/// Whether the byte `offset` bytes into a block begins a vector.
fn is_aligned(addr: usize, offset: usize) -> (r: bool)
    ensures
        r == ((addr + offset) % 16 == 0),
{
    (addr % ZFEX_SIMD_ALIGNMENT + offset % ZFEX_SIMD_ALIGNMENT) % ZFEX_SIMD_ALIGNMENT == 0
}

fn addmul(tables: &GfTables, dst: &mut Block, src: &Block, offset: usize, c: Gf, sz: usize)
    requires
        tables.wf(),
        offset + sz <= old(dst).data@.len(),
        offset + sz <= src.data@.len(),
    ensures
        final(dst).addr == old(dst).addr,
        final(dst).data@ == added(old(dst).data@, src.data@, offset as int, sz as int, c),
{
    let ghost before = dst.data@;
    assert(dst.data.len() <= usize::MAX);
    if c == 0 {
        proof {
            lemma_added_zero(before, src.data@, offset as int, sz as int);
        }
        return;
    }
    if sz >= ZFEX_SIMD_ALIGNMENT && is_aligned(dst.addr, offset) && is_aligned(src.addr, offset) {
        addmul_nibbles(tables, &mut dst.data, &src.data, offset, c, sz);
        return;
    }
    addmul_scalar(tables, &mut dst.data, &src.data, offset, c, sz);
}

/// The sum of byte `b` of the first `k` blocks, each weighted by its entry in a row of a matrix.
pub open spec fn combined(
    matrix: Seq<u8>,
    k: int,
    row: int,
    inpkts: Seq<&Block>,
    b: int,
    count: nat,
) -> u8 {
    gf_sum(|j: int| gf_mul(inpkts[j].data@[b], cell(matrix, k, row, j)), count)
}

/// Overwrites bytes `offset..offset + sz` of `out` with the weighted sum of the blocks.
fn combine(
    tables: &GfTables,
    matrix: &Vec<Gf>,
    k: usize,
    row: usize,
    inpkts: &Vec<&Block>,
    out: &mut Block,
    offset: usize,
    sz: usize,
    Ghost(rows): Ghost<int>,
)
    requires
        tables.wf(),
        matrix@.len() == rows * k,
        row < rows,
        k <= inpkts@.len(),
        offset + sz <= old(out).data@.len(),
        forall|j: int| 0 <= j < k ==> offset + sz <= (#[trigger] inpkts@[j]).data@.len(),
    ensures
        final(out).addr == old(out).addr,
        final(out).data@.len() == old(out).data@.len(),
        forall|b: int|
            0 <= b < old(out).data@.len() ==> #[trigger] final(out).data@[b] == (if offset <= b < offset
                + sz {
                combined(matrix@, k as int, row as int, inpkts@, b, k as nat)
            } else {
                old(out).data@[b]
            }),
{
    let ghost before = out.data@;
    assert(out.data.len() <= usize::MAX);
    let mut i: usize = 0;
    while i < sz
        invariant
            i <= sz,
            out.addr == old(out).addr,
            offset + sz <= out.data@.len() <= usize::MAX,
            out.data@.len() == before.len(),
            forall|b: int|
                0 <= b < before.len() ==> #[trigger] out.data@[b] == (if offset <= b < offset + i {
                    0u8
                } else {
                    before[b]
                }),
        decreases sz - i,
    {
        out.data.set(offset + i, 0);
        i = i + 1;
    }
    let mut j: usize = 0;
    while j < k
        invariant
            j <= k,
            tables.wf(),
            matrix@.len() == rows * k,
            row < rows,
            k <= inpkts@.len(),
            out.addr == old(out).addr,
            offset + sz <= out.data@.len(),
            out.data@.len() == before.len(),
            forall|t: int| 0 <= t < k ==> offset + sz <= (#[trigger] inpkts@[t]).data@.len(),
            forall|b: int|
                0 <= b < before.len() ==> #[trigger] out.data@[b] == (if offset <= b < offset + sz {
                    combined(matrix@, k as int, row as int, inpkts@, b, j as nat)
                } else {
                    before[b]
                }),
        decreases k - j,
    {
        let c: Gf = cell_get(matrix, k, row, j, Ghost(rows));
        addmul(tables, out, inpkts[j], offset, c, sz);
        j = j + 1;
    }
}

/// Byte `b` of each of the first `k` blocks.
pub open spec fn column(pkts: Seq<&Block>, k: nat, b: int) -> Seq<u8> {
    Seq::new(k, |j: int| pkts[j].data@[b])
}

pub open spec fn aligned(b: Block) -> bool {
    b.addr % ZFEX_SIMD_ALIGNMENT == 0
}

/// Whether the first `k` blocks are aligned.
fn inputs_aligned(inpkts: &Vec<&Block>, k: usize) -> (r: bool)
    requires
        inpkts@.len() >= k,
    ensures
        r == !exists|j: int| 0 <= j < k && !aligned(*#[trigger] inpkts@[j]),
{
    let mut ix: usize = 0;
    while ix < k
        invariant
            ix <= k,
            inpkts@.len() >= k,
            forall|j: int| 0 <= j < ix ==> aligned(*#[trigger] inpkts@[j]),
        decreases k - ix,
    {
        if inpkts[ix].addr % ZFEX_SIMD_ALIGNMENT != 0 {
            assert(!aligned(*inpkts@[ix as int]));
            return false;
        }
        ix = ix + 1;
    }
    true
}

/// Computes the first `sz` bytes of the `n - k` check blocks of `k` data blocks.
pub fn fec_encode_simd(code: &Fec, inpkts: &Vec<&Block>, fecs: &mut Vec<Block>, sz: usize) -> (r:
    ZfexStatusCode)
    requires
        code.wf(),
        inpkts@.len() >= code.k,
        old(fecs)@.len() >= code.n - code.k,
        forall|j: int| 0 <= j < code.k ==> (#[trigger] inpkts@[j]).data@.len() >= sz,
        forall|i: int| 0 <= i < code.n - code.k ==> (#[trigger] old(fecs)@[i]).data@.len() >= sz,
    ensures
        r == (if exists|j: int| 0 <= j < code.k && !aligned(*#[trigger] inpkts@[j]) {
            ZfexStatusCode::BadInputBlockAlignment
        } else if exists|i: int| 0 <= i < code.n - code.k && !aligned(#[trigger] old(fecs)@[i]) {
            ZfexStatusCode::BadOutputBlockAlignment
        } else {
            ZfexStatusCode::Success
        }),
        r != ZfexStatusCode::Success ==> final(fecs)@ == old(fecs)@,
        final(fecs)@.len() == old(fecs)@.len(),
        forall|i: int|
            code.n - code.k <= i < old(fecs)@.len() ==> #[trigger] final(fecs)@[i] == old(fecs)@[i],
        forall|i: int|
            0 <= i < old(fecs)@.len() ==> (#[trigger] final(fecs)@[i]).addr == old(fecs)@[i].addr
                && final(fecs)@[i].data@.len() == old(fecs)@[i].data@.len(),
        r == ZfexStatusCode::Success ==> forall|i: int, b: int|
            0 <= i < code.n - code.k && 0 <= b < old(fecs)@[i].data@.len()
                ==> #[trigger] final(fecs)@[i].data@[b] == (if b < sz {
                coded(column(inpkts@, code.k as nat, b), code.k + i)
            } else {
                old(fecs)@[i].data@[b]
            }),
{
    let k: usize = code.k as usize;
    let n: usize = code.n as usize;
    if !inputs_aligned(inpkts, k) {
        return ZfexStatusCode::BadInputBlockAlignment;
    }
    let mut ix: usize = 0;
    while ix < n - k
        invariant
            ix <= n - k,
            k == code.k,
            n == code.n,
            k <= n,
            fecs@.len() >= n - k,
            fecs@ == old(fecs)@,
            forall|j: int| 0 <= j < k ==> aligned(*#[trigger] inpkts@[j]),
            forall|i: int| 0 <= i < ix ==> aligned(#[trigger] fecs@[i]),
        decreases n - k - ix,
    {
        if fecs[ix].addr % ZFEX_SIMD_ALIGNMENT != 0 {
            assert(!aligned(fecs@[ix as int]));
            return ZfexStatusCode::BadOutputBlockAlignment;
        }
        ix = ix + 1;
    }
    let ghost before = fecs@;
    let mut offset: usize = 0;
    while offset < sz
        invariant
            offset <= sz,
            code.wf(),
            k == code.k,
            n == code.n,
            inpkts@.len() >= k,
            before == old(fecs)@,
            before.len() == fecs@.len(),
            fecs@.len() >= n - k,
            forall|j: int| 0 <= j < k ==> (#[trigger] inpkts@[j]).data@.len() >= sz,
            forall|i: int| 0 <= i < n - k ==> (#[trigger] before[i]).data@.len() >= sz,
            forall|i: int|
                0 <= i < before.len() ==> (#[trigger] fecs@[i]).addr == before[i].addr
                    && fecs@[i].data@.len() == before[i].data@.len(),
            forall|i: int| n - k <= i < before.len() ==> #[trigger] fecs@[i] == before[i],
            forall|i: int, b: int|
                0 <= i < n - k && 0 <= b < before[i].data@.len() ==> #[trigger] fecs@[i].data@[b]
                    == (if b < offset {
                    coded(column(inpkts@, k as nat, b), k + i)
                } else {
                    before[i].data@[b]
                }),
        decreases sz - offset,
    {
        let stride: usize = if sz - offset < ZFEX_STRIDE {
            sz - offset
        } else {
            ZFEX_STRIDE
        };
        let mut i: usize = 0;
        while i < n - k
            invariant
                i <= n - k,
                offset + stride <= sz,
                code.wf(),
                k == code.k,
                n == code.n,
                inpkts@.len() >= k,
                before.len() == fecs@.len(),
                fecs@.len() >= n - k,
                forall|j: int| 0 <= j < k ==> (#[trigger] inpkts@[j]).data@.len() >= sz,
                forall|i2: int| 0 <= i2 < n - k ==> (#[trigger] before[i2]).data@.len() >= sz,
                forall|i2: int|
                    0 <= i2 < before.len() ==> (#[trigger] fecs@[i2]).addr == before[i2].addr
                        && fecs@[i2].data@.len() == before[i2].data@.len(),
                forall|i2: int| n - k <= i2 < before.len() ==> #[trigger] fecs@[i2] == before[i2],
                forall|i2: int, b: int|
                    0 <= i2 < n - k && 0 <= b < before[i2].data@.len()
                        ==> #[trigger] fecs@[i2].data@[b] == (if b < offset || (i2 < i && b < offset
                        + stride) {
                        coded(column(inpkts@, k as nat, b), k + i2)
                    } else {
                        before[i2].data@[b]
                    }),
            decreases n - k - i,
        {
            combine(
                &code.tables,
                &code.enc_matrix,
                k,
                k + i,
                inpkts,
                &mut fecs[i],
                offset,
                stride,
                Ghost(n as int),
            );
            proof {
                assert forall|b: int| 0 <= b < sz implies #[trigger] combined(
                    code.enc_matrix@,
                    k as int,
                    k + i,
                    inpkts@,
                    b,
                    k as nat,
                ) == coded(column(inpkts@, k as nat, b), k + i) by {
                    let d = column(inpkts@, k as nat, b);
                    code.lemma_weights(d, k + i);
                    lemma_sum_eq(
                        |j: int| gf_mul(d[j], code.weight(k + i, j)),
                        |j: int|
                            gf_mul(inpkts@[j].data@[b], cell(code.enc_matrix@, k as int, k + i, j)),
                        k as nat,
                    );
                }
            }
            i = i + 1;
        }
        offset = offset + stride;
    }
    ZfexStatusCode::Success
}

/// The number of the first `k` places that do not hold their own index.
pub open spec fn unplaced(index: Seq<u32>, k: nat) -> nat
    decreases k,
{
    if k == 0 {
        0
    } else {
        unplaced(index, (k - 1) as nat) + if index[k - 1] == k - 1 {
            0nat
        } else {
            1nat
        }
    }
}

pub proof fn lemma_unplaced_update(index: Seq<u32>, k: nat, p: int, v: u32)
    requires
        0 <= p < index.len(),
        k <= index.len(),
    ensures
        p >= k ==> unplaced(index.update(p, v), k) == unplaced(index, k),
        p < k ==> unplaced(index.update(p, v), k) + (if index[p] == p {
            0nat
        } else {
            1nat
        }) == unplaced(index, k) + (if v == p {
            0nat
        } else {
            1nat
        }),
    decreases k,
{
    if k > 0 {
        lemma_unplaced_update(index, (k - 1) as nat, p, v);
    }
}

/// Two places exchanged.
pub open spec fn exchanged<T>(s: Seq<T>, i: int, j: int) -> Seq<T> {
    s.update(i, s[j]).update(j, s[i])
}

/// Blocks and indices after those at places `i` and up, below `k`, have been put in their places,
/// and whether that went through: it stops where the place of an index is taken.
pub open spec fn shuffled<T>(pkt: Seq<T>, index: Seq<u32>, i: int, k: int) -> (Seq<T>, Seq<u32>, bool)
    decreases k - i, unplaced(index, k as nat),
{
    if !(0 <= i < k <= index.len()) {
        (pkt, index, true)
    } else if index[i] >= k || index[i] == i {
        shuffled(pkt, index, i + 1, k)
    } else if index[index[i] as int] == index[i] {
        (pkt, index, false)
    } else {
        proof {
            let c = index[i] as int;
            lemma_unplaced_update(index, k as nat, i, index[c]);
            lemma_unplaced_update(index.update(i, index[c]), k as nat, c, index[i]);
        }
        shuffled(
            exchanged(pkt, i, index[i] as int),
            exchanged(index, i, index[i] as int),
            i,
            k,
        )
    }
}

/// Some index below `k` occurs twice among the first `k`.
pub open spec fn data_index_repeated(index: Seq<u32>, k: int) -> bool {
    exists|i: int, j: int|
        0 <= i < j < k && #[trigger] index[i] == #[trigger] index[j] && index[i] < k
}

/// None of the first `k` indices occurs twice.
pub open spec fn indices_distinct(index: Seq<u32>, k: int) -> bool {
    forall|i: int, j: int| 0 <= i < j < k ==> #[trigger] index[i] != #[trigger] index[j]
}

/// What shuffling does: it moves blocks along with their indices, puts every index of a data block
/// in its place, and fails exactly if such an index occurs twice.
pub proof fn lemma_shuffled<T>(
    pkt: Seq<T>,
    index: Seq<u32>,
    i: int,
    k: int,
    holds: spec_fn(T, u32) -> bool,
)
    requires
        0 <= i <= k <= index.len(),
        k <= pkt.len(),
        forall|r: int| 0 <= r < k ==> #[trigger] holds(pkt[r], index[r]),
        forall|r: int| 0 <= r < i ==> #[trigger] index[r] >= k || index[r] == r,
    ensures
        ({
            let (p, x, ok) = shuffled(pkt, index, i, k);
            &&& p.len() == pkt.len()
            &&& x.len() == index.len()
            &&& forall|r: int| 0 <= r < k ==> #[trigger] holds(p[r], x[r])
            &&& ok ==> forall|r: int| 0 <= r < k ==> #[trigger] x[r] >= k || x[r] == r
            &&& ok == !data_index_repeated(index, k)
            &&& indices_distinct(index, k) ==> indices_distinct(x, k)
            &&& forall|r: int| k <= r < index.len() ==> #[trigger] x[r] == index[r]
            &&& forall|r: int| k <= r < pkt.len() ==> #[trigger] p[r] == pkt[r]
        }),
    decreases k - i, unplaced(index, k as nat),
{
    if i < k {
        if index[i] >= k || index[i] == i {
            lemma_shuffled(pkt, index, i + 1, k, holds);
        } else {
            let c = index[i] as int;
            if index[c] == c {
                if i < c {
                    assert(index[i] == index[c]);
                } else {
                    assert(index[c] == index[i]);
                }
                assert(data_index_repeated(index, k));
            } else {
                let p2 = exchanged(pkt, i, c);
                let x2 = exchanged(index, i, c);
                lemma_unplaced_update(index, k as nat, i, index[c]);
                lemma_unplaced_update(index.update(i, index[c]), k as nat, c, index[i]);
                assert forall|r: int| 0 <= r < k implies #[trigger] holds(p2[r], x2[r]) by {
                    let s = if r == i {
                        c
                    } else if r == c {
                        i
                    } else {
                        r
                    };
                    assert(holds(pkt[s], index[s]));
                }
                lemma_shuffled(p2, x2, i, k, holds);
                lemma_exchanged_repeats(index, k, i, c);
            }
        }
    } else {
        if data_index_repeated(index, k) {
            let (a, b) = choose|a: int, b: int|
                0 <= a < b < k && #[trigger] index[a] == #[trigger] index[b] && index[a] < k;
            assert(index[a] == a);
            assert(index[b] == b);
        }
    }
}

proof fn lemma_exchanged_repeats(index: Seq<u32>, k: int, i: int, c: int)
    requires
        0 <= i < k <= index.len(),
        0 <= c < k,
        i != c,
    ensures
        data_index_repeated(exchanged(index, i, c), k) == data_index_repeated(index, k),
        indices_distinct(index, k) ==> indices_distinct(exchanged(index, i, c), k),
{
    let x = exchanged(index, i, c);
    lemma_exchanged_repeated(index, k, i, c);
    assert(exchanged(x, i, c) =~= index);
    lemma_exchanged_repeated(x, k, i, c);
}

proof fn lemma_exchanged_repeated(index: Seq<u32>, k: int, i: int, c: int)
    requires
        0 <= i < k <= index.len(),
        0 <= c < k,
        i != c,
    ensures
        data_index_repeated(index, k) ==> data_index_repeated(exchanged(index, i, c), k),
{
    if data_index_repeated(index, k) {
        let x = exchanged(index, i, c);
        let (a, b) = choose|a: int, b: int|
            0 <= a < b < k && #[trigger] index[a] == #[trigger] index[b] && index[a] < k;
        let a2 = if a == i {
            c
        } else if a == c {
            i
        } else {
            a
        };
        let b2 = if b == i {
            c
        } else if b == c {
            i
        } else {
            b
        };
        assert(x[a2] == index[a] && x[b2] == index[b]);
        if a2 < b2 {
            assert(x[a2] == x[b2]);
        } else {
            assert(x[b2] == x[a2]);
        }
    }
}

/// Blocks that are in their places stay there.
pub proof fn lemma_shuffled_placed<T>(pkt: Seq<T>, index: Seq<u32>, i: int, k: int)
    requires
        0 <= i,
        forall|r: int| i <= r < k ==> #[trigger] index[r] >= k || index[r] == r,
    ensures
        shuffled(pkt, index, i, k) == (pkt, index, true),
    decreases k - i,
{
    if 0 <= i < k <= index.len() {
        lemma_shuffled_placed(pkt, index, i + 1, k);
    }
}

/// Puts each data block in the place that its index names.
fn shuffle<'a>(pkt: &mut Vec<&'a Block>, index: &mut Vec<u32>, k: usize) -> (r: ZfexStatusCode)
    requires
        k <= old(pkt)@.len(),
        k <= old(index)@.len(),
        k < 256,
    ensures
        ({
            let (p, x, ok) = shuffled(old(pkt)@, old(index)@, 0, k as int);
            &&& final(pkt)@ == p
            &&& final(index)@ == x
            &&& r == (if ok {
                ZfexStatusCode::Success
            } else {
                ZfexStatusCode::DecodeInvalidBlockIndex
            })
        }),
{
    let mut i: usize = 0;
    while i < k
        invariant
            i <= k,
            k < 256,
            k <= pkt@.len(),
            k <= index@.len(),
            shuffled(pkt@, index@, i as int, k as int) == shuffled(
                old(pkt)@,
                old(index)@,
                0,
                k as int,
            ),
        decreases k - i, unplaced(index@, k as nat),
    {
        if index[i] >= k as u32 || index[i] == i as u32 {
            i = i + 1;
        } else {
            let c: usize = index[i] as usize;
            if index[c] == c as u32 {
                return ZfexStatusCode::DecodeInvalidBlockIndex;
            }
            proof {
                lemma_unplaced_update(index@, k as nat, i as int, index@[c as int]);
                lemma_unplaced_update(
                    index@.update(i as int, index@[c as int]),
                    k as nat,
                    c as int,
                    index@[i as int],
                );
            }
            let (a, b): (u32, u32) = (index[i], index[c]);
            index.set(i, b);
            index.set(c, a);
            let (pa, pb) = (pkt[i], pkt[c]);
            pkt.set(i, pb);
            pkt.set(c, pa);
        }
    }
    ZfexStatusCode::Success
}

/// The weights of the data blocks in the blocks with these indices.
pub open spec fn decode_matrix(code: &Fec, index: Seq<u32>) -> Seq<Seq<u8>> {
    Seq::new(
        code.k as nat,
        |r: int|
            Seq::new(
                code.k as nat,
                |c: int|
                    if index[r] < code.k {
                        if r == c {
                            1u8
                        } else {
                            0u8
                        }
                    } else {
                        code.weight(index[r] as int, c)
                    },
            ),
    )
}

fn build_decode_matrix_into_space(code: &Fec, index: &Vec<u32>, k: usize, matrix: &mut Vec<Gf>)
    requires
        code.wf(),
        k == code.k,
        k <= index@.len(),
        old(matrix)@.len() == k * k,
        forall|i: int| 0 <= i < k ==> #[trigger] index@[i] < code.n,
    ensures
        final(matrix)@.len() == k * k,
        rows(final(matrix)@, k as nat) == inverse_matrix(decode_matrix(code, index@)),
{
    let mut i: usize = 0;
    while i < k
        invariant
            i <= k,
            code.wf(),
            k == code.k,
            k <= index@.len(),
            matrix@.len() == k * k,
            forall|r: int| 0 <= r < k ==> #[trigger] index@[r] < code.n,
            forall|r: int, c: int|
                0 <= r < i && 0 <= c < k ==> #[trigger] cell(matrix@, k as int, r, c)
                    == decode_matrix(code, index@)[r][c],
        decreases k - i,
    {
        let mut col: usize = 0;
        while col < k
            invariant
                i < k,
                col <= k,
                code.wf(),
                k == code.k,
                k <= index@.len(),
                matrix@.len() == k * k,
                forall|r: int| 0 <= r < k ==> #[trigger] index@[r] < code.n,
                forall|r: int, c: int|
                    0 <= r < k && 0 <= c < k && (r < i || (r == i && c < col)) ==> #[trigger] cell(
                        matrix@,
                        k as int,
                        r,
                        c,
                    ) == decode_matrix(code, index@)[r][c],
            decreases k - col,
        {
            let v: Gf = if index[i] < code.k as u32 {
                if i == col {
                    1
                } else {
                    0
                }
            } else {
                cell_get(&code.enc_matrix, k, index[i] as usize, col, Ghost(code.n as int))
            };
            cell_set(matrix, k, i, col, v, Ghost(k as int));
            col = col + 1;
        }
        i = i + 1;
    }
    assert(rows(matrix@, k as nat) =~~= decode_matrix(code, index@));
    invert_mat(&code.tables, matrix, k);
}

/// The number of check blocks among the first `row` places.
pub open spec fn checks_before(index: Seq<u32>, k: int, row: int) -> int
    decreases row,
{
    if row <= 0 {
        0
    } else {
        checks_before(index, k, row - 1) + if index[row - 1] >= k {
            1int
        } else {
            0int
        }
    }
}

pub proof fn lemma_checks_before(index: Seq<u32>, k: int, row: int, end: int)
    requires
        0 <= row <= end,
    ensures
        0 <= checks_before(index, k, row) <= checks_before(index, k, end),
        row < end && index[row] >= k ==> checks_before(index, k, row) < checks_before(index, k, end),
    decreases end,
{
    if row < end {
        lemma_checks_before(index, k, row, end - 1);
    } else if row > 0 {
        lemma_checks_before(index, k, row - 1, end - 1);
    }
}

/// Byte `b` of data block `row`, found from blocks in their places.
pub open spec fn recovered(code: &Fec, inpkts: Seq<&Block>, index: Seq<u32>, row: int, b: int) -> u8 {
    dot(inverse_matrix(decode_matrix(code, index))[row], column(inpkts, code.k as nat, b))
}

/// The points of the blocks with these indices.
pub open spec fn index_points(index: Seq<u32>, k: nat) -> Seq<u8> {
    Seq::new(k, |r: int| point(index[r] as int))
}

proof fn lemma_checks_update(index: Seq<u32>, k: int, row: int, p: int, v: u32)
    requires
        0 <= p < index.len(),
        0 <= row <= index.len(),
    ensures
        p >= row ==> checks_before(index.update(p, v), k, row) == checks_before(index, k, row),
        p < row ==> checks_before(index.update(p, v), k, row) + (if index[p] >= k {
            1int
        } else {
            0int
        }) == checks_before(index, k, row) + (if v >= k {
            1int
        } else {
            0int
        }),
    decreases row,
{
    if row > 0 {
        lemma_checks_update(index, k, row - 1, p, v);
    }
}

/// Shuffling does not change how many check blocks there are.
pub proof fn lemma_shuffled_checks<T>(pkt: Seq<T>, index: Seq<u32>, i: int, k: int)
    requires
        0 <= i <= k <= index.len(),
    ensures
        checks_before(shuffled(pkt, index, i, k).1, k, k) == checks_before(index, k, k),
    decreases k - i, unplaced(index, k as nat),
{
    if i < k {
        if index[i] >= k || index[i] == i {
            lemma_shuffled_checks(pkt, index, i + 1, k);
        } else if index[index[i] as int] != index[i] {
            let c = index[i] as int;
            lemma_unplaced_update(index, k as nat, i, index[c]);
            lemma_unplaced_update(index.update(i, index[c]), k as nat, c, index[i]);
            lemma_checks_update(index, k, k, i, index[c]);
            lemma_checks_update(index.update(i, index[c]), k, k, c, index[i]);
            lemma_shuffled_checks(exchanged(pkt, i, c), exchanged(index, i, c), i, k);
        }
    }
}

/// The data block at place `row` is rebuilt into output `checks_before(index, k, row)`, provided
/// that this output and the ones before it are aligned.
pub open spec fn output_reached(outpkts: Seq<Block>, o: int) -> bool {
    forall|o2: int| 0 <= o2 <= o ==> aligned(#[trigger] outpkts[o2])
}

/// Rebuilds the first `sz` bytes of the data blocks that are missing among `k` received blocks.
///
/// The received blocks are first put in order: a data block goes to the place that its index names,
/// and the check blocks take the places of the missing data blocks.
pub fn fec_decode_simd<'a>(
    code: &Fec,
    inpkts: &mut Vec<&'a Block>,
    outpkts: &mut Vec<Block>,
    index: &mut Vec<u32>,
    sz: usize,
) -> (r: ZfexStatusCode)
    requires
        code.wf(),
        old(inpkts)@.len() >= code.k,
        old(index)@.len() >= code.k,
        data_index_repeated(old(index)@, code.k as int) || forall|i: int|
            0 <= i < code.k ==> #[trigger] old(index)@[i] < code.n,
        old(outpkts)@.len() >= checks_before(old(index)@, code.k as int, code.k as int),
        forall|j: int| 0 <= j < code.k ==> (#[trigger] old(inpkts)@[j]).data@.len() >= sz,
        forall|o: int| 0 <= o < old(outpkts)@.len() ==> (#[trigger] old(outpkts)@[o]).data@.len() >= sz,
    ensures
        ({
            let k = code.k as int;
            let (p, x, ok) = shuffled(old(inpkts)@, old(index)@, 0, k);
            let count = checks_before(x, k, k);
            &&& final(inpkts)@ == p
            &&& final(index)@ == x
            &&& ok == !data_index_repeated(old(index)@, k)
            &&& r == (if !ok {
                ZfexStatusCode::DecodeInvalidBlockIndex
            } else if exists|j: int| 0 <= j < k && !aligned(*#[trigger] p[j]) {
                ZfexStatusCode::BadInputBlockAlignment
            } else if exists|o: int| 0 <= o < count && !aligned(#[trigger] old(outpkts)@[o]) {
                ZfexStatusCode::BadOutputBlockAlignment
            } else {
                ZfexStatusCode::Success
            })
            &&& final(outpkts)@.len() == old(outpkts)@.len()
            &&& forall|o: int|
                0 <= o < old(outpkts)@.len() ==> (#[trigger] final(outpkts)@[o]).addr == old(
                    outpkts,
                )@[o].addr && final(outpkts)@[o].data@.len() == old(outpkts)@[o].data@.len()
            &&& r == ZfexStatusCode::DecodeInvalidBlockIndex || r
                == ZfexStatusCode::BadInputBlockAlignment ==> final(outpkts)@ == old(outpkts)@
            &&& forall|o: int|
                0 <= o < old(outpkts)@.len() && (o >= count || !output_reached(old(outpkts)@, o))
                    ==> #[trigger] final(outpkts)@[o] == old(outpkts)@[o]
            &&& r == ZfexStatusCode::Success || r == ZfexStatusCode::BadOutputBlockAlignment
                ==> forall|row: int, b: int|
                #![trigger recovered(code, p, x, row, b)]
                0 <= row < k && x[row] >= k && output_reached(
                    old(outpkts)@,
                    checks_before(x, k, row),
                ) && 0 <= b < sz ==> final(outpkts)@[checks_before(x, k, row)].data@[b]
                    == recovered(code, p, x, row, b)
            &&& forall|o: int, b: int|
                0 <= o < old(outpkts)@.len() && sz <= b < old(outpkts)@[o].data@.len()
                    ==> #[trigger] final(outpkts)@[o].data@[b] == old(outpkts)@[o].data@[b]
        }),
{
    let k: usize = code.k as usize;
    let ghost p = shuffled(inpkts@, index@, 0, k as int).0;
    let ghost x = shuffled(inpkts@, index@, 0, k as int).1;
    proof {
        let size_and_index = |b: &Block, i: u32|
            b.data@.len() >= sz && (data_index_repeated(old(index)@, k as int) || i < code.n);
        lemma_shuffled(inpkts@, index@, 0, k as int, size_and_index);
        assert forall|r: int| 0 <= r < k implies (#[trigger] p[r]).data@.len() >= sz && (
        data_index_repeated(old(index)@, k as int) || x[r] < code.n) by {
            assert(size_and_index(p[r], x[r]));
        }
        lemma_shuffled_checks(inpkts@, index@, 0, k as int);
    }
    let shuffle_rc = shuffle(inpkts, index, k);
    if shuffle_rc != ZfexStatusCode::Success {
        return shuffle_rc;
    }
    proof {
        assert(k * k <= 65536) by (nonlinear_arith)
            requires
                k < 256,
        ;
        assert forall|r: int| 0 <= r < k implies #[trigger] index@[r] < code.n by {
            assert(p[r].data@.len() >= sz);
        }
    }
    let mut m_dec: Vec<Gf> = vec![0u8; k * k];
    build_decode_matrix_into_space(code, index, k, &mut m_dec);
    if !inputs_aligned(inpkts, k) {
        return ZfexStatusCode::BadInputBlockAlignment;
    }
    let ghost before = outpkts@;
    let mut outix: usize = 0;
    let mut row: usize = 0;
    while row < k
        invariant
            row <= k,
            k == code.k,
            code.wf(),
            inpkts@ == p,
            index@ == x,
            p.len() >= k,
            x.len() >= k,
            shuffled(old(inpkts)@, old(index)@, 0, k as int) == (p, x, true),
            !data_index_repeated(old(index)@, k as int),
            m_dec@.len() == k * k,
            rows(m_dec@, k as nat) == inverse_matrix(decode_matrix(code, x)),
            forall|j: int| 0 <= j < k ==> (#[trigger] p[j]).data@.len() >= sz,
            forall|j: int| 0 <= j < k ==> aligned(*#[trigger] p[j]),
            before == old(outpkts)@,
            outpkts@.len() == before.len(),
            before.len() >= checks_before(x, k as int, k as int),
            forall|o: int| 0 <= o < before.len() ==> (#[trigger] before[o]).data@.len() >= sz,
            outix == checks_before(x, k as int, row as int),
            outix <= row,
            forall|o: int| 0 <= o < outix ==> aligned(#[trigger] before[o]),
            forall|o: int|
                0 <= o < before.len() ==> (#[trigger] outpkts@[o]).addr == before[o].addr
                    && outpkts@[o].data@.len() == before[o].data@.len(),
            forall|o: int| outix <= o < before.len() ==> #[trigger] outpkts@[o] == before[o],
            forall|r2: int, b: int|
                #![trigger recovered(code, p, x, r2, b)]
                0 <= r2 < row && x[r2] >= k && 0 <= b < sz ==> outpkts@[checks_before(
                    x,
                    k as int,
                    r2,
                )].data@[b] == recovered(code, p, x, r2, b),
            forall|o: int, b: int|
                0 <= o < before.len() && sz <= b < before[o].data@.len()
                    ==> #[trigger] outpkts@[o].data@[b] == before[o].data@[b],
        decreases k - row,
    {
        if index[row] >= code.k as u32 {
            proof {
                lemma_checks_before(x, k as int, row as int, k as int);
            }
            if outpkts[outix].addr % ZFEX_SIMD_ALIGNMENT != 0 {
                proof {
                    assert(!aligned(before[outix as int]));
                    assert forall|r2: int, b: int|
                        #![trigger recovered(code, p, x, r2, b)]
                        0 <= r2 < k && x[r2] >= k && output_reached(
                            before,
                            checks_before(x, k as int, r2),
                        ) && 0 <= b < sz implies outpkts@[checks_before(x, k as int, r2)].data@[b]
                        == recovered(code, p, x, r2, b) by {
                        if r2 >= row {
                            lemma_checks_before(x, k as int, row as int, r2);
                            assert(aligned(before[outix as int]));
                        }
                    }
                }
                return ZfexStatusCode::BadOutputBlockAlignment;
            }
            combine(
                &code.tables,
                &m_dec,
                k,
                row,
                inpkts,
                &mut outpkts[outix],
                0,
                sz,
                Ghost(k as int),
            );
            proof {
                assert forall|b: int| 0 <= b < sz implies #[trigger] combined(
                    m_dec@,
                    k as int,
                    row as int,
                    p,
                    b,
                    k as nat,
                ) == recovered(code, p, x, row as int, b) by {
                    let n = inverse_matrix(decode_matrix(code, x))[row as int];
                    assert(n == rows(m_dec@, k as nat)[row as int]);
                    let y = column(p, k as nat, b);
                    let f = |j: int| gf_mul(p[j].data@[b], cell(m_dec@, k as int, row as int, j));
                    let g = |j: int| gf_mul(n[j], y[j]);
                    assert forall|j: int| 0 <= j < k implies #[trigger] f(j) == g(j) by {
                        lemma_mul_comm(n[j], y[j]);
                    }
                    lemma_sum_eq(f, g, k as nat);
                }
                assert forall|r2: int, b: int|
                    #![trigger recovered(code, p, x, r2, b)]
                    0 <= r2 < row && x[r2] >= k && 0 <= b < sz implies outpkts@[checks_before(
                    x,
                    k as int,
                    r2,
                )].data@[b] == recovered(code, p, x, r2, b) by {
                    lemma_checks_before(x, k as int, r2, row as int);
                }
            }
            outix = outix + 1;
        }
        row = row + 1;
    }
    proof {
        assert forall|o: int| 0 <= o < before.len() && (o >= outix || !output_reached(before, o)) implies #[trigger] outpkts@[o]
            == before[o] by {
            if o < outix {
                assert(output_reached(before, o));
            }
        }
    }
    ZfexStatusCode::Success
}

/// The weights of blocks in their places are the values of the data polynomials at the points.
proof fn lemma_decode_weights(code: &Fec, x: Seq<u32>, r: int, c: int)
    requires
        code.wf(),
        0 <= r < code.k,
        0 <= c < code.k,
        x[r] < code.n,
        x[r] < code.k ==> x[r] == r,
    ensures
        decode_matrix(code, x)[r][c] == code.weight(x[r] as int, c),
{
    let xs = points(code.k as nat);
    lemma_points_distinct(code.k as nat);
    lemma_lagrange(xs, c);
    assert(xs[r] == point(r));
}

proof fn lemma_decode_row(code: &Fec, x: Seq<u32>, r: int, d: Seq<u8>)
    requires
        code.wf(),
        0 <= r < code.k,
        d.len() == code.k,
        x[r] < code.n,
        x[r] < code.k ==> x[r] == r,
    ensures
        dot(decode_matrix(code, x)[r], d) == coded(d, x[r] as int),
{
    let m = decode_matrix(code, x);
    code.lemma_weights(d, x[r] as int);
    let f = |c: int| gf_mul(m[r][c], d[c]);
    let g = |c: int| gf_mul(d[c], code.weight(x[r] as int, c));
    assert forall|c: int| 0 <= c < code.k implies #[trigger] f(c) == g(c) by {
        lemma_decode_weights(code, x, r, c);
        lemma_mul_comm(m[r][c], d[c]);
    }
    lemma_sum_eq(f, g, code.k as nat);
}

/// Blocks that are in their places.
pub open spec fn placed(code: &Fec, x: Seq<u32>) -> bool {
    &&& x.len() >= code.k
    &&& indices_distinct(x, code.k as int)
    &&& forall|r: int|
        0 <= r < code.k ==> #[trigger] x[r] < code.n && (x[r] < code.k ==> x[r] == r)
}

proof fn lemma_index_points_distinct(code: &Fec, x: Seq<u32>)
    requires
        code.wf(),
        placed(code, x),
    ensures
        distinct(index_points(x, code.k as nat)),
{
    lemma_distinct_points(x, code.k as nat);
}

proof fn lemma_decode_regular(code: &Fec, x: Seq<u32>)
    requires
        code.wf(),
        placed(code, x),
    ensures
        regular(decode_matrix(code, x)),
{
    let k = code.k as nat;
    let m = decode_matrix(code, x);
    let xs = index_points(x, k);
    lemma_index_points_distinct(code, x);
    assert forall|v: Seq<u8>| v.len() == m.len() && #[trigger] orthogonal(m, v) implies crate::gf_matrix::all_zero(
        v,
    ) by {
        let p = interpolate(points(k), v);
        assert forall|r: int| 0 <= r < k implies poly_eval(p, #[trigger] xs[r]) == 0 by {
            assert(dot(m[r], v) == 0);
            lemma_decode_row(code, x, r, v);
        }
        crate::gf_poly::lemma_poly_roots(p, xs);
        assert forall|c: int| 0 <= c < v.len() implies #[trigger] v[c] == 0 by {
            lemma_systematic(v, c);
            lemma_zero_polynomial(p, point(c));
        }
    }
}

/// The rows of the encoding matrix with these indices.
pub open spec fn encoding_rows(code: &Fec, x: Seq<u32>) -> Seq<Seq<u8>> {
    Seq::new(code.k as nat, |r: int| Seq::new(code.k as nat, |c: int| code.weight(x[r] as int, c)))
}

/// Any `k` different rows of the encoding matrix make a regular matrix.
pub proof fn lemma_any_rows_regular(code: &Fec, x: Seq<u32>)
    requires
        code.wf(),
        x.len() >= code.k,
        indices_distinct(x, code.k as int),
        forall|r: int| 0 <= r < code.k ==> #[trigger] x[r] < code.n,
    ensures
        regular(encoding_rows(code, x)),
{
    let k = code.k as nat;
    let m = encoding_rows(code, x);
    let xs = index_points(x, k);
    lemma_distinct_points(x, k);
    assert forall|v: Seq<u8>| v.len() == m.len() && #[trigger] orthogonal(m, v) implies crate::gf_matrix::all_zero(
        v,
    ) by {
        let p = interpolate(points(k), v);
        assert forall|r: int| 0 <= r < k implies poly_eval(p, #[trigger] xs[r]) == 0 by {
            assert(dot(m[r], v) == 0);
            code.lemma_weights(v, x[r] as int);
            let f = |c: int| gf_mul(m[r][c], v[c]);
            let g = |c: int| gf_mul(v[c], code.weight(x[r] as int, c));
            assert forall|c: int| 0 <= c < k implies #[trigger] f(c) == g(c) by {
                lemma_mul_comm(m[r][c], v[c]);
            }
            lemma_sum_eq(f, g, k);
        }
        crate::gf_poly::lemma_poly_roots(p, xs);
        assert forall|c: int| 0 <= c < v.len() implies #[trigger] v[c] == 0 by {
            lemma_systematic(v, c);
            lemma_zero_polynomial(p, point(c));
        }
    }
}

/// Every check block depends on every data block.
pub proof fn lemma_check_weights_nonzero(code: &Fec, i: int, j: int)
    requires
        code.wf(),
        code.k <= i < code.n,
        0 <= j < code.k,
    ensures
        code.weight(i, j) != 0,
{
    let k = code.k as nat;
    let xs = points(k);
    let p = lagrange(xs, j);
    lemma_points_distinct(k);
    lemma_lagrange(xs, j);
    if code.weight(i, j) == 0 {
        let roots = xs.update(j, point(i));
        assert forall|a: int, b: int| 0 <= a < b < roots.len() implies #[trigger] roots[a]
            != #[trigger] roots[b] by {
            if a == j {
                lemma_point_distinct(b, i);
            } else if b == j {
                lemma_point_distinct(a, i);
            } else {
                assert(xs[a] != xs[b]);
            }
        }
        assert forall|a: int| 0 <= a < roots.len() implies poly_eval(p, #[trigger] roots[a]) == 0 by {
            if a != j {
                assert(roots[a] == xs[a]);
            }
        }
        crate::gf_poly::lemma_poly_roots(p, roots);
        lemma_zero_polynomial(p, xs[j]);
    }
}

proof fn lemma_zero_polynomial(p: Seq<u8>, x: u8)
    requires
        forall|i: int| 0 <= i < p.len() ==> #[trigger] p[i] == 0,
    ensures
        poly_eval(p, x) == 0,
    decreases p.len(),
{
    broadcast use lemma_xor;

    if p.len() > 0 {
        lemma_zero_polynomial(p.skip(1), x);
        lemma_mul_unit(x);
    }
}

/// What is rebuilt is the value at the missing block's point of the one polynomial of degree below
/// `k` through the received bytes.
pub proof fn lemma_recovered(code: &Fec, p: Seq<&Block>, x: Seq<u32>, row: int, b: int)
    requires
        code.wf(),
        placed(code, x),
        0 <= row < code.k,
    ensures
        recovered(code, p, x, row, b) == poly_eval(
            interpolate(index_points(x, code.k as nat), column(p, code.k as nat, b)),
            point(row),
        ),
{
    let k = code.k as nat;
    let m = decode_matrix(code, x);
    let n = inverse_matrix(m);
    let xs = index_points(x, k);
    let y = column(p, k, b);
    let f = interpolate(xs, y);
    let d = Seq::new(k, |j: int| poly_eval(f, point(j)));
    lemma_decode_regular(code, x);
    lemma_inverse_matrix(m);
    lemma_index_points_distinct(code, x);
    lemma_points_distinct(k);
    assert(f == interpolate(points(k), d)) by {
        assert forall|j: int| 0 <= j < k implies poly_eval(f, #[trigger] points(k)[j]) == poly_eval(
            interpolate(points(k), d),
            points(k)[j],
        ) by {
            lemma_interpolate_points(points(k), d, j);
        }
        lemma_interpolate_unique(f, interpolate(points(k), d), points(k));
    }
    assert forall|r: int| 0 <= r < k implies #[trigger] y[r] == dot(m[r], d) by {
        lemma_interpolate_points(xs, y, r);
        lemma_decode_row(code, x, r, d);
    }
    // sum_r n[row][r] * sum_c m[r][c] * d[c], with the sums exchanged
    let g = |r: int, c: int| gf_mul(n[row][r], gf_mul(m[r][c], d[c]));
    let lhs = |r: int| gf_mul(n[row][r], y[r]);
    let by_rows = |r: int| gf_sum(|c: int| g(r, c), k);
    assert forall|r: int| 0 <= r < k implies #[trigger] lhs(r) == by_rows(r) by {
        let h = |c: int| gf_mul(m[r][c], d[c]);
        lemma_sum_scale(n[row][r], h, k);
        lemma_sum_eq(|c: int| gf_mul(n[row][r], h(c)), |c: int| g(r, c), k);
        assert(y[r] == dot(m[r], d));
    }
    lemma_sum_eq(lhs, by_rows, k);
    lemma_sum_swap(g, k, k);
    let by_columns = |c: int| gf_sum(|r: int| g(r, c), k);
    assert forall|c: int| 0 <= c < k implies #[trigger] by_columns(c) == (if c == row {
        d[c]
    } else {
        0
    }) by {
        let w = matrix_column(m, c);
        assert(dot(n[row], w) == if row == c {
            1u8
        } else {
            0u8
        });
        let h = |r: int| gf_mul(n[row][r], w[r]);
        lemma_sum_scale(d[c], h, k);
        let scaled = |r: int| gf_mul(d[c], h(r));
        let gc = |r: int| g(r, c);
        assert forall|r: int| 0 <= r < k implies #[trigger] gc(r) == scaled(r) by {
            lemma_mul_assoc(n[row][r], m[r][c], d[c]);
            lemma_mul_comm(h(r), d[c]);
        }
        lemma_sum_eq(gc, scaled, k);
        lemma_mul_unit(d[c]);
    }
    lemma_sum_single(by_columns, k, row);
}

/// The coded bytes of any `k` different blocks determine the data bytes.
pub proof fn lemma_any_values_suffice(d: Seq<u8>, index: Seq<u32>, y: Seq<u8>, row: int)
    requires
        d.len() <= 256,
        index.len() >= d.len(),
        y.len() == d.len(),
        0 <= row < d.len(),
        distinct(index_points(index, d.len())),
        forall|r: int| 0 <= r < d.len() ==> #[trigger] y[r] == coded(d, index[r] as int),
    ensures
        poly_eval(interpolate(index_points(index, d.len()), y), point(row)) == d[row],
{
    let k = d.len();
    let xs = index_points(index, k);
    let f = interpolate(points(k), d);
    assert forall|r: int| 0 <= r < k implies poly_eval(f, #[trigger] xs[r]) == poly_eval(
        interpolate(xs, y),
        xs[r],
    ) by {
        lemma_interpolate_points(xs, y, r);
        assert(y[r] == coded(d, index[r] as int));
    }
    lemma_interpolate_unique(f, interpolate(xs, y), xs);
    lemma_systematic(d, row);
}

/// Zero data has zero check bytes.
pub proof fn lemma_coded_zero(d: Seq<u8>, i: int)
    requires
        d.len() <= 256,
        forall|j: int| 0 <= j < d.len() ==> #[trigger] d[j] == 0,
    ensures
        coded(d, i) == 0,
{
    let xs = points(d.len());
    lemma_points_distinct(d.len());
    lemma_interpolate_eval(xs, d, point(i));
    let f = |j: int| gf_mul(d[j], poly_eval(lagrange(xs, j), point(i)));
    assert forall|j: int| 0 <= j < d.len() implies #[trigger] f(j) == 0 by {
        lemma_mul_unit(poly_eval(lagrange(xs, j), point(i)));
    }
    lemma_sum_zero(f, d.len());
}

/// Different indices below 256 have different points.
pub proof fn lemma_distinct_points(index: Seq<u32>, k: nat)
    requires
        k <= index.len(),
        indices_distinct(index, k as int),
        forall|r: int| 0 <= r < k ==> #[trigger] index[r] < 256,
    ensures
        distinct(index_points(index, k)),
{
    let xs = index_points(index, k);
    assert forall|i: int, j: int| 0 <= i < j < xs.len() implies #[trigger] xs[i] != #[trigger] xs[j] by {
        assert(index[i] != index[j]);
        if index[i] < index[j] {
            lemma_point_distinct(index[i] as int, index[j] as int);
        } else {
            lemma_point_distinct(index[j] as int, index[i] as int);
        }
    }
}

/// Any `k` different blocks of an encoded group bring back its data: decoding undoes encoding.
pub proof fn lemma_any_blocks_suffice(
    code: &Fec,
    d: Seq<u8>,
    pkts: Seq<&Block>,
    index: Seq<u32>,
    row: int,
    b: int,
)
    requires
        code.wf(),
        d.len() == code.k,
        0 <= row < code.k,
        pkts.len() >= code.k,
        index.len() >= code.k,
        indices_distinct(index, code.k as int),
        forall|r: int|
            0 <= r < code.k ==> #[trigger] index[r] < code.n && pkts[r].data@[b] == coded(
                d,
                index[r] as int,
            ),
    ensures
        ({
            let (p, x, ok) = shuffled(pkts, index, 0, code.k as int);
            ok && recovered(code, p, x, row, b) == d[row] && (x[row] < code.k ==> p[row].data@[b]
                == d[row])
        }),
{
    let k = code.k as nat;
    let holds = |q: &Block, i: u32| i < code.n && q.data@[b] == coded(d, i as int);
    lemma_shuffled(pkts, index, 0, k as int, holds);
    let (p, x, ok) = shuffled(pkts, index, 0, k as int);
    assert(!data_index_repeated(index, k as int));
    assert forall|r: int| 0 <= r < k implies #[trigger] x[r] < code.n && (x[r] < code.k ==> x[r] == r)
        && p[r].data@[b] == coded(d, x[r] as int) by {
        assert(holds(p[r], x[r]));
    }
    assert(placed(code, x));
    lemma_recovered(code, p, x, row, b);
    lemma_index_points_distinct(code, x);
    lemma_any_values_suffice(d, x, column(p, k, b), row);
    lemma_systematic(d, row);
}

} // verus!
