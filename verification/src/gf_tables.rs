//! Lookup tables for the field of 256 elements.
use crate::gf256::{gf_inv, gf_mul, gf_pow, Gf};
use crate::gf256::{
    lemma_double, lemma_generator_distinct, lemma_generator_order, lemma_inv, lemma_mul_cancel,
    lemma_mul_unit, lemma_pow_add, lemma_pow_nonzero,
};
use vstd::prelude::*;
use vstd::set_lib::{lemma_int_range, lemma_map_size, lemma_subset_equality, set_int_range};

verus! {

/// Exponentials, logarithms, inverses and products of field elements.
#[derive(Clone)]
pub struct GfTables {
    /// The powers of the generator `2`, twice over.
    pub exp: Vec<Gf>,
    /// The exponent of each element, and 255 for zero.
    pub log: Vec<i32>,
    /// The inverse of each element, and zero for zero.
    pub inverse: Vec<Gf>,
    /// The product of `x` and `y`, at `x * 256 + y`.
    pub mul: Vec<Gf>,
    /// The product of `x` and `y << 4`, at `x * 16 + y`.
    pub mul_16: Vec<Gf>,
}

impl GfTables {
    pub open spec fn wf_exp(&self) -> bool {
        &&& self.exp@.len() == 510
        &&& forall|i: int| 0 <= i < 510 ==> #[trigger] self.exp@[i] == gf_pow(2, i as nat)
    }

    pub open spec fn wf_log(&self) -> bool {
        &&& self.log@.len() == 256
        &&& self.log@[0] == 255
        &&& forall|x: int|
            1 <= x < 256 ==> 0 <= #[trigger] self.log@[x] < 255 && gf_pow(2, self.log@[x] as nat) == x
    }

    pub open spec fn wf_inverse(&self) -> bool {
        &&& self.inverse@.len() == 256
        &&& forall|x: int| 0 <= x < 256 ==> #[trigger] self.inverse@[x] == gf_inv(x as u8)
    }

    pub open spec fn wf_mul(&self) -> bool {
        &&& self.mul@.len() == 65536
        &&& forall|t: int|
            0 <= t < 65536 ==> #[trigger] self.mul@[t] == gf_mul((t / 256) as u8, (t % 256) as u8)
        &&& self.mul_16@.len() == 4096
        &&& forall|t: int|
            0 <= t < 4096 ==> #[trigger] self.mul_16@[t] == gf_mul(
                (t / 16) as u8,
                (t % 16 * 16) as u8,
            )
    }

    /// Every table holds what its name says.
    pub open spec fn wf(&self) -> bool {
        self.wf_exp() && self.wf_log() && self.wf_inverse() && self.wf_mul()
    }
}

/// Every nonzero element is a power of `2` with an exponent below 255.
pub proof fn lemma_generator_covers(x: u8)
    requires
        x != 0,
    ensures
        exists|i: nat| i < 255 && #[trigger] gf_pow(2, i) == x,
{
    let exponents = set_int_range(0, 255);
    let nonzero = set_int_range(1, 256);
    let f = |i: int| gf_pow(2, i as nat) as int;
    let powers = exponents.map(f);
    lemma_int_range(0, 255);
    lemma_int_range(1, 256);
    assert(vstd::relations::injective_on(f, exponents)) by {
        assert forall|i: int, j: int|
            exponents.contains(i) && exponents.contains(j) && #[trigger] f(i) == #[trigger] f(
                j,
            ) implies i == j by {
            if i < j {
                lemma_generator_distinct(i as nat, j as nat);
            }
            if j < i {
                lemma_generator_distinct(j as nat, i as nat);
            }
        }
    }
    lemma_map_size(exponents, powers, f);
    assert(powers.subset_of(nonzero)) by {
        assert forall|v: int| powers.contains(v) implies nonzero.contains(v) by {
            let i = choose|i: int| exponents.contains(i) && f(i) == v;
            lemma_pow_nonzero(2, i as nat);
        }
    }
    lemma_subset_equality(powers, nonzero);
    assert(nonzero.contains(x as int));
    assert(powers.contains(x as int));
    let i = choose|i: int| exponents.contains(i) && f(i) == x as int;
    assert(gf_pow(2, i as nat) == x);
}

/// The powers of `2` repeat with period 255.
pub proof fn lemma_pow_period(n: nat)
    ensures
        gf_pow(2, n) == gf_pow(2, n % 255),
    decreases n,
{
    if n >= 255 {
        lemma_pow_period((n - 255) as nat);
        lemma_generator_order(255);
        lemma_pow_add(2, (n - 255) as nat, 255);
        lemma_mul_unit(gf_pow(2, (n - 255) as nat));
    }
}

proof fn lemma_bits_modnn(x: i32)
    by (bit_vector)
    requires
        x >= 0,
    ensures
        (x >> 8) * 256 + (x & 255) == x,
        0 <= x & 255,
        x & 255 < 256,
        0 <= x >> 8,
{
}

/// The remainder of division by 255, computed without dividing.
pub(crate) fn modnn(x: i32) -> (r: Gf)
    requires
        x >= 0,
    ensures
        r == x % 255,
{
    let mut y: i32 = x;
    while y >= 255
        invariant
            y >= 0,
            y % 255 == x % 255,
        decreases y,
    {
        y = y - 255;
        proof {
            lemma_bits_modnn(y);
        }
        y = (y >> 8) + (y & 255);
    }
    y as Gf
}

proof fn lemma_bits_first_powers()
    by (bit_vector)
    ensures
        1u8 << 1 == 2u8,
        2u8 << 1 == 4u8,
        4u8 << 1 == 8u8,
        8u8 << 1 == 16u8,
        16u8 << 1 == 32u8,
        32u8 << 1 == 64u8,
        64u8 << 1 == 128u8,
        0u8 ^ 1 == 1u8,
        1u8 ^ 4 == 5u8,
        5u8 ^ 8 == 13u8,
        13u8 ^ 16 == 29u8,
        1u8 << 7 == 128u8,
{
}

/// The exponential, logarithm and inverse tables.  The other fields are left empty.
fn generate_gf() -> (t: GfTables)
    ensures
        t.wf_exp(),
        t.wf_log(),
        t.wf_inverse(),
{
    let pp: [u8; 9] = [1, 0, 1, 1, 1, 0, 0, 0, 1];
    let mut exp: Vec<Gf> = vec![0u8; 510];
    let mut log: Vec<i32> = vec![0i32; 256];
    let mut inverse: Vec<Gf> = vec![0u8; 256];
    let mut mask: Gf = 1;
    let mut i: usize = 0;
    proof {
        lemma_bits_first_powers();
    }
    while i < 8
        invariant
            i <= 8,
            exp@.len() == 510,
            log@.len() == 256,
            pp@ == seq![1u8, 0, 1, 1, 1, 0, 0, 0, 1],
            i < 8 ==> mask == gf_pow(2, i as nat),
            i == 0 ==> mask == 1 && exp@[8] == 0,
            i == 1 ==> mask == 2 && exp@[8] == 1,
            i == 2 ==> mask == 4 && exp@[8] == 1,
            i == 3 ==> mask == 8 && exp@[8] == 5,
            i == 4 ==> mask == 16 && exp@[8] == 13,
            i == 5 ==> mask == 32 && exp@[8] == 29,
            i == 6 ==> mask == 64 && exp@[8] == 29,
            i == 7 ==> mask == 128 && exp@[8] == 29,
            i == 8 ==> exp@[7] == 128 && exp@[8] == 29,
            forall|j: int| 0 <= j < i ==> #[trigger] exp@[j] == gf_pow(2, j as nat),
            forall|j: int| 0 <= j < i ==> log@[#[trigger] exp@[j] as int] == j,
        decreases 8 - i,
    {
        proof {
            lemma_bits_first_powers();
            lemma_double(mask);
            assert forall|j: int| 0 <= j < i implies #[trigger] exp@[j] != mask by {
                lemma_generator_distinct(j as nat, i as nat);
            }
        }
        exp.set(i, mask);
        log.set(exp[i] as usize, i as i32);
        if pp[i] == 1 {
            let low: Gf = exp[8];
            exp.set(8, low ^ mask);
        }
        mask = mask << 1;
        i = i + 1;
    }
    proof {
        assert(exp@[7] == gf_pow(2, 7));
        lemma_eighth_power();
        assert forall|j: int| 0 <= j < 8 implies #[trigger] exp@[j] != exp@[8] by {
            lemma_generator_distinct(j as nat, 8);
        }
    }
    log.set(exp[8] as usize, 8);
    let top: Gf = 1 << 7;
    i = 9;
    while i < 255
        invariant
            9 <= i <= 255,
            top == 128,
            exp@.len() == 510,
            log@.len() == 256,
            exp@[8] == 29,
            forall|j: int| 0 <= j < i ==> #[trigger] exp@[j] == gf_pow(2, j as nat),
            forall|j: int| 0 <= j < i ==> log@[#[trigger] exp@[j] as int] == j,
        decreases 255 - i,
    {
        let previous: Gf = exp[i - 1];
        proof {
            lemma_double(previous);
            assert(gf_pow(2, i as nat) == gf_mul(gf_pow(2, (i - 1) as nat), 2));
            assert forall|j: int| 0 <= j < i implies #[trigger] exp@[j] != gf_pow(2, i as nat) by {
                lemma_generator_distinct(j as nat, i as nat);
            }
        }
        if previous >= top {
            let low: Gf = exp[8];
            exp.set(i, low ^ ((previous ^ top) << 1));
        } else {
            exp.set(i, previous << 1);
        }
        log.set(exp[i] as usize, i as i32);
        i = i + 1;
    }
    proof {
        assert forall|j: int| 0 <= j < 255 implies #[trigger] exp@[j] != 0 by {
            lemma_pow_nonzero(2, j as nat);
        }
    }
    log.set(0, 255);
    proof {
        assert forall|x: int| 1 <= x < 256 implies 0 <= #[trigger] log@[x] < 255 && gf_pow(
            2,
            log@[x] as nat,
        ) == x by {
            lemma_generator_covers(x as u8);
            let j = choose|j: nat| j < 255 && gf_pow(2, j) == x as u8;
            assert(exp@[j as int] == x as u8);
        }
    }
    i = 0;
    while i < 255
        invariant
            i <= 255,
            exp@.len() == 510,
            forall|j: int| 0 <= j < 255 + i ==> #[trigger] exp@[j] == gf_pow(2, j as nat),
        decreases 255 - i,
    {
        let e: Gf = exp[i];
        proof {
            lemma_pow_period((i + 255) as nat);
        }
        exp.set(i + 255, e);
        i = i + 1;
    }
    inverse.set(1, 1);
    proof {
        lemma_inv(1);
        lemma_mul_unit(gf_inv(1));
        lemma_inv(0);
    }
    i = 2;
    while i <= 255
        invariant
            2 <= i <= 256,
            exp@.len() == 510,
            log@.len() == 256,
            inverse@.len() == 256,
            forall|j: int| 0 <= j < 510 ==> #[trigger] exp@[j] == gf_pow(2, j as nat),
            forall|x: int|
                1 <= x < 256 ==> 0 <= #[trigger] log@[x] < 255 && gf_pow(2, log@[x] as nat) == x,
            forall|x: int| 0 <= x < i ==> #[trigger] inverse@[x] == gf_inv(x as u8),
        decreases 256 - i,
    {
        let idx: usize = 255 - log[i] as usize;
        inverse.set(i, exp[idx]);
        proof {
            let l = log@[i as int] as nat;
            lemma_pow_add(2, l, idx as nat);
            lemma_generator_order(255);
            lemma_inv(i as u8);
            lemma_mul_cancel(i as u8, gf_pow(2, idx as nat), gf_inv(i as u8));
        }
        i = i + 1;
    }
    GfTables { exp, log, inverse, mul: Vec::new(), mul_16: Vec::new() }
}

proof fn lemma_eighth_power()
    ensures
        gf_pow(2, 7) == 128 ==> gf_pow(2, 8) == 29,
{
    lemma_double(128);
    lemma_bits_top();
    assert(gf_pow(2, 8) == gf_mul(gf_pow(2, 7), 2));
}

proof fn lemma_bits_top()
    by (bit_vector)
    ensures
        29u8 ^ ((128u8 ^ 128u8) << 1) == 29,
{
}

/// The log of a product is the sum of the logs, up to the period.
proof fn lemma_log_product(x: u8, y: u8, lx: nat, ly: nat)
    requires
        gf_pow(2, lx) == x,
        gf_pow(2, ly) == y,
    ensures
        gf_pow(2, (lx + ly) % 255) == gf_mul(x, y),
{
    lemma_pow_add(2, lx, ly);
    lemma_pow_period(lx + ly);
}

proof fn lemma_bits_nibble(j: usize)
    by (bit_vector)
    requires
        j < 16,
    ensures
        j << 4 == j * 16,
{
}

/// Fills the two product tables from the exponentials and logarithms.
fn init_mul_table(t: &mut GfTables)
    requires
        old(t).wf_exp(),
        old(t).wf_log(),
    ensures
        final(t).wf_mul(),
        final(t).exp == old(t).exp,
        final(t).log == old(t).log,
        final(t).inverse == old(t).inverse,
{
    let mut mul: Vec<Gf> = vec![0u8; 65536];
    let mut mul_16: Vec<Gf> = vec![0u8; 4096];
    let mut i: usize = 0;
    while i < 256
        invariant
            i <= 256,
            t.wf_exp(),
            t.wf_log(),
            mul@.len() == 65536,
            forall|s: int|
                0 <= s < i * 256 && s / 256 != 0 && s % 256 != 0 ==> #[trigger] mul@[s] == gf_mul(
                    (s / 256) as u8,
                    (s % 256) as u8,
                ),
        decreases 256 - i,
    {
        let mut j: usize = 0;
        while j < 256
            invariant
                i < 256,
                j <= 256,
                t.wf_exp(),
                t.wf_log(),
                mul@.len() == 65536,
                forall|s: int|
                    0 <= s < i * 256 + j && s / 256 != 0 && s % 256 != 0 ==> #[trigger] mul@[s]
                        == gf_mul((s / 256) as u8, (s % 256) as u8),
            decreases 256 - j,
        {
            let idx: Gf = modnn(t.log[i] + t.log[j]);
            proof {
                if i != 0 && j != 0 {
                    lemma_log_product(
                        i as u8,
                        j as u8,
                        t.log@[i as int] as nat,
                        t.log@[j as int] as nat,
                    );
                }
            }
            mul.set(i * 256 + j, t.exp[idx as usize]);
            j = j + 1;
        }
        i = i + 1;
    }
    let ghost nonzero = mul@;
    let mut j: usize = 0;
    while j < 256
        invariant
            j <= 256,
            mul@.len() == 65536,
            nonzero.len() == 65536,
            forall|s: int|
                0 <= s < 65536 && s / 256 != 0 && s % 256 != 0 ==> #[trigger] nonzero[s] == gf_mul(
                    (s / 256) as u8,
                    (s % 256) as u8,
                ),
            forall|s: int|
                0 <= s < 65536 && s / 256 != 0 && s % 256 != 0 ==> #[trigger] mul@[s] == nonzero[s],
            forall|s: int| 0 <= s < j ==> #[trigger] mul@[s] == 0,
            forall|s: int| 0 <= s < j * 256 && s % 256 == 0 ==> #[trigger] mul@[s] == 0,
        decreases 256 - j,
    {
        mul.set(j, 0);
        mul.set(j * 256, 0);
        j = j + 1;
    }
    proof {
        assert forall|s: int| 0 <= s < 65536 implies #[trigger] mul@[s] == gf_mul(
            (s / 256) as u8,
            (s % 256) as u8,
        ) by {
            lemma_mul_unit((s / 256) as u8);
            lemma_mul_unit((s % 256) as u8);
        }
    }
    i = 0;
    while i < 256
        invariant
            i <= 256,
            mul@.len() == 65536,
            mul_16@.len() == 4096,
            forall|s: int|
                0 <= s < 65536 ==> #[trigger] mul@[s] == gf_mul((s / 256) as u8, (s % 256) as u8),
            forall|s: int|
                0 <= s < i * 16 ==> #[trigger] mul_16@[s] == gf_mul(
                    (s / 16) as u8,
                    (s % 16 * 16) as u8,
                ),
        decreases 256 - i,
    {
        let mut j: usize = 0;
        while j < 16
            invariant
                i < 256,
                j <= 16,
                mul@.len() == 65536,
                mul_16@.len() == 4096,
                forall|s: int|
                    0 <= s < 65536 ==> #[trigger] mul@[s] == gf_mul(
                        (s / 256) as u8,
                        (s % 256) as u8,
                    ),
                forall|s: int|
                    0 <= s < i * 16 + j ==> #[trigger] mul_16@[s] == gf_mul(
                        (s / 16) as u8,
                        (s % 16 * 16) as u8,
                    ),
            decreases 16 - j,
        {
            proof {
                lemma_bits_nibble(j);
            }
            mul_16.set(i * 16 + j, mul[i * 256 + (j << 4)]);
            j = j + 1;
        }
        i = i + 1;
    }
    t.mul = mul;
    t.mul_16 = mul_16;
}

/// Builds all tables.
pub fn init_fec() -> (t: GfTables)
    ensures
        t.wf(),
{
    let mut t = generate_gf();
    init_mul_table(&mut t);
    t
}

impl GfTables {
    /// The product of two elements, by lookup.
    pub fn gf_mul(&self, x: Gf, y: Gf) -> (p: Gf)
        requires
            self.wf(),
        ensures
            p == gf_mul(x, y),
    {
        self.mul[x as usize * 256 + y as usize]
    }

    /// The inverse of an element, and zero for zero.
    pub fn inverse_of(&self, x: Gf) -> (r: Gf)
        requires
            self.wf(),
        ensures
            r == gf_inv(x),
    {
        self.inverse[x as usize]
    }
}

} // verus!
