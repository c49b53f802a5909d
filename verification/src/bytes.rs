//! Integers as bytes, and small helpers on byte vectors.
use vstd::prelude::*;

verus! {

/// The `n` lowest bytes of `v`, highest first.
pub open spec fn be_bytes(v: nat, n: nat) -> Seq<u8>
    decreases n,
{
    if n == 0 {
        Seq::empty()
    } else {
        be_bytes(v / 256, (n - 1) as nat).push((v % 256) as u8)
    }
}

/// The number that these bytes make, highest first.
pub open spec fn be_value(s: Seq<u8>) -> nat
    decreases s.len(),
{
    if s.len() == 0 {
        0
    } else {
        be_value(s.drop_last()) * 256 + s.last() as nat
    }
}

/// `256` to the power `n`.
pub open spec fn byte_range(n: nat) -> nat
    decreases n,
{
    if n == 0 {
        1
    } else {
        byte_range((n - 1) as nat) * 256
    }
}

/// The sizes of the widths in use.
pub proof fn lemma_byte_range()
    ensures
        byte_range(1) == 0x100,
        byte_range(2) == 0x1_0000,
        byte_range(4) == 0x1_0000_0000,
        byte_range(8) == 0x1_0000_0000_0000_0000,
{
    reveal_with_fuel(byte_range, 9);
}

pub proof fn lemma_be_len(v: nat, n: nat)
    ensures
        be_bytes(v, n).len() == n,
    decreases n,
{
    if n > 0 {
        lemma_be_len(v / 256, (n - 1) as nat);
    }
}

/// Reading back what was written.
pub proof fn lemma_be_round_trip(v: nat, n: nat)
    requires
        v < byte_range(n),
    ensures
        be_value(be_bytes(v, n)) == v,
    decreases n,
{
    if n > 0 {
        lemma_be_round_trip(v / 256, (n - 1) as nat);
        lemma_be_len(v / 256, (n - 1) as nat);
        let b = be_bytes(v, n);
        assert(b.drop_last() =~= be_bytes(v / 256, (n - 1) as nat));
    }
}

/// Writing back what was read.
pub proof fn lemma_be_bytes_of_value(s: Seq<u8>)
    ensures
        be_bytes(be_value(s), s.len()) == s,
    decreases s.len(),
{
    if s.len() > 0 {
        lemma_be_bytes_of_value(s.drop_last());
        let v = be_value(s);
        assert(v / 256 == be_value(s.drop_last()) && v % 256 == s.last());
        assert(s =~= s.drop_last().push(s.last()));
    } else {
        assert(s =~= Seq::empty());
    }
}

/// Four bytes, highest first, spelled out.
pub proof fn lemma_be4(v: nat)
    requires
        v < 0x1_0000_0000,
    ensures
        be_bytes(v, 4).len() == 4,
        be_bytes(v, 4)[0] * 0x100_0000 + be_bytes(v, 4)[1] * 0x1_0000 + be_bytes(v, 4)[2] * 0x100
            + be_bytes(v, 4)[3] == v,
{
    lemma_byte_range();
    lemma_be_len(v, 4);
    lemma_be_round_trip(v, 4);
    lemma_be_value4(be_bytes(v, 4));
}

/// Eight bytes, highest first, spelled out.
pub proof fn lemma_be8(v: nat)
    requires
        v < 0x1_0000_0000_0000_0000,
    ensures
        ({
            let b = be_bytes(v, 8);
            &&& b.len() == 8
            &&& (b[0] * 0x100_0000 + b[1] * 0x1_0000 + b[2] * 0x100 + b[3]) * 0x1_0000_0000 + (b[4]
                * 0x100_0000 + b[5] * 0x1_0000 + b[6] * 0x100 + b[7]) == v
        }),
{
    let b = be_bytes(v, 8);
    let c = be_bytes(v / 0x1_0000_0000, 4);
    reveal_with_fuel(be_bytes, 5);
    lemma_be_len(v, 8);
    lemma_be4(v / 0x1_0000_0000);
    assert(v / 256 / 256 / 256 / 256 == v / 0x1_0000_0000);
    assert(b =~= c.push((v / 256 / 256 / 256 % 256) as u8).push((v / 256 / 256 % 256) as u8).push(
        (v / 256 % 256) as u8,
    ).push((v % 256) as u8));
}

pub proof fn lemma_be_value4(s: Seq<u8>)
    requires
        s.len() == 4,
    ensures
        be_value(s) == s[0] * 0x100_0000 + s[1] * 0x1_0000 + s[2] * 0x100 + s[3],
{
    lemma_be_value_last(s);
    lemma_be_value_last(s.drop_last());
    lemma_be_value_last(s.drop_last().drop_last());
    lemma_be_value_last(s.drop_last().drop_last().drop_last());
    assert(s.drop_last().drop_last().drop_last().drop_last() =~= Seq::empty());
}

/// A byte behind others makes their number 256 times as large, and adds itself.
pub proof fn lemma_be_value_last(s: Seq<u8>)
    requires
        s.len() > 0,
    ensures
        be_value(s) == be_value(s.drop_last()) * 256 + s.last(),
        be_value(Seq::empty()) == 0,
{
}

/// The `n` lowest bytes of `v`, highest first.
pub fn to_be_bytes(v: u64, n: usize) -> (out: Vec<u8>)
    requires
        n <= 8,
    ensures
        out@ == be_bytes(v as nat, n as nat),
        out@.len() == n,
{
    let mut out: Vec<u8> = Vec::new();
    if n > 0 {
        out = to_be_bytes_rec(v, n);
    }
    out
}

fn to_be_bytes_rec(v: u64, n: usize) -> (out: Vec<u8>)
    ensures
        out@ == be_bytes(v as nat, n as nat),
        out@.len() == n,
    decreases n,
{
    if n == 0 {
        return Vec::new();
    }
    let mut out: Vec<u8> = to_be_bytes_rec(v / 256, n - 1);
    out.push((v % 256) as u8);
    out
}

/// The number that bytes `from..from + n` make, highest first.
pub fn from_be_bytes(s: &[u8], from: usize, n: usize) -> (v: u64)
    requires
        n <= 8,
        from + n <= s@.len(),
    ensures
        v == be_value(s@.subrange(from as int, from + n)),
        v < byte_range(n as nat),
{
    let len: usize = s.len();
    let mut v: u64 = 0;
    let mut i: usize = 0;
    proof {
        lemma_byte_range();
    }
    while i < n
        invariant
            i <= n <= 8,
            from + n <= len,
            len == s@.len(),
            v == be_value(s@.subrange(from as int, from + i)),
            v < byte_range(i as nat),
        decreases n - i,
    {
        let b: u8 = s[from + i];
        proof {
            lemma_byte_range();
            lemma_byte_range_monotone((i + 1) as nat, 8);
            let t = s@.subrange(from as int, from + i + 1);
            assert(t.drop_last() =~= s@.subrange(from as int, from + i));
        }
        v = v * 256 + b as u64;
        i = i + 1;
    }
    v
}

pub proof fn lemma_byte_range_monotone(m: nat, n: nat)
    requires
        m <= n,
    ensures
        0 < byte_range(m) <= byte_range(n),
    decreases n,
{
    if m < n {
        lemma_byte_range_monotone(m, (n - 1) as nat);
    } else if n > 0 {
        lemma_byte_range_monotone((m - 1) as nat, (n - 1) as nat);
    }
}

/// The number that the two bytes at `i` make, lowest first.
pub open spec fn le16(s: Seq<u8>, i: int) -> u16 {
    (s[i] + s[i + 1] * 256) as u16
}

/// The number that the four bytes at `i` make, lowest first.
pub open spec fn le32(s: Seq<u8>, i: int) -> u32 {
    (s[i] + s[i + 1] * 0x100 + s[i + 2] * 0x1_0000 + s[i + 3] * 0x100_0000) as u32
}

pub fn get_unaligned_le16(s: &[u8], i: usize) -> (v: u16)
    requires
        i + 2 <= s@.len(),
    ensures
        v == le16(s@, i as int),
{
    s[i] as u16 + s[i + 1] as u16 * 256
}

pub fn get_unaligned_le32(s: &[u8], i: usize) -> (v: u32)
    requires
        i + 4 <= s@.len(),
    ensures
        v == le32(s@, i as int),
{
    s[i] as u32 + s[i + 1] as u32 * 0x100 + s[i + 2] as u32 * 0x1_0000 + s[i + 3] as u32 * 0x100_0000
}

/// Whether two byte strings are equal.
pub fn bytes_equal(a: &[u8], b: &[u8]) -> (r: bool)
    ensures
        r == (a@ == b@),
{
    if a.len() != b.len() {
        return false;
    }
    let mut i: usize = 0;
    while i < a.len()
        invariant
            i <= a@.len(),
            a@.len() == b@.len(),
            forall|j: int| 0 <= j < i ==> #[trigger] a@[j] == b@[j],
        decreases a@.len() - i,
    {
        if a[i] != b[i] {
            return false;
        }
        i = i + 1;
    }
    assert(a@ =~= b@);
    true
}

/// Bytes `from..to` as a vector of their own.
pub fn copy_range(s: &[u8], from: usize, to: usize) -> (out: Vec<u8>)
    requires
        from <= to <= s@.len(),
    ensures
        out@ == s@.subrange(from as int, to as int),
{
    let mut out: Vec<u8> = Vec::new();
    let mut i: usize = from;
    while i < to
        invariant
            from <= i <= to <= s@.len(),
            out@ == s@.subrange(from as int, i as int),
        decreases to - i,
    {
        out.push(s[i]);
        i = i + 1;
        assert(out@ =~= s@.subrange(from as int, i as int));
    }
    out
}

/// Appends the bytes of `s`.
pub fn append_bytes(out: &mut Vec<u8>, s: &[u8])
    ensures
        final(out)@ == old(out)@ + s@,
{
    let mut i: usize = 0;
    while i < s.len()
        invariant
            i <= s@.len(),
            out@ == old(out)@ + s@.subrange(0, i as int),
        decreases s@.len() - i,
    {
        out.push(s[i]);
        i = i + 1;
        assert(out@ =~= old(out)@ + s@.subrange(0, i as int));
    }
    assert(out@ =~= old(out)@ + s@);
}

/// `n` zero bytes.
pub open spec fn zeros(n: nat) -> Seq<u8> {
    Seq::new(n, |i: int| 0u8)
}

/// The byte with the same bits as a signed number.
pub open spec fn byte_of_i8(v: i8) -> u8 {
    if v >= 0 {
        v as u8
    } else {
        (v + 256) as u8
    }
}

/// The signed number with the same bits as a byte.
pub open spec fn i8_of_byte(b: u8) -> i8 {
    if b < 128 {
        b as i8
    } else {
        (b - 256) as i8
    }
}

pub fn i8_to_byte(v: i8) -> (b: u8)
    ensures
        b == byte_of_i8(v),
        i8_of_byte(b) == v,
{
    if v >= 0 {
        v as u8
    } else {
        (v as i16 + 256) as u8
    }
}

pub fn byte_to_i8(b: u8) -> (v: i8)
    ensures
        v == i8_of_byte(b),
        byte_of_i8(v) == b,
{
    if b < 128 {
        b as i8
    } else {
        (b as i16 - 256) as i8
    }
}

/// Which byte of a number comes first.
#[derive(Clone, Copy, Debug, PartialEq, Eq, Structural)]
pub enum ByteOrder {
    LittleEndian,
    BigEndian,
}

/// The two bytes of a number in an order.
pub open spec fn ordered_bytes(v: u16, order: ByteOrder) -> Seq<u8> {
    if order == ByteOrder::LittleEndian {
        seq![(v % 256) as u8, (v / 256) as u8]
    } else {
        seq![(v / 256) as u8, (v % 256) as u8]
    }
}

/// The bytes of a number in the machine's order, from `u16::to_ne_bytes` of std.
///
/// Claimed: they are the number's two bytes, lowest or highest first.  Which of the two depends on the
/// machine and is left open.
#[verifier::external_body]
pub(crate) fn to_native_bytes(v: u16) -> (b: [u8; 2])
    ensures
        b@ == ordered_bytes(v, ByteOrder::LittleEndian) || b@ == ordered_bytes(
            v,
            ByteOrder::BigEndian,
        ),
{
    v.to_ne_bytes()
}

/// The order in which these are the bytes of the number one.
pub fn order_of_one(bytes: &[u8; 2]) -> (order: ByteOrder)
    requires
        bytes@ == ordered_bytes(1, ByteOrder::LittleEndian) || bytes@ == ordered_bytes(
            1,
            ByteOrder::BigEndian,
        ),
    ensures
        bytes@ == ordered_bytes(1, order),
        order == (if bytes@[0] == 1 {
            ByteOrder::LittleEndian
        } else {
            ByteOrder::BigEndian
        }),
{
    if bytes[0] == 1 {
        ByteOrder::LittleEndian
    } else {
        ByteOrder::BigEndian
    }
}

} // verus!
