//! Byte-level helpers shared by the on-disk formats.

use vstd::prelude::*;

verus! {

/// `n` rounded up to a multiple of `to`.
pub open spec fn rounded_up(n: int, to: int) -> int {
    (n + to - 1) / to * to
}

/// Rounding up lands on a multiple of `to` no further than `to - 1` above `n`.
pub proof fn lemma_rounded_up(n: int, to: int)
    requires
        0 <= n,
        0 < to,
    ensures
        rounded_up(n, to) % to == 0,
        n <= rounded_up(n, to) < n + to,
        n % to == 0 ==> rounded_up(n, to) == n,
{
    let m = n + to - 1;
    vstd::arithmetic::div_mod::lemma_fundamental_div_mod(m, to);
    vstd::arithmetic::div_mod::lemma_mod_multiples_basic(m / to, to);
    vstd::arithmetic::mul::lemma_mul_is_commutative(to, m / to);
    vstd::arithmetic::div_mod::lemma_mod_bound(m, to);
    if n % to == 0 {
        vstd::arithmetic::div_mod::lemma_fundamental_div_mod(n, to);
        let q = n / to;
        assert(m == q * to + (to - 1)) by (nonlinear_arith)
            requires n == to * q + 0, m == n + to - 1;
        vstd::arithmetic::div_mod::lemma_fundamental_div_mod_converse(m, to, q, to - 1);
        vstd::arithmetic::mul::lemma_mul_is_commutative(to, q);
    }
}

/// Round `n` up to the next multiple of `to`.
pub fn align_up(n: u64, to: u64) -> (r: u64)
    requires
        0 < to,
        n + to <= u64::MAX,
    ensures
        r == rounded_up(n as int, to as int),
{
    proof {
        lemma_rounded_up(n as int, to as int);
    }
    (n + to - 1) / to * to
}

/// `n` zero bytes.
pub open spec fn zeros(n: int) -> Seq<u8> {
    Seq::new(n as nat, |i: int| 0u8)
}

/// The middle of three joined parts.
pub proof fn lemma_middle(front: Seq<u8>, mid: Seq<u8>, back: Seq<u8>)
    ensures
        (front + mid + back).subrange(front.len() as int, (front.len() + mid.len()) as int) == mid,
{
    assert((front + mid + back).subrange(front.len() as int, (front.len() + mid.len()) as int)
        =~= mid);
}

/// A cut inside the middle of three joined parts is a cut of the middle.
pub proof fn lemma_cut(front: Seq<u8>, mid: Seq<u8>, back: Seq<u8>, i: int, j: int)
    requires
        0 <= i <= j <= mid.len(),
    ensures
        (front + mid + back).subrange(front.len() + i, front.len() + j) == mid.subrange(i, j),
{
    assert((front + mid + back).subrange(front.len() + i, front.len() + j) =~= mid.subrange(i, j));
}

/// Append every byte of `more` to `out`.
pub fn append_bytes(out: &mut Vec<u8>, more: &[u8])
    ensures
        final(out)@ == old(out)@ + more@,
{
    out.extend_from_slice(more);
    assert(out@ =~= old(out)@ + more@);
}

/// `n` zero bytes as a vector.
pub fn zero_bytes(n: usize) -> (r: Vec<u8>)
    ensures
        r@ == zeros(n as int),
{
    let r: Vec<u8> = vec![0u8; n];
    assert(r@ =~= zeros(n as int));
    r
}

/// Append `n` zero bytes to `out`.
pub fn append_zeros(out: &mut Vec<u8>, n: usize)
    ensures
        final(out)@ == old(out)@ + zeros(n as int),
{
    let gap: Vec<u8> = zero_bytes(n);
    append_bytes(out, gap.as_slice());
}

/// The bytes of `data` from `start` up to `end`, as a vector.
pub fn copy_range(data: &[u8], start: usize, end: usize) -> (r: Vec<u8>)
    requires
        start <= end <= data@.len(),
    ensures
        r@ == data@.subrange(start as int, end as int),
{
    vstd::slice::slice_to_vec(vstd::slice::slice_subrange(data, start, end))
}

/// Whether two byte strings are equal.
pub fn bytes_equal(a: &[u8], b: &[u8]) -> (r: bool)
    ensures
        r == (a@ == b@),
{
    if a.len() != b.len() {
        return false;
    }
    let mut i: usize = 0;
    while i < a.len()
        invariant
            a@.len() == b@.len(),
            i <= a@.len(),
            forall|j: int| 0 <= j < i ==> a@[j] == b@[j],
        decreases a@.len() - i,
    {
        if a[i] != b[i] {
            return false;
        }
        i += 1;
    }
    assert(a@ =~= b@);
    true
}

/// `data` with the bytes at `at` replaced by `patch`.
pub open spec fn spliced(data: Seq<u8>, at: int, patch: Seq<u8>) -> Seq<u8> {
    data.subrange(0, at) + patch + data.subrange(at + patch.len(), data.len() as int)
}

/// Overwrite `data` at `at` with `patch`.
pub fn write_at(data: &mut Vec<u8>, at: usize, patch: &[u8])
    requires
        at + patch@.len() <= old(data)@.len(),
    ensures
        final(data)@ == spliced(old(data)@, at as int, patch@),
{
    let ghost before = data@;
    let mut i: usize = 0;
    while i < patch.len()
        invariant
            i <= patch@.len(),
            at + patch@.len() <= before.len(),
            data@ == spliced(before, at as int, patch@.subrange(0, i as int)),
        decreases patch@.len() - i,
    {
        assert(data.len() == before.len());
        data.set(at + i, patch[i]);
        i += 1;
        assert(data@ =~= spliced(before, at as int, patch@.subrange(0, i as int)));
    }
    assert(patch@.subrange(0, i as int) =~= patch@);
}

/// `x` as two bytes, most significant first.
pub open spec fn be16(x: u16) -> Seq<u8> {
    seq![(x / 0x100) as u8, (x % 0x100) as u8]
}

/// `x` as four bytes, most significant first.
pub open spec fn be32(x: u32) -> Seq<u8> {
    be16((x / 0x1_0000) as u16) + be16((x % 0x1_0000) as u16)
}

/// `x` as eight bytes, most significant first.
pub open spec fn be64(x: u64) -> Seq<u8> {
    be32((x / 0x1_0000_0000) as u32) + be32((x % 0x1_0000_0000) as u32)
}

/// The number whose two bytes stand at `at`.
pub open spec fn be16_at(data: Seq<u8>, at: int) -> u16 {
    (data[at] * 0x100 + data[at + 1]) as u16
}

/// The number whose four bytes stand at `at`.
pub open spec fn be32_at(data: Seq<u8>, at: int) -> u32 {
    (be16_at(data, at) * 0x1_0000 + be16_at(data, at + 2)) as u32
}

/// The number whose eight bytes stand at `at`.
pub open spec fn be64_at(data: Seq<u8>, at: int) -> u64 {
    (be32_at(data, at) * 0x1_0000_0000 + be32_at(data, at + 4)) as u64
}

/// Reading two bytes gives back the number that was written.
pub proof fn lemma_be16(data: Seq<u8>, at: int, x: u16)
    requires
        0 <= at,
        at + 2 <= data.len(),
        data.subrange(at, at + 2) == be16(x),
    ensures
        be16_at(data, at) == x,
{
    assert(data.subrange(at, at + 2)[0] == data[at]);
    assert(data.subrange(at, at + 2)[1] == data[at + 1]);
}

/// Reading four bytes gives back the number that was written.
pub proof fn lemma_be32(data: Seq<u8>, at: int, x: u32)
    requires
        0 <= at,
        at + 4 <= data.len(),
        data.subrange(at, at + 4) == be32(x),
    ensures
        be32_at(data, at) == x,
{
    let hi = (x / 0x1_0000) as u16;
    let lo = (x % 0x1_0000) as u16;
    assert(data.subrange(at, at + 2) =~= be16(hi)) by {
        assert(data.subrange(at, at + 2) =~= data.subrange(at, at + 4).subrange(0, 2));
    }
    assert(data.subrange(at + 2, at + 4) =~= be16(lo)) by {
        assert(data.subrange(at + 2, at + 4) =~= data.subrange(at, at + 4).subrange(2, 4));
    }
    lemma_be16(data, at, hi);
    lemma_be16(data, at + 2, lo);
}

/// Reading eight bytes gives back the number that was written.
pub proof fn lemma_be64(data: Seq<u8>, at: int, x: u64)
    requires
        0 <= at,
        at + 8 <= data.len(),
        data.subrange(at, at + 8) == be64(x),
    ensures
        be64_at(data, at) == x,
{
    let hi = (x / 0x1_0000_0000) as u32;
    let lo = (x % 0x1_0000_0000) as u32;
    assert(data.subrange(at, at + 4) =~= be32(hi)) by {
        assert(data.subrange(at, at + 4) =~= data.subrange(at, at + 8).subrange(0, 4));
    }
    assert(data.subrange(at + 4, at + 8) =~= be32(lo)) by {
        assert(data.subrange(at + 4, at + 8) =~= data.subrange(at, at + 8).subrange(4, 8));
    }
    lemma_be32(data, at, hi);
    lemma_be32(data, at + 4, lo);
}

/// Append `x`, most significant byte first.
pub fn push_be16(out: &mut Vec<u8>, x: u16)
    ensures
        final(out)@ == old(out)@ + be16(x),
{
    out.push((x / 0x100) as u8);
    out.push((x % 0x100) as u8);
    assert(out@ =~= old(out)@ + be16(x));
}

/// Append `x`, most significant byte first.
pub fn push_be32(out: &mut Vec<u8>, x: u32)
    ensures
        final(out)@ == old(out)@ + be32(x),
{
    push_be16(out, (x / 0x1_0000) as u16);
    push_be16(out, (x % 0x1_0000) as u16);
    assert(out@ =~= old(out)@ + be32(x));
}

/// Append `x`, most significant byte first.
pub fn push_be64(out: &mut Vec<u8>, x: u64)
    ensures
        final(out)@ == old(out)@ + be64(x),
{
    push_be32(out, (x / 0x1_0000_0000) as u32);
    push_be32(out, (x % 0x1_0000_0000) as u32);
    assert(out@ =~= old(out)@ + be64(x));
}

/// The number at `at`, most significant byte first.
pub fn read_be16(data: &[u8], at: usize) -> (r: u16)
    requires
        at + 2 <= data@.len(),
    ensures
        r == be16_at(data@, at as int),
{
    data[at] as u16 * 0x100 + data[at + 1] as u16
}

/// The number at `at`, most significant byte first.
pub fn read_be32(data: &[u8], at: usize) -> (r: u32)
    requires
        at + 4 <= data@.len(),
    ensures
        r == be32_at(data@, at as int),
{
    assert(data.len() == data@.len());
    read_be16(data, at) as u32 * 0x1_0000 + read_be16(data, at + 2) as u32
}

/// The number at `at`, most significant byte first.
pub fn read_be64(data: &[u8], at: usize) -> (r: u64)
    requires
        at + 8 <= data@.len(),
    ensures
        r == be64_at(data@, at as int),
{
    assert(data.len() == data@.len());
    read_be32(data, at) as u64 * 0x1_0000_0000 + read_be32(data, at + 4) as u64
}

/// Numbers are stored with their high byte first, in as many bytes as they have.
pub proof fn law_numbers_are_stored_high_byte_first(x: u16, y: u32, z: u64)
    ensures
        be16(x).len() == 2,
        be16(x)[0] * 0x100 + be16(x)[1] == x,
        be32(y).len() == 4,
        be32(y)[0] * 0x100_0000 + be32(y)[1] * 0x1_0000 + be32(y)[2] * 0x100 + be32(y)[3] == y,
        be64(z).len() == 8,
        be64(z)[0] * 0x100_0000_0000_0000 + be64(z)[1] * 0x1_0000_0000_0000 + be64(z)[2]
            * 0x100_0000_0000 + be64(z)[3] * 0x1_0000_0000 + be64(z)[4] * 0x100_0000 + be64(z)[5]
            * 0x1_0000 + be64(z)[6] * 0x100 + be64(z)[7] == z,
{
    lemma_be16_bytes(x);
    lemma_be32_bytes(y);
    let high = (z / 0x1_0000_0000) as u32;
    let low = (z % 0x1_0000_0000) as u32;
    lemma_be32_bytes(high);
    lemma_be32_bytes(low);
    assert(be64(z) =~= be32(high) + be32(low));
    assert(z == high * 0x1_0000_0000 + low);
}

/// The bytes of a 16-bit number.
pub proof fn lemma_be16_bytes(x: u16)
    ensures
        be16(x).len() == 2,
        be16(x)[0] == x / 0x100,
        be16(x)[1] == x % 0x100,
        be16(x)[0] * 0x100 + be16(x)[1] == x,
{
}

/// The bytes of a 32-bit number.
pub proof fn lemma_be32_bytes(y: u32)
    ensures
        be32(y).len() == 4,
        be32(y)[0] == y / 0x100_0000,
        be32(y)[1] == y / 0x1_0000 % 0x100,
        be32(y)[2] == y / 0x100 % 0x100,
        be32(y)[3] == y % 0x100,
        be32(y)[0] * 0x100_0000 + be32(y)[1] * 0x1_0000 + be32(y)[2] * 0x100 + be32(y)[3] == y,
{
    let high = (y / 0x1_0000) as u16;
    let low = (y % 0x1_0000) as u16;
    lemma_be16_bytes(high);
    lemma_be16_bytes(low);
    assert(be32(y)[0] == be16(high)[0] && be32(y)[1] == be16(high)[1]);
    assert(be32(y)[2] == be16(low)[0] && be32(y)[3] == be16(low)[1]);
}

/// A number is read from its place with the first byte there as the high one.
pub proof fn law_numbers_are_read_high_byte_first(data: Seq<u8>, at: int)
    requires
        0 <= at,
    ensures
        at + 2 <= data.len() ==> be16_at(data, at) == data[at] * 0x100 + data[at + 1],
        at + 4 <= data.len() ==> be32_at(data, at) == data[at] * 0x100_0000 + data[at + 1]
            * 0x1_0000 + data[at + 2] * 0x100 + data[at + 3],
        at + 8 <= data.len() ==> be64_at(data, at) == data[at] * 0x100_0000_0000_0000 + data[at + 1]
            * 0x1_0000_0000_0000 + data[at + 2] * 0x100_0000_0000 + data[at + 3] * 0x1_0000_0000
            + data[at + 4] * 0x100_0000 + data[at + 5] * 0x1_0000 + data[at + 6] * 0x100 + data[at
            + 7],
{
    if at + 2 <= data.len() {
        assert(be16_at(data, at) == data[at] * 0x100 + data[at + 1]);
    }
    if at + 4 <= data.len() {
        assert(be16_at(data, at + 2) == data[at + 2] * 0x100 + data[at + 3]);
    }
    if at + 8 <= data.len() {
        assert(be16_at(data, at + 4) == data[at + 4] * 0x100 + data[at + 5]);
        assert(be16_at(data, at + 6) == data[at + 6] * 0x100 + data[at + 7]);
        assert(be32_at(data, at + 4) == be16_at(data, at + 4) * 0x1_0000 + be16_at(data, at + 6));
    }
}

/// Overwriting changes the bytes of the patch and no others, and keeps the length.
pub proof fn law_overwriting_changes_the_patch_alone(data: Seq<u8>, at: int, patch: Seq<u8>, k: int)
    requires
        0 <= at,
        at + patch.len() <= data.len(),
        0 <= k < data.len(),
    ensures
        spliced(data, at, patch).len() == data.len(),
        at <= k < at + patch.len() ==> spliced(data, at, patch)[k] == patch[k - at],
        k < at || at + patch.len() <= k ==> spliced(data, at, patch)[k] == data[k],
        zeros(data.len() as int).len() == data.len(),
        zeros(data.len() as int)[k] == 0,
{
}

/// Four bytes are told by the number that they spell.
pub proof fn lemma_four_bytes(a: u8, b: u8, c: u8, d: u8, e: u8, f: u8, g: u8, h: u8)
    requires
        a * 0x100_0000 + b * 0x1_0000 + c * 0x100 + d == e * 0x100_0000 + f * 0x1_0000 + g * 0x100
            + h,
    ensures
        a == e && b == f && c == g && d == h,
{
}

/// The high and the low half of a number are told by it.
pub proof fn lemma_halves(a: int, b: int, c: int, d: int)
    requires
        0 <= b < 0x1_0000_0000,
        0 <= d < 0x1_0000_0000,
        a * 0x1_0000_0000 + b == c * 0x1_0000_0000 + d,
    ensures
        a == c && b == d,
{
}

} // verus!
