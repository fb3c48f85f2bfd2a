//! Encryption of NFS sectors.
//!
//! Each logical sector is encrypted on its own, with the base title's key and an IV of twelve
//! zero bytes followed by the sector number.

use vstd::prelude::*;

use crate::aes_cbc::{cbc_decrypted, cbc_encrypted, decrypt, encrypt, AES_BLOCK};
use crate::util::{be32, lemma_be32_bytes, lemma_four_bytes, zeros};

verus! {

/// The IV of a logical sector.
pub open spec fn sector_iv_of(logical_sector: u32) -> Seq<u8> {
    zeros(12) + be32(logical_sector)
}

/// The part of a buffer that consists of whole AES blocks.
pub open spec fn whole_blocks(buf: Seq<u8>) -> Seq<u8> {
    buf.subrange(0, buf.len() as int / 16 * 16)
}

/// What follows the whole AES blocks of a buffer.
pub open spec fn ragged_tail(buf: Seq<u8>) -> Seq<u8> {
    buf.subrange(buf.len() as int / 16 * 16, buf.len() as int)
}

/// The IV of a logical sector.
pub fn sector_iv(logical_sector: u32) -> (iv: [u8; 16])
    ensures
        iv@ == sector_iv_of(logical_sector),
        forall|i: int| 0 <= i < 12 ==> iv@[i] == 0,
        iv@[12] * 0x100_0000 + iv@[13] * 0x1_0000 + iv@[14] * 0x100 + iv@[15] == logical_sector,
{
    let mut iv: [u8; 16] = [0u8; 16];
    iv[12] = (logical_sector / 0x1_0000 / 0x100) as u8;
    iv[13] = (logical_sector / 0x1_0000 % 0x100) as u8;
    iv[14] = (logical_sector % 0x1_0000 / 0x100) as u8;
    iv[15] = (logical_sector % 0x1_0000 % 0x100) as u8;
    assert(iv@ =~= sector_iv_of(logical_sector));
    proof {
        law_iv_spells_the_sector_number(logical_sector);
    }
    iv
}

/// Length of the whole AES blocks at the front of `buf`.
fn aligned_len(buf: &[u8]) -> (len: usize)
    ensures
        len == buf@.len() / 16 * 16,
{
    buf.len() / AES_BLOCK * AES_BLOCK
}

/// Whether `after` is what encrypting the sector `before` gives: its whole blocks are encrypted,
/// and decrypt to what they were; its ragged tail stays.
pub open spec fn sector_encrypted(
    key: Seq<u8>,
    logical_sector: u32,
    before: Seq<u8>,
    after: Seq<u8>,
) -> bool {
    let iv = sector_iv_of(logical_sector);
    &&& after.len() == before.len()
    &&& whole_blocks(after) == cbc_encrypted(key, iv, whole_blocks(before))
    &&& ragged_tail(after) == ragged_tail(before)
    &&& cbc_decrypted(key, iv, whole_blocks(after)) == whole_blocks(before)
}

/// Whether `after` is what decrypting the sector `before` gives: its whole blocks are decrypted,
/// and encrypt to what they were; its ragged tail stays.
pub open spec fn sector_decrypted(
    key: Seq<u8>,
    logical_sector: u32,
    before: Seq<u8>,
    after: Seq<u8>,
) -> bool {
    let iv = sector_iv_of(logical_sector);
    &&& after.len() == before.len()
    &&& whole_blocks(after) == cbc_decrypted(key, iv, whole_blocks(before))
    &&& ragged_tail(after) == ragged_tail(before)
    &&& cbc_encrypted(key, iv, whole_blocks(after)) == whole_blocks(before)
}

/// Encrypt one logical sector in place. Of a buffer that is no whole number of AES blocks, the
/// ragged tail is left as it is. Decrypting gives the buffer back.
pub fn encrypt_sector(key: &[u8; 16], logical_sector: u32, buf: &mut [u8])
    ensures
        sector_encrypted(key@, logical_sector, old(buf)@, final(buf)@),
{
    let ghost before = buf@;
    let iv: [u8; 16] = sector_iv(logical_sector);
    let len: usize = aligned_len(buf);
    let (head, tail) = buf.split_at_mut(len);
    let done = encrypt(key, &iv, head);
    assert(done is Ok);
    proof {
        lemma_parts(before, final(buf)@, head@, tail@);
    }
}

/// Decrypt one logical sector in place. Of a buffer that is no whole number of AES blocks, the
/// ragged tail is left as it is. Encrypting gives the buffer back.
pub fn decrypt_sector(key: &[u8; 16], logical_sector: u32, buf: &mut [u8])
    ensures
        sector_decrypted(key@, logical_sector, old(buf)@, final(buf)@),
{
    let ghost before = buf@;
    let iv: [u8; 16] = sector_iv(logical_sector);
    let len: usize = aligned_len(buf);
    let (head, tail) = buf.split_at_mut(len);
    let done = decrypt(key, &iv, head);
    assert(done is Ok);
    proof {
        lemma_parts(before, final(buf)@, head@, tail@);
    }
}

/// A buffer joined from whole blocks and a tail falls into these parts again.
proof fn lemma_parts(before: Seq<u8>, after: Seq<u8>, head: Seq<u8>, tail: Seq<u8>)
    requires
        head.len() == before.len() as int / 16 * 16,
        tail == ragged_tail(before),
        after == head + tail,
    ensures
        after.len() == before.len(),
        whole_blocks(after) == head,
        ragged_tail(after) == tail,
{
    assert(whole_blocks(after) =~= head);
    assert(ragged_tail(after) =~= tail);
}

/// A buffer is its whole blocks and its tail.
proof fn lemma_joined(buf: Seq<u8>)
    ensures
        whole_blocks(buf) + ragged_tail(buf) == buf,
{
    assert(whole_blocks(buf) + ragged_tail(buf) =~= buf);
}

/// Decrypting an encrypted sector under the same key and number restores it, whatever its length.
pub proof fn law_decrypting_undoes_encrypting(
    key: Seq<u8>,
    logical_sector: u32,
    buf: Seq<u8>,
    encrypted: Seq<u8>,
    decrypted: Seq<u8>,
)
    requires
        sector_encrypted(key, logical_sector, buf, encrypted),
        sector_decrypted(key, logical_sector, encrypted, decrypted),
    ensures
        decrypted == buf,
{
    lemma_joined(buf);
    lemma_joined(decrypted);
}

/// Encrypting a decrypted sector under the same key and number restores it, whatever its length.
pub proof fn law_encrypting_undoes_decrypting(
    key: Seq<u8>,
    logical_sector: u32,
    buf: Seq<u8>,
    decrypted: Seq<u8>,
    encrypted: Seq<u8>,
)
    requires
        sector_decrypted(key, logical_sector, buf, decrypted),
        sector_encrypted(key, logical_sector, decrypted, encrypted),
    ensures
        encrypted == buf,
{
    lemma_joined(buf);
    lemma_joined(encrypted);
}

/// An IV is 16 bytes long: twelve zeros, and the whole sector number with its high byte first.
pub proof fn law_iv_spells_the_sector_number(logical_sector: u32)
    ensures
        sector_iv_of(logical_sector).len() == 16,
        forall|i: int| 0 <= i < 12 ==> #[trigger] sector_iv_of(logical_sector)[i] == 0,
        sector_iv_of(logical_sector)[12] * 0x100_0000 + sector_iv_of(logical_sector)[13] * 0x1_0000
            + sector_iv_of(logical_sector)[14] * 0x100 + sector_iv_of(logical_sector)[15]
            == logical_sector,
{
    let iv = sector_iv_of(logical_sector);
    let number = be32(logical_sector);
    lemma_be32_bytes(logical_sector);
    assert(iv[12] == number[0] && iv[13] == number[1] && iv[14] == number[2] && iv[15]
        == number[3]);
}

/// No two sectors share an IV.
pub proof fn law_sectors_have_ivs_of_their_own(a: u32, b: u32)
    requires
        a != b,
    ensures
        sector_iv_of(a) != sector_iv_of(b),
{
    law_iv_spells_the_sector_number(a);
    law_iv_spells_the_sector_number(b);
}

/// A sector is encrypted by AES-CBC with the one IV that spells its number, and decrypts with
/// that IV: all of its whole 16-byte blocks are, and nothing behind them.
pub proof fn law_sector_is_sealed_with_its_number(
    key: Seq<u8>,
    logical_sector: u32,
    before: Seq<u8>,
    after: Seq<u8>,
    iv: Seq<u8>,
)
    requires
        sector_encrypted(key, logical_sector, before, after),
        iv.len() == 16,
        forall|i: int| 0 <= i < 12 ==> #[trigger] iv[i] == 0,
        iv[12] * 0x100_0000 + iv[13] * 0x1_0000 + iv[14] * 0x100 + iv[15] == logical_sector,
    ensures
        after.len() == before.len(),
        after.subrange(0, before.len() - before.len() % 16) == cbc_encrypted(
            key,
            iv,
            before.subrange(0, before.len() - before.len() % 16),
        ),
        cbc_decrypted(key, iv, after.subrange(0, before.len() - before.len() % 16))
            == before.subrange(0, before.len() - before.len() % 16),
        forall|i: int|
            before.len() - before.len() % 16 <= i < before.len() ==> #[trigger] after[i]
                == before[i],
{
    lemma_iv_is_spelt(logical_sector, iv);
    assert(before.len() as int / 16 * 16 == before.len() - before.len() % 16);
    assert forall|i: int|
        before.len() - before.len() % 16 <= i < before.len() implies #[trigger] after[i]
        == before[i] by {
        let n = before.len() - before.len() % 16;
        assert(ragged_tail(after)[i - n] == ragged_tail(before)[i - n]);
    }
}

/// A sector is decrypted by AES-CBC with the one IV that spells its number.
pub proof fn law_sector_is_opened_with_its_number(
    key: Seq<u8>,
    logical_sector: u32,
    before: Seq<u8>,
    after: Seq<u8>,
    iv: Seq<u8>,
)
    requires
        sector_decrypted(key, logical_sector, before, after),
        iv.len() == 16,
        forall|i: int| 0 <= i < 12 ==> #[trigger] iv[i] == 0,
        iv[12] * 0x100_0000 + iv[13] * 0x1_0000 + iv[14] * 0x100 + iv[15] == logical_sector,
    ensures
        after.len() == before.len(),
        after.subrange(0, before.len() - before.len() % 16) == cbc_decrypted(
            key,
            iv,
            before.subrange(0, before.len() - before.len() % 16),
        ),
        forall|i: int|
            before.len() - before.len() % 16 <= i < before.len() ==> #[trigger] after[i]
                == before[i],
{
    lemma_iv_is_spelt(logical_sector, iv);
    assert(before.len() as int / 16 * 16 == before.len() - before.len() % 16);
    assert forall|i: int|
        before.len() - before.len() % 16 <= i < before.len() implies #[trigger] after[i]
        == before[i] by {
        let n = before.len() - before.len() % 16;
        assert(ragged_tail(after)[i - n] == ragged_tail(before)[i - n]);
    }
}

/// Twelve zeros and four bytes that spell a sector number are its IV.
pub proof fn lemma_iv_is_spelt(logical_sector: u32, iv: Seq<u8>)
    requires
        iv.len() == 16,
        forall|i: int| 0 <= i < 12 ==> #[trigger] iv[i] == 0,
        iv[12] * 0x100_0000 + iv[13] * 0x1_0000 + iv[14] * 0x100 + iv[15] == logical_sector,
    ensures
        iv == sector_iv_of(logical_sector),
{
    law_iv_spells_the_sector_number(logical_sector);
    let own = sector_iv_of(logical_sector);
    lemma_four_bytes(iv[12], iv[13], iv[14], iv[15], own[12], own[13], own[14], own[15]);
    assert(own =~= iv);
}

} // verus!
