//! The ticket (`title.tik`).
//!
//! A ticket holds the title key encrypted with the common key; the IV is the title id followed
//! by zeros. It is not signed: the console has to be patched to accept it.

use vstd::prelude::*;

use crate::aes_cbc::{cbc_decrypted, cbc_encrypted, decrypt, encrypt, key_from, Key};
use crate::util::{
    append_bytes, append_zeros, be32, be64, be64_at, copy_range,
    law_numbers_are_stored_high_byte_first, lemma_be32_bytes, lemma_be64, lemma_four_bytes,
    lemma_halves, push_be32, push_be64, zeros,
};

verus! {

/// Size of a ticket.
pub const TICKET_SIZE: usize = 0x350;

/// Where a ticket holds the encrypted title key.
pub const TICKET_KEY_AT: usize = 0x1BF;

/// Where a ticket holds the title id.
pub const TICKET_TITLE_ID_AT: usize = 0x1DC;

/// The type of the signature: RSA-2048 over SHA-256.
const SIGNATURE_TYPE: u32 = 0x0001_0004;

/// The issuer: `Root-CA00000003-XS0000000c`.
pub const TICKET_ISSUER: [u8; 26] = [
    0x52, 0x6f, 0x6f, 0x74, 0x2d, 0x43, 0x41, 0x30, 0x30, 0x30, 0x30, 0x30, 0x30, 0x30, 0x33, 0x2d,
    0x58, 0x53, 0x30, 0x30, 0x30, 0x30, 0x30, 0x30, 0x30, 0x63,
];

/// The section that grants the right to every content.
pub const CONTENT_RIGHTS: [u8; 48] = [
    0x00, 0x01, 0x00, 0x14, 0x00, 0x00, 0x00, 0xAC, 0x00, 0x00, 0x00, 0x14, 0x00, 0x01, 0x00, 0x14,
    0x00, 0x00, 0x00, 0x00, 0x00, 0x00, 0x00, 0x28, 0x00, 0x00, 0x00, 0x01, 0x00, 0x00, 0x00, 0x84,
    0x00, 0x00, 0x00, 0x84, 0x00, 0x03, 0x00, 0x00, 0x00, 0x00, 0x00, 0x00, 0xFF, 0xFF, 0xFF, 0x01,
];

/// The IV of a title's key.
pub open spec fn title_iv_of(title_id: u64) -> Seq<u8> {
    be64(title_id) + zeros(8)
}

/// The IV of a title's key.
fn title_iv(title_id: u64) -> (r: [u8; 16])
    ensures
        r@ == title_iv_of(title_id),
{
    let mut id: Vec<u8> = Vec::new();
    push_be64(&mut id, title_id);
    let mut iv: [u8; 16] = [0u8; 16];
    let mut i: usize = 0;
    while i < 8
        invariant
            i <= 8,
            id@ == be64(title_id),
            forall|j: int| 0 <= j < i ==> iv@[j] == id@[j],
            forall|j: int| i <= j < 16 ==> iv@[j] == 0,
        decreases 8 - i,
    {
        iv[i] = id[i];
        i += 1;
    }
    assert(iv@ =~= title_iv_of(title_id));
    iv
}

/// Encrypt a title key for its ticket. Decrypting the result gives the key back.
pub fn encrypt_title_key(common_key: &Key, title_id: u64, title_key: &Key) -> (r: Key)
    ensures
        r@ == cbc_encrypted(common_key@, title_iv_of(title_id), title_key@),
        cbc_decrypted(common_key@, title_iv_of(title_id), r@) == title_key@,
{
    let mut key: Vec<u8> = copy_range(title_key.as_slice(), 0, 16);
    assert(key@ =~= title_key@);
    let iv: [u8; 16] = title_iv(title_id);
    let done = encrypt(common_key, &iv, key.as_mut_slice());
    assert(done is Ok);
    key_from(key.as_slice())
}

/// Decrypt the title key of a ticket. Encrypting the result gives the ticket's key back.
pub fn decrypt_title_key(common_key: &Key, title_id: u64, enc_title_key: &Key) -> (r: Key)
    ensures
        r@ == cbc_decrypted(common_key@, title_iv_of(title_id), enc_title_key@),
        cbc_encrypted(common_key@, title_iv_of(title_id), r@) == enc_title_key@,
{
    let mut key: Vec<u8> = copy_range(enc_title_key.as_slice(), 0, 16);
    assert(key@ =~= enc_title_key@);
    let iv: [u8; 16] = title_iv(title_id);
    let done = decrypt(common_key, &iv, key.as_mut_slice());
    assert(done is Ok);
    key_from(key.as_slice())
}

/// What stands in front of the key: the signature, which is zero, the issuer at 0x140, and the
/// format version at 0x1BC.
pub open spec fn ticket_front() -> Seq<u8> {
    be32(0x0001_0004) + zeros(0x13C) + TICKET_ISSUER@ + zeros(0x62) + seq![1u8, 0u8, 0u8]
}

/// What stands behind the title id.
pub open spec fn ticket_back() -> Seq<u8> {
    be32(0x11) + zeros(8) + be32(5) + zeros(0xB0) + CONTENT_RIGHTS@ + zeros(0x7C)
}

/// A ticket. The ticket id at 0x1D0 starts with 5 and is zero otherwise.
pub open spec fn ticket_bytes(title_id: u64, enc_title_key: Seq<u8>) -> Seq<u8> {
    ticket_front() + enc_title_key + (seq![0u8, 0u8, 5u8] + zeros(10)) + be64(title_id)
        + ticket_back()
}

/// Append what stands in front of the key.
fn put_front(out: &mut Vec<u8>)
    ensures
        final(out)@ == old(out)@ + ticket_front(),
{
    push_be32(out, SIGNATURE_TYPE);
    append_zeros(out, 0x13C);
    append_bytes(out, TICKET_ISSUER.as_slice());
    append_zeros(out, 0x62);
    out.push(1);
    out.push(0);
    out.push(0);
    assert(out@ =~= old(out)@ + ticket_front());
}

/// Append what stands behind the title id.
fn put_back(out: &mut Vec<u8>)
    ensures
        final(out)@ == old(out)@ + ticket_back(),
{
    push_be32(out, 0x11);
    append_zeros(out, 8);
    push_be32(out, 5);
    append_zeros(out, 0xB0);
    append_bytes(out, CONTENT_RIGHTS.as_slice());
    append_zeros(out, 0x7C);
    assert(out@ =~= old(out)@ + ticket_back());
}

/// Build a ticket around an encrypted title key.
pub fn build_ticket(title_id: u64, enc_title_key: &Key) -> (r: Vec<u8>)
    ensures
        r@ == ticket_bytes(title_id, enc_title_key@),
{
    let mut out: Vec<u8> = Vec::with_capacity(TICKET_SIZE);
    put_front(&mut out);
    append_bytes(&mut out, enc_title_key.as_slice());
    let ghost before = out@;
    out.push(0);
    out.push(0);
    out.push(5);
    append_zeros(&mut out, 10);
    assert(out@ =~= before + (seq![0u8, 0u8, 5u8] + zeros(10)));
    push_be64(&mut out, title_id);
    put_back(&mut out);
    assert(out@ =~= ticket_bytes(title_id, enc_title_key@));
    out
}

/// A ticket has its fixed size and holds the key and the title id where readers look for them.
pub proof fn law_ticket_carries_the_key(title_id: u64, enc_title_key: Seq<u8>)
    requires
        enc_title_key.len() == 16,
    ensures
        ticket_bytes(title_id, enc_title_key).len() == TICKET_SIZE,
        ticket_bytes(title_id, enc_title_key).subrange(
            TICKET_KEY_AT as int,
            TICKET_KEY_AT + 16,
        ) == enc_title_key,
        be64_at(ticket_bytes(title_id, enc_title_key), TICKET_TITLE_ID_AT as int) == title_id,
{
    let all = ticket_bytes(title_id, enc_title_key);
    assert(ticket_front().len() == 0x1BF);
    assert(ticket_back().len() == 0x16C);
    assert(all.subrange(0x1BF, 0x1CF) =~= enc_title_key);
    assert(all.subrange(0x1DC, 0x1E4) =~= be64(title_id));
    lemma_be64(all, 0x1DC, title_id);
}

/// The IV of a title's key is 16 bytes long: the whole title id with its high byte first, and
/// eight zeros.
pub proof fn law_key_iv_spells_the_title_id(title_id: u64)
    ensures
        ({
            let iv = title_iv_of(title_id);
            &&& iv.len() == 16
            &&& iv[0] * 0x100_0000_0000_0000 + iv[1] * 0x1_0000_0000_0000 + iv[2] * 0x100_0000_0000
                + iv[3] * 0x1_0000_0000 + iv[4] * 0x100_0000 + iv[5] * 0x1_0000 + iv[6] * 0x100
                + iv[7] == title_id
            &&& forall|i: int| 8 <= i < 16 ==> #[trigger] iv[i] == 0
        }),
{
    law_numbers_are_stored_high_byte_first(0, 0, title_id);
    let iv = title_iv_of(title_id);
    assert(forall|i: int| 0 <= i < 8 ==> iv[i] == be64(title_id)[i]);
}

/// No two titles share the IV of their key.
pub proof fn law_titles_have_key_ivs_of_their_own(a: u64, b: u64)
    requires
        a != b,
    ensures
        title_iv_of(a) != title_iv_of(b),
{
    law_key_iv_spells_the_title_id(a);
    law_key_iv_spells_the_title_id(b);
}

/// A ticket byte for byte: the signature type, an empty signature, the issuer, the format version,
/// the encrypted key, the ticket id, the title id and the rights to every content; the rest is
/// zero.
pub proof fn law_ticket_layout(title_id: u64, key: Seq<u8>, k: int)
    requires
        key.len() == 16,
        0 <= k < 0x350,
    ensures
        ({
            let all = ticket_bytes(title_id, key);
            &&& all.len() == 0x350
            &&& all[0] == 0 && all[1] == 1 && all[2] == 0 && all[3] == 4
            &&& 4 <= k < 0x140 ==> all[k] == 0
            &&& 0x140 <= k < 0x15A ==> all[k] == TICKET_ISSUER@[k - 0x140]
            &&& 0x15A <= k < 0x1BC ==> all[k] == 0
            &&& all[0x1BC] == 1 && all[0x1BD] == 0 && all[0x1BE] == 0
            &&& 0x1BF <= k < 0x1CF ==> all[k] == key[k - 0x1BF]
            &&& all[0x1CF] == 0 && all[0x1D0] == 0 && all[0x1D1] == 5
            &&& 0x1D2 <= k < 0x1DC ==> all[k] == 0
            &&& all[0x1DC] * 0x100_0000_0000_0000 + all[0x1DD] * 0x1_0000_0000_0000 + all[0x1DE]
                * 0x100_0000_0000 + all[0x1DF] * 0x1_0000_0000 + all[0x1E0] * 0x100_0000
                + all[0x1E1] * 0x1_0000 + all[0x1E2] * 0x100 + all[0x1E3] == title_id
            &&& all[0x1E4] == 0 && all[0x1E5] == 0 && all[0x1E6] == 0 && all[0x1E7] == 0x11
            &&& 0x1E8 <= k < 0x1F0 ==> all[k] == 0
            &&& all[0x1F0] == 0 && all[0x1F1] == 0 && all[0x1F2] == 0 && all[0x1F3] == 5
            &&& 0x1F4 <= k < 0x2A4 ==> all[k] == 0
            &&& 0x2A4 <= k < 0x2D4 ==> all[k] == CONTENT_RIGHTS@[k - 0x2A4]
            &&& 0x2D4 <= k ==> all[k] == 0
        }),
{
    let all = ticket_bytes(title_id, key);
    let front = ticket_front();
    let back = ticket_back();
    law_numbers_are_stored_high_byte_first(0, 0x0001_0004, title_id);
    lemma_be32_bytes(0x0001_0004);
    lemma_be32_bytes(0x11);
    lemma_be32_bytes(5);
    assert(front.len() == 0x1BF);
    assert(back.len() == 0x16C);
    assert(forall|i: int| 0 <= i < 0x1BF ==> all[i] == front[i]);
    assert(forall|i: int| 0 <= i < 8 ==> all[0x1DC + i] == be64(title_id)[i]);
    assert(forall|i: int| 0 <= i < 0x16C ==> all[0x1E4 + i] == back[i]);
    assert(all[0] == front[0] && all[1] == front[1] && all[2] == front[2] && all[3] == front[3]);
    assert(all[0x1BC] == front[0x1BC] && all[0x1BD] == front[0x1BD] && all[0x1BE] == front[0x1BE]);
    assert(all[0x1DC] == be64(title_id)[0] && all[0x1DD] == be64(title_id)[1] && all[0x1DE] == be64(title_id)[2] && all[0x1DF] == be64(title_id)[3] && all[0x1E0] == be64(
        title_id,
    )[4] && all[0x1E1] == be64(title_id)[5] && all[0x1E2] == be64(title_id)[6] && all[0x1E3] == be64(title_id)[7]);
    assert(all[0x1E4] == back[0] && all[0x1E5] == back[1] && all[0x1E6] == back[2]
        && all[0x1E7] == back[3]);
    assert(all[0x1F0] == back[12] && all[0x1F1] == back[13] && all[0x1F2] == back[14]
        && all[0x1F3] == back[15]);
    if 0x1E4 <= k {
        assert(all[0x1E4 + (k - 0x1E4)] == back[k - 0x1E4]);
    }
}

/// The issuer of a ticket is `Root-CA00000003-XS0000000c`.
pub proof fn law_ticket_issuer()
    ensures
        TICKET_ISSUER@.len() == 26,
        TICKET_ISSUER@.subrange(0, 15) == seq![
            'R' as u8,
            'o' as u8,
            'o' as u8,
            't' as u8,
            '-' as u8,
            'C' as u8,
            'A' as u8,
            '0' as u8,
            '0' as u8,
            '0' as u8,
            '0' as u8,
            '0' as u8,
            '0' as u8,
            '0' as u8,
            '3' as u8,
        ],
        TICKET_ISSUER@.subrange(15, 26) == seq![
            '-' as u8,
            'X' as u8,
            'S' as u8,
            '0' as u8,
            '0' as u8,
            '0' as u8,
            '0' as u8,
            '0' as u8,
            '0' as u8,
            '0' as u8,
            'c' as u8,
        ],
{
}

/// Eight bytes that spell a title id and eight zeros are the IV of its key.
pub proof fn lemma_key_iv_is_spelt(title_id: u64, iv: Seq<u8>)
    requires
        iv.len() == 16,
        iv[0] * 0x100_0000_0000_0000 + iv[1] * 0x1_0000_0000_0000 + iv[2] * 0x100_0000_0000 + iv[3]
            * 0x1_0000_0000 + iv[4] * 0x100_0000 + iv[5] * 0x1_0000 + iv[6] * 0x100 + iv[7]
            == title_id,
        forall|i: int| 8 <= i < 16 ==> #[trigger] iv[i] == 0,
    ensures
        iv == title_iv_of(title_id),
{
    let own = title_iv_of(title_id);
    law_key_iv_spells_the_title_id(title_id);
    lemma_eight_bytes(
        (iv[0], iv[1], iv[2], iv[3]),
        (iv[4], iv[5], iv[6], iv[7]),
        (own[0], own[1], own[2], own[3]),
        (own[4], own[5], own[6], own[7]),
    );
    assert(own =~= iv);
}

/// Eight bytes are told by the number that they spell.
proof fn lemma_eight_bytes(
    a: (u8, u8, u8, u8),
    b: (u8, u8, u8, u8),
    c: (u8, u8, u8, u8),
    d: (u8, u8, u8, u8),
)
    requires
        a.0 * 0x100_0000_0000_0000 + a.1 * 0x1_0000_0000_0000 + a.2 * 0x100_0000_0000 + a.3
            * 0x1_0000_0000 + b.0 * 0x100_0000 + b.1 * 0x1_0000 + b.2 * 0x100 + b.3 == c.0
            * 0x100_0000_0000_0000 + c.1 * 0x1_0000_0000_0000 + c.2 * 0x100_0000_0000 + c.3
            * 0x1_0000_0000 + d.0 * 0x100_0000 + d.1 * 0x1_0000 + d.2 * 0x100 + d.3,
    ensures
        a == c,
        b == d,
{
    lemma_halves(
        a.0 * 0x100_0000 + a.1 * 0x1_0000 + a.2 * 0x100 + a.3,
        b.0 * 0x100_0000 + b.1 * 0x1_0000 + b.2 * 0x100 + b.3,
        c.0 * 0x100_0000 + c.1 * 0x1_0000 + c.2 * 0x100 + c.3,
        d.0 * 0x100_0000 + d.1 * 0x1_0000 + d.2 * 0x100 + d.3,
    );
    lemma_four_bytes(a.0, a.1, a.2, a.3, c.0, c.1, c.2, c.3);
    lemma_four_bytes(b.0, b.1, b.2, b.3, d.0, d.1, d.2, d.3);
}

} // verus!
