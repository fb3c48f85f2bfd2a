//! AES-128 in CBC mode without padding, shared by the NFS sectors and the title contents.

use aes::cipher::block_padding::NoPadding;
use aes::cipher::{BlockDecryptMut, BlockEncryptMut, KeyIvInit};
use vstd::prelude::*;

verus! {

/// A raw 16-byte AES-128 key.
pub type Key = [u8; 16];

/// Length of an AES block; CBC without padding works on multiples of it.
pub const AES_BLOCK: usize = 16;

/// Sixteen bytes as a key.
pub fn key_from(bytes: &[u8]) -> (r: Key)
    requires
        bytes@.len() == 16,
    ensures
        r@ == bytes@,
{
    let mut key: Key = [0u8; 16];
    let mut i: usize = 0;
    while i < 16
        invariant
            i <= 16,
            bytes@.len() == 16,
            forall|j: int| 0 <= j < i ==> key@[j] == bytes@[j],
        decreases 16 - i,
    {
        key[i] = bytes[i];
        i += 1;
    }
    assert(key@ =~= bytes@);
    key
}

/// `data` encrypted with AES-128-CBC.
pub uninterp spec fn cbc_encrypted(key: Seq<u8>, iv: Seq<u8>, data: Seq<u8>) -> Seq<u8>;

/// `data` decrypted with AES-128-CBC.
pub uninterp spec fn cbc_decrypted(key: Seq<u8>, iv: Seq<u8>, data: Seq<u8>) -> Seq<u8>;

/// `cbc::Encryptor<aes::Aes128>::encrypt_padded_mut` with `NoPadding`: encrypts whole blocks
/// in place, and decrypting the result under the same key and IV gives the input back. A
/// length that is no multiple of the block is refused before anything is written.
#[verifier::external_body]
pub(crate) fn encrypt(key: &Key, iv: &[u8; 16], buf: &mut [u8]) -> (r: Result<(), usize>)
    ensures
        final(buf)@.len() == old(buf)@.len(),
        r is Ok <==> old(buf)@.len() % 16 == 0,
        r is Ok ==> final(buf)@ == cbc_encrypted(key@, iv@, old(buf)@),
        r is Ok ==> cbc_decrypted(key@, iv@, final(buf)@) == old(buf)@,
        r is Err ==> final(buf)@ == old(buf)@ && r == Err::<(), usize>(old(buf)@.len() as usize),
{
    let len = buf.len();
    <cbc::Encryptor<aes::Aes128>>::new(key.into(), iv.into())
        .encrypt_padded_mut::<NoPadding>(buf, len)
        .map(|_| ())
        .map_err(|_| len)
}

/// `cbc::Decryptor<aes::Aes128>::decrypt_padded_mut` with `NoPadding`: decrypts whole blocks
/// in place, and encrypting the result under the same key and IV gives the input back. A
/// length that is no multiple of the block is refused before anything is written.
#[verifier::external_body]
pub(crate) fn decrypt(key: &Key, iv: &[u8; 16], buf: &mut [u8]) -> (r: Result<(), usize>)
    ensures
        final(buf)@.len() == old(buf)@.len(),
        r is Ok <==> old(buf)@.len() % 16 == 0,
        r is Ok ==> final(buf)@ == cbc_decrypted(key@, iv@, old(buf)@),
        r is Ok ==> cbc_encrypted(key@, iv@, final(buf)@) == old(buf)@,
        r is Err ==> final(buf)@ == old(buf)@ && r == Err::<(), usize>(old(buf)@.len() as usize),
{
    let len = buf.len();
    <cbc::Decryptor<aes::Aes128>>::new(key.into(), iv.into())
        .decrypt_padded_mut::<NoPadding>(buf)
        .map(|_| ())
        .map_err(|_| len)
}

} // verus!
