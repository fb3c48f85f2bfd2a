//! Parsing and validation of the keys that the user supplies.
//!
//! No key is part of the library. A key is given as 16 raw bytes or as 32 hexadecimal digits,
//! white space ignored, and checked against the MD5 fingerprint of the retail key, so that a
//! wrong one is refused up front and does not produce a broken package.

use vstd::prelude::*;

use crate::aes_cbc::key_from;
use crate::digest::{md5 as md5_digest, md5_of};
use crate::error::{Error, KeyFault, Result};
use crate::text::{hex_value, hex_value_of};
use crate::util::bytes_equal;

pub use crate::aes_cbc::Key;

verus! {

/// MD5 of the 16 raw bytes of the retail Wii common key.
pub const WII_COMMON_KEY_MD5: [u8; 16] = [
    0x8d, 0x1a, 0x2e, 0xbc, 0xd8, 0x2a, 0x34, 0x69, 0xb7, 0x7f, 0xac, 0xf1, 0x5d, 0x9c, 0x8e, 0x50,
];

/// MD5 of the 16 raw bytes of the retail Wii U common key.
pub const WIIU_COMMON_KEY_MD5: [u8; 16] = [
    0xa2, 0x43, 0xbc, 0x56, 0xda, 0x48, 0xbd, 0x4e, 0xb5, 0x5c, 0x72, 0x6e, 0xcd, 0x75, 0x8d, 0x49,
];

/// The Wii common key, checked against its known fingerprint.
#[derive(Clone)]
pub struct WiiCommonKey(pub Key);

/// The Wii U common key, checked against its known fingerprint.
#[derive(Clone)]
pub struct WiiUCommonKey(pub Key);

/// Whether a byte is ASCII white space.
pub open spec fn ascii_white(b: u8) -> bool {
    b == 0x20 || b == 0x09 || b == 0x0A || b == 0x0C || b == 0x0D
}

/// The first `n` bytes without the ASCII white space.
pub open spec fn without_white(raw: Seq<u8>, n: int) -> Seq<u8>
    decreases n,
{
    if n <= 0 {
        Seq::empty()
    } else if ascii_white(raw[n - 1]) {
        without_white(raw, n - 1)
    } else {
        without_white(raw, n - 1).push(raw[n - 1])
    }
}

/// Whether all bytes are hexadecimal digits.
pub open spec fn all_hex(digits: Seq<u8>) -> bool {
    forall|i: int| 0 <= i < digits.len() ==> hex_value_of(#[trigger] digits[i] as u32) is Some
}

/// The bytes that pairs of hexadecimal digits stand for.
pub open spec fn hex_bytes(digits: Seq<u8>, n: nat) -> Seq<u8> {
    Seq::new(
        n,
        |i: int|
            (hex_value_of(digits[2 * i] as u32)->0 * 16 + hex_value_of(
                digits[2 * i + 1] as u32,
            )->0) as u8,
    )
}

/// The key that the raw bytes give, if any.
pub open spec fn key_of(raw: Seq<u8>) -> Option<Seq<u8>> {
    let digits = without_white(raw, raw.len() as int);
    if raw.len() == 16 {
        Some(raw)
    } else if digits.len() == 32 && all_hex(digits) {
        Some(hex_bytes(digits, 16))
    } else {
        None
    }
}

/// Read a key: 16 raw bytes, or 32 hexadecimal digits among ASCII white space.
pub fn parse_key(name: &'static str, raw: &[u8]) -> (r: Result<Key>)
    ensures
        match r {
            Ok(key) => key_of(raw@) == Some(key@),
            Err(e) => key_of(raw@) is None && e == (Error::InvalidKey {
                name,
                reason: KeyFault::Length(raw@.len() as usize),
            }),
        },
{
    if raw.len() == 16 {
        return Ok(key_from(raw));
    }
    let mut digits: Vec<u8> = Vec::new();
    let mut i: usize = 0;
    while i < raw.len()
        invariant
            i <= raw@.len(),
            digits@ == without_white(raw@, i as int),
        decreases raw@.len() - i,
    {
        let b: u8 = raw[i];
        if !(b == 0x20 || b == 0x09 || b == 0x0A || b == 0x0C || b == 0x0D) {
            digits.push(b);
        }
        i += 1;
    }
    let fault: Error = Error::InvalidKey { name, reason: KeyFault::Length(raw.len()) };
    if digits.len() != 32 {
        return Err(fault);
    }
    let mut key: Key = [0u8; 16];
    let mut k: usize = 0;
    while k < 16
        invariant
            k <= 16,
            raw@.len() != 16,
            digits@ == without_white(raw@, raw@.len() as int),
            digits@.len() == 32,
            fault == (Error::InvalidKey { name, reason: KeyFault::Length(raw@.len() as usize) }),
            forall|j: int|
                0 <= j < 2 * k ==> hex_value_of(#[trigger] digits@[j] as u32) is Some,
            forall|j: int| 0 <= j < k ==> key@[j] == hex_bytes(digits@, 16)[j],
        decreases 16 - k,
    {
        let high: u8 = match hex_value(digits[2 * k] as u32) {
            Some(v) => v,
            None => {
                assert(hex_value_of(digits@[2 * k] as u32) is None);
                return Err(fault);
            },
        };
        let low: u8 = match hex_value(digits[2 * k + 1] as u32) {
            Some(v) => v,
            None => {
                assert(hex_value_of(digits@[2 * k + 1] as u32) is None);
                return Err(fault);
            },
        };
        key[k] = high * 16 + low;
        k += 1;
    }
    assert(key@ =~= hex_bytes(digits@, 16));
    Ok(key)
}

/// The MD5 fingerprint of `data`.
pub fn md5(data: &[u8]) -> (r: [u8; 16])
    ensures
        r@ == md5_of(data@),
{
    md5_digest(data)
}

/// Check a key against its fingerprint.
pub fn validate(name: &'static str, key: &Key, expected_md5: &[u8; 16]) -> (r: Result<()>)
    ensures
        match r {
            Ok(_) => md5_of(key@) == expected_md5@,
            Err(e) => md5_of(key@) != expected_md5@ && e == (Error::InvalidKey {
                name,
                reason: KeyFault::Fingerprint,
            }),
        },
{
    let found: [u8; 16] = md5(key.as_slice());
    if bytes_equal(found.as_slice(), expected_md5.as_slice()) {
        Ok(())
    } else {
        Err(Error::InvalidKey { name, reason: KeyFault::Fingerprint })
    }
}

/// What reading and checking a named key gives.
pub open spec fn checked_key(name: &'static str, raw: Seq<u8>, fingerprint: Seq<u8>) -> core::result::Result<
    Seq<u8>,
    Error,
> {
    match key_of(raw) {
        None => Err(Error::InvalidKey { name, reason: KeyFault::Length(raw.len() as usize) }),
        Some(key) => if md5_of(key) == fingerprint {
            Ok(key)
        } else {
            Err(Error::InvalidKey { name, reason: KeyFault::Fingerprint })
        },
    }
}

impl WiiCommonKey {
    /// Read and check the Wii common key.
    pub fn parse(raw: &[u8]) -> (r: Result<Self>)
        ensures
            match r {
                Ok(key) => checked_key("Wii common", raw@, WII_COMMON_KEY_MD5@) == Ok::<
                    Seq<u8>,
                    Error,
                >(key.0@),
                Err(e) => checked_key("Wii common", raw@, WII_COMMON_KEY_MD5@) == Err::<
                    Seq<u8>,
                    Error,
                >(e),
            },
    {
        let key: Key = match parse_key("Wii common", raw) {
            Ok(key) => key,
            Err(e) => return Err(e),
        };
        match validate("Wii common", &key, &WII_COMMON_KEY_MD5) {
            Ok(_) => Ok(WiiCommonKey(key)),
            Err(e) => Err(e),
        }
    }
}

impl WiiUCommonKey {
    /// Read and check the Wii U common key.
    pub fn parse(raw: &[u8]) -> (r: Result<Self>)
        ensures
            match r {
                Ok(key) => checked_key("Wii U common", raw@, WIIU_COMMON_KEY_MD5@) == Ok::<
                    Seq<u8>,
                    Error,
                >(key.0@),
                Err(e) => checked_key("Wii U common", raw@, WIIU_COMMON_KEY_MD5@) == Err::<
                    Seq<u8>,
                    Error,
                >(e),
            },
    {
        let key: Key = match parse_key("Wii U common", raw) {
            Ok(key) => key,
            Err(e) => return Err(e),
        };
        match validate("Wii U common", &key, &WIIU_COMMON_KEY_MD5) {
            Ok(_) => Ok(WiiUCommonKey(key)),
            Err(e) => Err(e),
        }
    }
}

/// The hexadecimal digit of a value below sixteen, in lower case.
pub open spec fn digit_byte(v: int) -> u8 {
    if v < 10 {
        (0x30 + v) as u8
    } else {
        (0x57 + v) as u8
    }
}

/// The hexadecimal digits of a key.
pub open spec fn digits_of(key: Seq<u8>) -> Seq<u8> {
    Seq::new(
        key.len() * 2,
        |i: int|
            if i % 2 == 0 {
                digit_byte(key[i / 2] as int / 16)
            } else {
                digit_byte(key[i / 2] as int % 16)
            },
    )
}

proof fn lemma_no_white(raw: Seq<u8>, n: int)
    requires
        0 <= n <= raw.len(),
        forall|i: int| 0 <= i < raw.len() ==> !ascii_white(#[trigger] raw[i]),
    ensures
        without_white(raw, n) == raw.subrange(0, n),
    decreases n,
{
    if n > 0 {
        lemma_no_white(raw, n - 1);
        assert(!ascii_white(raw[n - 1]));
    }
    assert(without_white(raw, n) =~= raw.subrange(0, n));
}

/// A key reads the same from its raw bytes and from its hexadecimal digits.
pub proof fn law_hex_and_binary_read_alike(key: Seq<u8>)
    requires
        key.len() == 16,
    ensures
        key_of(key) == Some(key),
        key_of(digits_of(key)) == Some(key),
{
    let digits = digits_of(key);
    assert forall|i: int| 0 <= i < digits.len() implies !ascii_white(#[trigger] digits[i])
        && hex_value_of(digits[i] as u32) is Some by {
        assert(0 <= key[i / 2] as int / 16 < 16);
    }
    lemma_no_white(digits, 32);
    assert(digits.subrange(0, 32) =~= digits);
    assert forall|i: int| 0 <= i < 16 implies hex_bytes(digits, 16)[i] == key[i] by {
        assert((2 * i) / 2 == i && (2 * i + 1) / 2 == i);
        assert((2 * i) % 2 == 0 && (2 * i + 1) % 2 == 1);
        assert(digits[2 * i] == digit_byte(key[i] as int / 16));
        assert(digits[2 * i + 1] == digit_byte(key[i] as int % 16));
    }
    assert(hex_bytes(digits, 16) =~= key);
}

/// White space among the digits makes no difference: what is left of a text without it keeps its
/// order, and holds every other byte.
pub proof fn law_white_space_is_ignored(front: Seq<u8>, back: Seq<u8>, b: u8)
    ensures
        (b == 0x20 || b == 0x09 || b == 0x0A || b == 0x0C || b == 0x0D) ==> without_white(
            front + seq![b] + back,
            (front + seq![b] + back).len() as int,
        ) == without_white(front + back, (front + back).len() as int),
        !(b == 0x20 || b == 0x09 || b == 0x0A || b == 0x0C || b == 0x0D) ==> without_white(
            front + seq![b] + back,
            (front + seq![b] + back).len() as int,
        ) == without_white(front, front.len() as int) + seq![b] + without_white(
            back,
            back.len() as int,
        ),
{
    lemma_white_join(front, back);
    lemma_white_join(front + seq![b], back);
    lemma_white_join(front, seq![b]);
    assert(without_white(seq![b], 0) =~= Seq::<u8>::empty());
    assert(without_white(seq![b], 1) =~= if ascii_white(b) {
        Seq::empty()
    } else {
        seq![b]
    });
    assert(without_white(front, front.len() as int) + Seq::<u8>::empty() =~= without_white(
        front,
        front.len() as int,
    ));
}

proof fn lemma_white_join(a: Seq<u8>, b: Seq<u8>)
    ensures
        without_white(a + b, (a + b).len() as int) == without_white(a, a.len() as int)
            + without_white(b, b.len() as int),
    decreases b.len(),
{
    if b.len() == 0 {
        assert(a + b =~= a);
        assert(without_white(a, a.len() as int) + without_white(b, 0) =~= without_white(
            a,
            a.len() as int,
        ));
    } else {
        let less = b.drop_last();
        lemma_white_join(a, less);
        lemma_white_prefix(a + b, a + less, (a + less).len() as int);
        lemma_white_prefix(b, less, less.len() as int);
        assert((a + b)[(a + b).len() - 1] == b.last());
        assert(without_white(a + b, (a + b).len() as int) =~= without_white(a, a.len() as int)
            + without_white(b, b.len() as int));
    }
}

proof fn lemma_white_prefix(a: Seq<u8>, b: Seq<u8>, n: int)
    requires
        n <= a.len(),
        n <= b.len(),
        forall|i: int| 0 <= i < n ==> a[i] == b[i],
    ensures
        without_white(a, n) == without_white(b, n),
    decreases n,
{
    if n > 0 {
        lemma_white_prefix(a, b, n - 1);
    }
}

/// Digits are read in pairs, the high one first, in either case: a key of 32 digits has a byte
/// for each pair.
pub proof fn law_digits_are_read_in_pairs(raw: Seq<u8>, i: int)
    requires
        raw.len() == 32,
        forall|k: int|
            0 <= k < 32 ==> {
                let c = #[trigger] raw[k];
                0x30 <= c <= 0x39 || 0x41 <= c <= 0x46 || 0x61 <= c <= 0x66
            },
        0 <= i < 16,
    ensures
        key_of(raw) matches Some(key) && key.len() == 16 && key[i] as int / 16 == (if raw[2 * i]
            >= 0x61 {
            raw[2 * i] - 0x57
        } else if raw[2 * i] >= 0x41 {
            raw[2 * i] - 0x37
        } else {
            raw[2 * i] - 0x30
        }) && key[i] as int % 16 == (if raw[2 * i + 1] >= 0x61 {
            raw[2 * i + 1] - 0x57
        } else if raw[2 * i + 1] >= 0x41 {
            raw[2 * i + 1] - 0x37
        } else {
            raw[2 * i + 1] - 0x30
        }),
{
    assert forall|k: int| 0 <= k < raw.len() implies !ascii_white(#[trigger] raw[k])
        && hex_value_of(raw[k] as u32) is Some by {}
    lemma_no_white(raw, 32);
    assert(raw.subrange(0, 32) =~= raw);
    let high = raw[2 * i];
    let low = raw[2 * i + 1];
    assert(hex_bytes(raw, 16)[i] == (hex_value_of(high as u32)->0 * 16 + hex_value_of(
        low as u32,
    )->0) as u8);
}

/// What is neither 16 bytes nor 32 hexadecimal digits is no key.
pub proof fn law_other_lengths_are_no_keys(raw: Seq<u8>)
    requires
        raw.len() != 16,
        forall|k: int|
            0 <= k < raw.len() ==> {
                let b = #[trigger] raw[k];
                b != 0x20 && b != 0x09 && b != 0x0A && b != 0x0C && b != 0x0D
            },
        raw.len() != 32 || exists|k: int|
            0 <= k < 32 && {
                let c = #[trigger] raw[k];
                !(0x30 <= c <= 0x39 || 0x41 <= c <= 0x46 || 0x61 <= c <= 0x66)
            },
    ensures
        key_of(raw) is None,
{
    lemma_no_white(raw, raw.len() as int);
    assert(raw.subrange(0, raw.len() as int) =~= raw);
    if raw.len() == 32 {
        let k = choose|k: int|
            0 <= k < 32 && {
                let c = #[trigger] raw[k];
                !(0x30 <= c <= 0x39 || 0x41 <= c <= 0x46 || 0x61 <= c <= 0x66)
            };
        assert(hex_value_of(raw[k] as u32) is None);
    }
}

/// A key is accepted exactly when it can be read and its MD5 is the known one; it is refused for
/// its length first.
pub proof fn law_keys_are_accepted_by_fingerprint(name: &'static str, raw: Seq<u8>, md5: Seq<u8>)
    ensures
        checked_key(name, raw, md5) is Ok <==> key_of(raw) is Some && md5_of(key_of(raw)->0) == md5,
        checked_key(name, raw, md5) is Ok ==> checked_key(name, raw, md5)->Ok_0 == key_of(raw)->0,
        raw.len() == 16 && md5_of(raw) == md5 ==> checked_key(name, raw, md5) == Ok::<
            Seq<u8>,
            Error,
        >(raw),
        raw.len() == 16 && md5_of(raw) != md5 ==> checked_key(name, raw, md5) == Err::<
            Seq<u8>,
            Error,
        >(Error::InvalidKey { name, reason: KeyFault::Fingerprint }),
        key_of(raw) is None ==> checked_key(name, raw, md5) == Err::<Seq<u8>, Error>(
            Error::InvalidKey { name, reason: KeyFault::Length(raw.len() as usize) },
        ),
        WII_COMMON_KEY_MD5@ != WIIU_COMMON_KEY_MD5@,
{
    assert(WII_COMMON_KEY_MD5@[0] != WIIU_COMMON_KEY_MD5@[0]);
}

} // verus!
