//! What the command line's values mean.

use vstd::prelude::*;

use crate::error::{Error, Result};
use crate::input::DiscKind;
use crate::text::{
    chars_of, hex_value, hex_value_of, law_hex_digits_have_their_values, lemma_trimmed_is,
    number_of, text_of, trim_range, trimmed,
};

verus! {

/// Whether all characters are hexadecimal digits.
pub open spec fn hex_digits(chars: Seq<char>) -> bool {
    forall|i: int| 0 <= i < chars.len() ==> hex_value_of(#[trigger] chars[i] as u32) is Some
}

/// The bytes that pairs of hexadecimal digits stand for.
pub open spec fn bytes_of_hex(chars: Seq<char>, n: int) -> Seq<u8> {
    Seq::new(
        n as nat,
        |i: int|
            (hex_value_of(chars[2 * i] as u32)->0 * 16 + hex_value_of(
                chars[2 * i + 1] as u32,
            )->0) as u8,
    )
}

/// Read exactly `N` bytes in hexadecimal; white space around them is ignored.
pub fn parse_hex<const N: usize>(s: &str) -> (r: Result<[u8; N]>)
    requires
        N <= 0x4000_0000,
    ensures
        ({
            let digits = trimmed(s@);
            match r {
                Ok(bytes) => digits.len() == 2 * N && hex_digits(digits) && bytes@ == bytes_of_hex(
                    digits,
                    N as int,
                ),
                Err(e) => !(digits.len() == 2 * N && hex_digits(digits)) && (e matches Error::BadHex {
                    wanted,
                    got,
                } && wanted == 2 * N && got@ == digits),
            }
        }),
{
    let chars: Vec<char> = chars_of(s);
    let digits: Vec<char> = trim_range(&chars, 0, chars.len());
    assert(chars@.subrange(0, chars@.len() as int) =~= s@);
    if digits.len() != N * 2 {
        return Err(Error::BadHex { wanted: N * 2, got: text_of(&digits) });
    }
    let mut out: [u8; N] = [0u8; N];
    let mut i: usize = 0;
    while i < N
        invariant
            i <= N,
            N <= 0x4000_0000,
            digits@ == trimmed(s@),
            digits@.len() == N * 2,
            forall|j: int| 0 <= j < 2 * i ==> hex_value_of(#[trigger] digits@[j] as u32) is Some,
            forall|j: int| 0 <= j < i ==> out@[j] == bytes_of_hex(digits@, N as int)[j],
        decreases N - i,
    {
        let high: u8 = match hex_value(digits[2 * i] as u32) {
            Some(v) => v,
            None => {
                assert(hex_value_of(digits@[2 * i] as u32) is None);
                return Err(Error::BadHex { wanted: N * 2, got: text_of(&digits) });
            },
        };
        let low: u8 = match hex_value(digits[2 * i + 1] as u32) {
            Some(v) => v,
            None => {
                assert(hex_value_of(digits@[2 * i + 1] as u32) is None);
                return Err(Error::BadHex { wanted: N * 2, got: text_of(&digits) });
            },
        };
        out[i] = high * 16 + low;
        i += 1;
    }
    assert(out@ =~= bytes_of_hex(digits@, N as int));
    Ok(out)
}

/// The number that the first `n` of a list of hexadecimal digits stand for; none where one of
/// them is no digit or the number does not fit.
pub open spec fn hex_number(digits: Seq<char>, n: int) -> Option<int>
    decreases n,
{
    if n <= 0 {
        Some(0)
    } else {
        match (hex_number(digits, n - 1), hex_value_of(digits[n - 1] as u32)) {
            (Some(high), Some(low)) if high * 16 + low <= u64::MAX => Some(high * 16 + low),
            _ => None,
        }
    }
}

/// The title id that a text stands for: hexadecimal digits among white space, a `+` allowed in
/// front.
pub open spec fn title_id_of(text: Seq<char>) -> Option<int> {
    let plain = trimmed(text);
    let digits = if plain.len() > 0 && plain[0] == '+' {
        plain.subrange(1, plain.len() as int)
    } else {
        plain
    };
    if digits.len() == 0 {
        None
    } else {
        hex_number(digits, digits.len() as int)
    }
}

proof fn lemma_hex_number(digits: Seq<char>, n: int, m: int)
    requires
        0 <= n <= m,
        hex_number(digits, m) is Some,
    ensures
        hex_number(digits, n) is Some,
    decreases m,
{
    if m > n {
        lemma_hex_number(digits, n, m - 1);
    }
}

/// Read a title id.
pub fn parse_title_id(text: &str) -> (r: Result<u64>)
    ensures
        match r {
            Ok(id) => title_id_of(text@) == Some(id as int),
            Err(e) => title_id_of(text@) is None && (e matches Error::BadTitleId(got) && got@
                == text@),
        },
{
    let chars: Vec<char> = chars_of(text);
    let plain: Vec<char> = trim_range(&chars, 0, chars.len());
    assert(chars@.subrange(0, chars@.len() as int) =~= text@);
    let first: usize = if plain.len() > 0 && plain[0] == '+' {
        1
    } else {
        0
    };
    let ghost digits = plain@.subrange(first as int, plain@.len() as int);
    assert(plain@.subrange(0, plain@.len() as int) =~= plain@);
    if first == plain.len() {
        return Err(Error::BadTitleId(String::from_str(text)));
    }
    let ghost count = digits.len() as int;
    let mut value: u64 = 0;
    let mut i: usize = first;
    while i < plain.len()
        invariant
            first <= i <= plain@.len(),
            digits == plain@.subrange(first as int, plain@.len() as int),
            count == digits.len(),
            count > 0,
            title_id_of(text@) == hex_number(digits, count),
            hex_number(digits, i - first) == Some(value as int),
        decreases plain@.len() - i,
    {
        assert(digits[i - first] == plain@[i as int]);
        proof {
            if hex_number(digits, count) is Some {
                lemma_hex_number(digits, i - first + 1, count);
            }
        }
        let d: u8 = match hex_value(plain[i] as u32) {
            Some(d) => d,
            None => return Err(Error::BadTitleId(String::from_str(text))),
        };
        if value > (u64::MAX - d as u64) / 16 {
            return Err(Error::BadTitleId(String::from_str(text)));
        }
        value = value * 16 + d as u64;
        i += 1;
    }
    Ok(value)
}

/// Where the base title comes from.
#[derive(Debug)]
pub enum BaseChoice {
    /// A local path.
    Local,
    /// A download.
    Download {
        /// Title id of the base.
        title_id: u64,
        /// Its encrypted title key.
        enc_title_key: [u8; 16],
    },
}

/// What is reported where the title key of a download is missing.
pub open spec fn missing_key_report() -> Seq<char> {
    "--base-title-key is required with --base-title-id"@
}

/// Choose the base title: a local path where one is given, otherwise a download, which needs its
/// title id and its encrypted title key.
pub fn choose_base(local: bool, title_id: &str, title_key: Option<&str>) -> (r: Result<BaseChoice>)
    ensures
        match r {
            Ok(BaseChoice::Local) => local,
            Ok(BaseChoice::Download { title_id: id, enc_title_key }) => {
                &&& !local
                &&& title_id_of(title_id@) == Some(id as int)
                &&& title_key matches Some(key)
                &&& trimmed(key@).len() == 32
                &&& hex_digits(trimmed(key@))
                &&& enc_title_key@ == bytes_of_hex(trimmed(key@), 16)
            },
            Err(e) => {
                &&& !local
                &&& if title_id_of(title_id@) is None {
                    e matches Error::BadTitleId(got) && got@ == title_id@
                } else {
                    match title_key {
                        None => e matches Error::Other(report) && report@ == missing_key_report(),
                        Some(key) => {
                            &&& !(trimmed(key@).len() == 32 && hex_digits(trimmed(key@)))
                            &&& e matches Error::BadHex { wanted, got } && wanted == 32 && got@
                                == trimmed(key@)
                        },
                    }
                }
            },
        },
{
    if local {
        return Ok(BaseChoice::Local);
    }
    let id: u64 = match parse_title_id(title_id) {
        Ok(id) => id,
        Err(e) => return Err(e),
    };
    let key: &str = match title_key {
        Some(key) => key,
        None => {
            return Err(
                Error::Other(
                    String::from_str("--base-title-key is required with --base-title-id"),
                ),
            );
        },
    };
    match parse_hex::<16>(key) {
        Ok(enc_title_key) => Ok(BaseChoice::Download { title_id: id, enc_title_key }),
        Err(e) => Err(e),
    }
}

/// Whether the input is injected as a GameCube disc: on demand, or because it is one. An input
/// that could not be probed is taken for a Wii disc.
pub fn gamecube_mode(forced: bool, probed: Option<DiscKind>) -> (r: bool)
    ensures
        r == (forced || probed == Some(DiscKind::GameCube)),
{
    if forced {
        return true;
    }
    match probed {
        Some(DiscKind::GameCube) => true,
        _ => false,
    }
}

/// Where the Nintendont loader comes from.
#[derive(Clone, Copy, Debug, PartialEq, Eq, Structural)]
pub enum LoaderSource {
    /// The file that was named.
    File,
    /// A download.
    Download,
}

/// What is reported where the loader can neither be read nor fetched.
pub open spec fn offline_report() -> Seq<char> {
    "--nintendont <boot.dol> is required with --offline (cannot download Nintendont)"@
}

/// Choose where the loader comes from: the file where one is named, otherwise a download, which
/// offline is an error.
pub fn choose_loader(named: bool, offline: bool) -> (r: Result<LoaderSource>)
    ensures
        match r {
            Ok(LoaderSource::File) => named,
            Ok(LoaderSource::Download) => !named && !offline,
            Err(e) => !named && offline && (e matches Error::Other(report) && report@
                == offline_report()),
        },
{
    if named {
        return Ok(LoaderSource::File);
    }
    if offline {
        return Err(
            Error::Other(
                String::from_str(
                    "--nintendont <boot.dol> is required with --offline (cannot download Nintendont)",
                ),
            ),
        );
    }
    Ok(LoaderSource::Download)
}

proof fn lemma_hex_number_is(digits: Seq<char>, n: int)
    requires
        0 <= n <= digits.len(),
        forall|i: int|
            0 <= i < n ==> {
                let c = (#[trigger] digits[i]) as int;
                0x30 <= c <= 0x39 || 0x41 <= c <= 0x46 || 0x61 <= c <= 0x66
            },
    ensures
        number_of(digits.subrange(0, n), 16) >= 0,
        hex_number(digits, n) == if number_of(digits.subrange(0, n), 16) <= u64::MAX {
            Some(number_of(digits.subrange(0, n), 16))
        } else {
            None
        },
    decreases n,
{
    let front = digits.subrange(0, n);
    if n > 0 {
        lemma_hex_number_is(digits, n - 1);
        assert(front.drop_last() =~= digits.subrange(0, n - 1));
        assert(front.last() == digits[n - 1]);
        law_hex_digits_have_their_values(digits[n - 1]);
    } else {
        assert(front =~= Seq::<char>::empty());
    }
}

proof fn lemma_no_hex_number(digits: Seq<char>, n: int, k: int)
    requires
        0 <= k < n <= digits.len(),
        hex_value_of(digits[k] as u32) is None,
    ensures
        hex_number(digits, n) is None,
    decreases n,
{
    if k < n - 1 {
        lemma_no_hex_number(digits, n - 1, k);
    }
}

/// A title id is the number that its hexadecimal digits spell, in either case and with a `+` or
/// without; one that takes more than 64 bits is refused.
pub proof fn law_title_id_is_what_its_digits_spell(digits: Seq<char>)
    requires
        digits.len() > 0,
        forall|i: int|
            0 <= i < digits.len() ==> {
                let c = (#[trigger] digits[i]) as int;
                0x30 <= c <= 0x39 || 0x41 <= c <= 0x46 || 0x61 <= c <= 0x66
            },
    ensures
        title_id_of(digits) == if number_of(digits, 16) <= u64::MAX {
            Some(number_of(digits, 16))
        } else {
            None
        },
        title_id_of(seq!['+'] + digits) == title_id_of(digits),
{
    let n = digits.len() as int;
    assert(digits.subrange(0, n) =~= digits);
    lemma_hex_number_is(digits, n);
    law_hex_digits_have_their_values(digits[0]);
    law_hex_digits_have_their_values(digits[n - 1]);
    lemma_trimmed_is(digits, 0, n);
    let signed = seq!['+'] + digits;
    assert(signed.subrange(0, n + 1) =~= signed);
    assert(signed[n] == digits[n - 1]);
    lemma_trimmed_is(signed, 0, n + 1);
    assert(signed.subrange(1, n + 1) =~= digits);
}

/// A text with anything but hexadecimal digits in it is no title id.
pub proof fn law_other_texts_are_no_title_ids(text: Seq<char>, k: int)
    requires
        0 <= k < trimmed(text).len(),
        ({
            let c = trimmed(text)[k] as int;
            !(0x30 <= c <= 0x39 || 0x41 <= c <= 0x46 || 0x61 <= c <= 0x66)
        }),
        k == 0 ==> trimmed(text)[0] != '+',
    ensures
        title_id_of(text) is None,
{
    let plain = trimmed(text);
    law_hex_digits_have_their_values(plain[k]);
    let rest = plain.subrange(1, plain.len() as int);
    if plain[0] == '+' {
        assert(rest[k - 1] == plain[k]);
        lemma_no_hex_number(rest, rest.len() as int, k - 1);
    } else {
        lemma_no_hex_number(plain, plain.len() as int, k);
    }
}

/// Hexadecimal digits are read in pairs, the high one first, in either case.
pub proof fn law_bytes_are_read_in_pairs(digits: Seq<char>, n: int, i: int)
    requires
        0 <= i < n,
        digits.len() == 2 * n,
        forall|k: int|
            0 <= k < digits.len() ==> {
                let c = (#[trigger] digits[k]) as int;
                0x30 <= c <= 0x39 || 0x41 <= c <= 0x46 || 0x61 <= c <= 0x66
            },
    ensures
        hex_digits(digits),
        bytes_of_hex(digits, n).len() == n,
        bytes_of_hex(digits, n)[i] == number_of(digits.subrange(2 * i, 2 * i + 2), 16),
{
    assert forall|k: int| 0 <= k < digits.len() implies hex_value_of(
        #[trigger] digits[k] as u32,
    ) is Some by {
        law_hex_digits_have_their_values(digits[k]);
    }
    let pair = digits.subrange(2 * i, 2 * i + 2);
    law_hex_digits_have_their_values(digits[2 * i]);
    law_hex_digits_have_their_values(digits[2 * i + 1]);
    assert(pair[0] == digits[2 * i] && pair[1] == digits[2 * i + 1]);
    let first = pair.drop_last();
    assert(first.last() == digits[2 * i]);
    assert(pair.last() == digits[2 * i + 1]);
    assert(first.drop_last() =~= Seq::<char>::empty());
    assert(number_of(first.drop_last(), 16) == 0);
    assert(number_of(first, 16) == hex_value_of(digits[2 * i] as u32)->0);
    assert(number_of(pair, 16) == number_of(first, 16) * 16 + hex_value_of(
        digits[2 * i + 1] as u32,
    )->0);
}

} // verus!
