//! The certificate chain (`title.cert`).
//!
//! Every retail title carries the same chain, and installation requires it. The user supplies
//! it, like the keys and the base title; it is checked and passed through unchanged.

use vstd::prelude::*;

use crate::error::{DiscFault, Error, Result};
use crate::util::{be32_at, law_numbers_are_read_high_byte_first, read_be32};

verus! {

/// Size of a standard retail certificate chain.
pub const EXPECTED_CERT_LEN: usize = 0xA00;

/// The issuer that the chain has to name: `Root-CA00000003`.
const ROOT_CA_ISSUER: [u8; 15] = [
    0x52, 0x6f, 0x6f, 0x74, 0x2d, 0x43, 0x41, 0x30, 0x30, 0x30, 0x30, 0x30, 0x30, 0x30, 0x33,
];

/// A checked certificate chain, ready to be written as `title.cert`.
pub struct CertChain(pub Vec<u8>);

/// The issuer that the chain has to name.
pub open spec fn root_issuer() -> Seq<u8> {
    seq![
        0x52u8, 0x6fu8, 0x6fu8, 0x74u8, 0x2du8, 0x43u8, 0x41u8, 0x30u8, 0x30u8, 0x30u8, 0x30u8,
        0x30u8, 0x30u8, 0x30u8, 0x33u8,
    ]
}

/// Whether `part` stands in `data` at `at`.
pub open spec fn stands_at(data: Seq<u8>, part: Seq<u8>, at: int) -> bool {
    0 <= at && at + part.len() <= data.len() && data.subrange(at, at + part.len()) == part
}

/// Why a chain is refused; `None` for a usable one.
pub open spec fn cert_fault(bytes: Seq<u8>) -> Option<DiscFault> {
    if bytes.len() != 0xA00 {
        Some(DiscFault::CertSize(bytes.len() as usize))
    } else if !(0x0001_0000 <= be32_at(bytes, 0) <= 0x0001_0005) {
        Some(DiscFault::CertSignature(be32_at(bytes, 0)))
    } else if !(exists|at: int| stands_at(bytes, root_issuer(), at)) {
        Some(DiscFault::CertIssuer)
    } else {
        None
    }
}

/// Whether the issuer stands in `data` at `at`.
fn issuer_at(data: &Vec<u8>, at: usize) -> (r: bool)
    requires
        at + 15 <= data@.len(),
    ensures
        r == stands_at(data@, root_issuer(), at as int),
{
    let issuer: &[u8] = ROOT_CA_ISSUER.as_slice();
    assert(issuer@ =~= root_issuer());
    let ghost part = data@.subrange(at as int, at + 15);
    assert(data.len() == data@.len());
    let mut i: usize = 0;
    while i < 15
        invariant
            i <= 15,
            at + 15 <= data@.len(),
            data@.len() <= usize::MAX,
            issuer@ == root_issuer(),
            part == data@.subrange(at as int, at + 15),
            forall|j: int| 0 <= j < i ==> part[j] == issuer@[j],
        decreases 15 - i,
    {
        assert(part[i as int] == data@[at + i]);
        if data[at + i] != issuer[i] {
            return false;
        }
        i += 1;
    }
    assert(part =~= root_issuer());
    true
}

impl CertChain {
    /// Check the bytes of a certificate chain: their number, a known RSA signature type in
    /// front, and the root issuer somewhere.
    pub fn from_bytes(bytes: Vec<u8>) -> (r: Result<Self>)
        ensures
            match r {
                Ok(chain) => cert_fault(bytes@) is None && chain.0@ == bytes@,
                Err(e) => cert_fault(bytes@) matches Some(fault) && e == Error::UnsupportedDisc(
                    fault,
                ),
            },
    {
        if bytes.len() != EXPECTED_CERT_LEN {
            return Err(Error::UnsupportedDisc(DiscFault::CertSize(bytes.len())));
        }
        let sig_type: u32 = read_be32(bytes.as_slice(), 0);
        if sig_type < 0x0001_0000 || sig_type > 0x0001_0005 {
            return Err(Error::UnsupportedDisc(DiscFault::CertSignature(sig_type)));
        }
        let mut at: usize = 0;
        while at + 15 <= bytes.len()
            invariant
                at <= bytes@.len() == 0xA00,
                forall|k: int| 0 <= k < at ==> !stands_at(bytes@, root_issuer(), k),
                cert_fault(bytes@) is None || cert_fault(bytes@) == Some(DiscFault::CertIssuer),
            decreases bytes@.len() - at,
        {
            if issuer_at(&bytes, at) {
                return Ok(CertChain(bytes));
            }
            at += 1;
        }
        Err(Error::UnsupportedDisc(DiscFault::CertIssuer))
    }

    /// The chain's bytes.
    pub fn as_bytes(&self) -> (r: &[u8])
        ensures
            r@ == self.0@,
    {
        self.0.as_slice()
    }
}

/// A chain is usable exactly when it is 0xA00 bytes long, starts with one of the six RSA signature
/// types `00 01 00 00` to `00 01 00 05`, and names the issuer `Root-CA00000003` somewhere.
pub proof fn law_usable_chains(bytes: Seq<u8>)
    ensures
        cert_fault(bytes) is None <==> {
            &&& bytes.len() == 2560
            &&& bytes[0] == 0 && bytes[1] == 1 && bytes[2] == 0 && bytes[3] <= 5
            &&& exists|at: int|
                0 <= at && at + 15 <= bytes.len() && #[trigger] bytes.subrange(at, at + 15) == seq![
                    'R' as u8,
                    'o' as u8,
                    'o' as u8,
                    't' as u8,
                    '-' as u8,
                    'C' as u8,
                    'A' as u8,
                    '0' as u8,
                    '0' as u8,
                    '0' as u8,
                    '0' as u8,
                    '0' as u8,
                    '0' as u8,
                    '0' as u8,
                    '3' as u8,
                ]
        },
{
    let issuer = seq![
        'R' as u8,
        'o' as u8,
        'o' as u8,
        't' as u8,
        '-' as u8,
        'C' as u8,
        'A' as u8,
        '0' as u8,
        '0' as u8,
        '0' as u8,
        '0' as u8,
        '0' as u8,
        '0' as u8,
        '0' as u8,
        '3' as u8,
    ];
    assert(issuer =~= root_issuer());
    if bytes.len() == 2560 {
        law_numbers_are_read_high_byte_first(bytes, 0);
        assert(0x0001_0000 <= be32_at(bytes, 0) <= 0x0001_0005 <==> bytes[0] == 0 && bytes[1] == 1
            && bytes[2] == 0 && bytes[3] <= 5);
    }
    if exists|at: int| stands_at(bytes, root_issuer(), at) {
        let at = choose|at: int| stands_at(bytes, root_issuer(), at);
        assert(bytes.subrange(at, at + 15) == issuer);
    }
    if exists|at: int|
        0 <= at && at + 15 <= bytes.len() && #[trigger] bytes.subrange(at, at + 15) == issuer {
        let at = choose|at: int|
            0 <= at && at + 15 <= bytes.len() && #[trigger] bytes.subrange(at, at + 15) == issuer;
        assert(stands_at(bytes, root_issuer(), at));
    }
}

/// The first thing that is wrong with a chain is what is reported: its size, then the type of its
/// signature, then its issuer.
pub proof fn law_faults_of_chains(bytes: Seq<u8>)
    ensures
        bytes.len() != 2560 && bytes.len() <= usize::MAX ==> (cert_fault(bytes) matches Some(
            DiscFault::CertSize(n),
        ) && n == bytes.len()),
        bytes.len() == 2560 && !(bytes[0] == 0 && bytes[1] == 1 && bytes[2] == 0 && bytes[3] <= 5)
            ==> (cert_fault(bytes) matches Some(DiscFault::CertSignature(n)) && n == bytes[0]
            * 0x100_0000 + bytes[1] * 0x1_0000 + bytes[2] * 0x100 + bytes[3]),
        bytes.len() == 2560 && bytes[0] == 0 && bytes[1] == 1 && bytes[2] == 0 && bytes[3] <= 5
            && cert_fault(bytes) is Some ==> cert_fault(bytes) == Some(DiscFault::CertIssuer),
{
    if bytes.len() == 2560 {
        law_numbers_are_read_high_byte_first(bytes, 0);
    }
}

} // verus!
