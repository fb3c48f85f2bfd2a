//! The identifiers of an injected title, which follow from its disc id.

use vstd::prelude::*;

use crate::text::{lossy_text, text_from_bytes};
use crate::util::{be32_at, read_be32};

verus! {

/// The identifiers of a title.
#[derive(Debug)]
pub struct TitleIds {
    /// The Wii U title id.
    pub title_id: u64,
    /// The group id.
    pub group_id: u32,
    /// The product code.
    pub product_code: String,
    /// The `reserved_flag2` of `meta.xml`.
    pub reserved_flag2: u32,
}

/// Derive the identifiers from the four characters of a disc id: the title id is theirs behind
/// `00050002`, the product code is `WUP-N-` and the characters.
pub fn derive(disc_id: [u8; 4]) -> (r: TitleIds)
    ensures
        r.title_id == 0x0005_0002_0000_0000 + be32_at(disc_id@, 0),
        r.group_id == be32_at(disc_id@, 0),
        r.reserved_flag2 == be32_at(disc_id@, 0),
        r.product_code@ == "WUP-N-"@ + lossy_text(disc_id@),
{
    let id: u32 = read_be32(disc_id.as_slice(), 0);
    let mut product_code: String = String::from_str("WUP-N-");
    product_code.append(text_from_bytes(disc_id.as_slice()).as_str());
    TitleIds {
        title_id: 0x0005_0002_0000_0000 + id as u64,
        group_id: id,
        product_code,
        reserved_flag2: id,
    }
}

} // verus!
