//! The Nintendont loader (`boot.dol`), which an injected GameCube title boots.

use vstd::prelude::*;

use crate::error::{Error, Result};
use crate::text::{decimal_of, law_decimal_reads_back, number_of, push_decimal};

verus! {

/// Where the loader is fetched from.
pub const NINTENDONT_LOADER_URL: &'static str = "https://raw.githubusercontent.com/FIX94/Nintendont/master/loader/loader.dol";

/// The least size of a real loader, which is well over 1 MiB. Anything smaller is an error page.
pub const MIN_LOADER_BYTES: usize = 0x8_0000;

/// What is reported of a download that is too small.
pub open spec fn short_loader(url: Seq<char>, len: nat) -> Seq<char> {
    "Nintendont download from "@ + url + " was only "@ + decimal_of(len)
        + " bytes (expected a >1 MiB boot.dol); supply one with --nintendont"@
}

/// Accept a downloaded loader, unless it is too small to be one.
pub fn accept_loader(url: &str, bytes: Vec<u8>) -> (r: Result<Vec<u8>>)
    ensures
        match r {
            Ok(loader) => bytes@.len() >= MIN_LOADER_BYTES && loader@ == bytes@,
            Err(e) => bytes@.len() < MIN_LOADER_BYTES && (e matches Error::Other(report)
                && report@ == short_loader(url@, bytes@.len())),
        },
{
    if bytes.len() < MIN_LOADER_BYTES {
        let mut report: String = String::from_str("Nintendont download from ");
        report.append(url);
        report.append(" was only ");
        push_decimal(&mut report, bytes.len() as u64);
        report.append(" bytes (expected a >1 MiB boot.dol); supply one with --nintendont");
        assert(report@ =~= short_loader(url@, bytes@.len()));
        return Err(Error::Other(report));
    }
    Ok(bytes)
}

/// A download is reported with the address that it came from and its size.
pub proof fn law_short_download_is_reported(url: Seq<char>, len: nat)
    ensures
        ({
            let report = short_loader(url, len);
            &&& report.len() == 25 + url.len() + 10 + decimal_of(len).len() + 65
            &&& report.subrange(25, 25 + url.len() as int) == url
            &&& number_of(
                report.subrange(35 + url.len() as int, report.len() - 65),
                10,
            ) == len
        }),
{
    let report = short_loader(url, len);
    reveal_strlit("Nintendont download from ");
    reveal_strlit(" was only ");
    reveal_strlit(" bytes (expected a >1 MiB boot.dol); supply one with --nintendont");
    law_decimal_reads_back(len);
    assert(report.subrange(25, 25 + url.len() as int) =~= url);
    assert(report.subrange(35 + url.len() as int, report.len() - 65) =~= decimal_of(len));
}

/// A loader is half a mebibyte at least.
pub proof fn law_loader_is_not_small()
    ensures
        MIN_LOADER_BYTES == 512 * 1024,
{
}

} // verus!
