//! Downloading a base title from the Nintendo Update Server.
//!
//! The server hands out each title's TMD and its encrypted contents under one address per title.
//! The title key is brought by the user.

use vstd::prelude::*;

use crate::error::{DiscFault, Error, Result};
use crate::package::tmd::{parse_content_records, stated_count, states_records, ContentRecord};
use crate::text::{
    chars_of, decimal_of, hex_of, law_decimal_reads_back, law_fixed_hex_reads_back,
    lemma_hex_widths, number_of, push_decimal, push_hex, push_upper_hex_fixed, text_of,
    upper_hex_fixed,
};

verus! {

/// Where titles are downloaded from by default.
pub const DEFAULT_NUS_URL: &'static str = "http://ccs.cdn.c.shop.nintendowifi.net/ccs/download";

/// The first `n` characters without the slashes at the end.
pub open spec fn without_slashes(url: Seq<char>, n: int) -> Seq<char>
    decreases n,
{
    if 0 < n <= url.len() && url[n - 1] == '/' {
        without_slashes(url, n - 1)
    } else {
        url.subrange(0, n)
    }
}

/// A server's address without the slashes at its end.
pub fn server_url(base_url: &str) -> (r: String)
    ensures
        r@ == without_slashes(base_url@, base_url@.len() as int),
{
    let mut chars: Vec<char> = chars_of(base_url);
    let ghost url = base_url@;
    let ghost whole = url.len() as int;
    assert(url.subrange(0, whole) =~= url);
    while chars.len() > 0 && chars[chars.len() - 1] == '/'
        invariant
            url == base_url@,
            whole == url.len(),
            chars@.len() <= whole,
            chars@ == url.subrange(0, chars@.len() as int),
            without_slashes(url, whole) == without_slashes(url, chars@.len() as int),
        ensures
            chars@ == without_slashes(url, whole),
        decreases chars@.len(),
    {
        let last = chars.pop();
        assert(chars@ =~= url.subrange(0, chars@.len() as int));
    }
    text_of(&chars)
}

/// The address of a title's file.
pub open spec fn file_url_of(server: Seq<char>, title_id: u64, file: Seq<char>) -> Seq<char> {
    server + "/"@ + hex_of(title_id as nat, 16) + "/"@ + file
}

/// The address of a title's file.
pub fn file_url(server: &str, title_id: u64, file: &str) -> (r: String)
    ensures
        r@ == file_url_of(server@, title_id, file@),
{
    let mut r: String = String::from_str(server);
    r.append("/");
    push_hex(&mut r, title_id, 16);
    r.append("/");
    r.append(file);
    assert(r@ =~= file_url_of(server@, title_id, file@));
    r
}

/// The name of a title's TMD: the latest, or that of a version.
pub open spec fn tmd_file_of(version: Option<u32>) -> Seq<char> {
    match version {
        Some(v) => "tmd."@ + decimal_of(v as nat),
        None => "tmd"@,
    }
}

/// The name of a title's TMD.
pub fn tmd_file(version: Option<u32>) -> (r: String)
    ensures
        r@ == tmd_file_of(version),
{
    match version {
        Some(v) => {
            let mut r: String = String::from_str("tmd.");
            push_decimal(&mut r, v as u64);
            r
        },
        None => String::from_str("tmd"),
    }
}

/// The name of a content: its id in upper-case hexadecimal.
pub fn content_file(content_id: u32) -> (r: String)
    ensures
        r@ == upper_hex_fixed(content_id as nat, 8),
{
    let mut r: String = String::new();
    push_upper_hex_fixed(&mut r, content_id as u64, 8);
    assert(r@ =~= upper_hex_fixed(content_id as nat, 8));
    r
}

/// The content records of a downloaded TMD.
pub fn downloaded_records(tmd: &[u8]) -> (r: Result<Vec<ContentRecord>>)
    ensures
        match r {
            Ok(records) => tmd@.len() >= 0xB06 && states_records(tmd@, records@),
            Err(e) => {
                &&& tmd@.len() < 0xB06 || tmd@.len() < 0xB04 + stated_count(tmd@) * 0x30
                &&& e matches Error::UnsupportedDisc(DiscFault::BadTmd(why)) && why@ == if tmd@.len()
                    < 0xB06 {
                    "TMD too short"@
                } else {
                    "TMD content records truncated"@
                }
            },
        },
{
    match parse_content_records(tmd) {
        Ok(records) => Ok(records),
        Err(why) => Err(Error::UnsupportedDisc(DiscFault::BadTmd(why))),
    }
}

proof fn lemma_without_slashes(url: Seq<char>, n: int) -> (m: int)
    requires
        0 <= n <= url.len(),
    ensures
        0 <= m <= n,
        without_slashes(url, n) == url.subrange(0, m),
        forall|k: int| m <= k < n ==> #[trigger] url[k] == '/',
        m > 0 ==> url[m - 1] != '/',
    decreases n,
{
    if n > 0 && url[n - 1] == '/' {
        lemma_without_slashes(url, n - 1)
    } else {
        n
    }
}

/// A server's address loses the slashes at its end, all of them and nothing else.
pub proof fn law_address_loses_its_last_slashes(url: Seq<char>)
    ensures
        ({
            let server = without_slashes(url, url.len() as int);
            &&& server.len() <= url.len()
            &&& server == url.subrange(0, server.len() as int)
            &&& forall|k: int| server.len() <= k < url.len() ==> #[trigger] url[k] == '/'
            &&& server.len() > 0 ==> server.last() != '/'
        }),
{
    let m = lemma_without_slashes(url, url.len() as int);
}

/// A file stands in a directory of its title, which is named by all sixteen hexadecimal digits of
/// the title id.
pub proof fn law_files_stand_under_their_title(server: Seq<char>, title_id: u64, file: Seq<char>)
    ensures
        ({
            let url = file_url_of(server, title_id, file);
            let n = server.len() as int;
            &&& url.len() == n + 18 + file.len()
            &&& url.subrange(0, n) == server
            &&& url[n] == '/'
            &&& number_of(url.subrange(n + 1, n + 17), 16) == title_id
            &&& url[n + 17] == '/'
            &&& url.subrange(n + 18, url.len() as int) == file
        }),
{
    let url = file_url_of(server, title_id, file);
    let n = server.len() as int;
    let id = hex_of(title_id as nat, 16);
    reveal_strlit("/");
    lemma_hex_widths();
    law_fixed_hex_reads_back(title_id as nat, 16);
    assert(url.subrange(0, n) =~= server);
    assert(url.subrange(n + 1, n + 17) =~= id);
    assert(url.subrange(n + 18, url.len() as int) =~= file);
}

/// Titles have addresses of their own.
pub proof fn law_titles_have_addresses_of_their_own(
    server: Seq<char>,
    a: u64,
    b: u64,
    file: Seq<char>,
)
    requires
        a != b,
    ensures
        file_url_of(server, a, file) != file_url_of(server, b, file),
{
    law_files_stand_under_their_title(server, a, file);
    law_files_stand_under_their_title(server, b, file);
}

/// The TMD of a version is named by the version in decimal behind `tmd.`, the latest one `tmd`
/// alone.
pub proof fn law_tmd_is_named_by_its_version(version: u32)
    ensures
        tmd_file_of(None) == seq!['t', 'm', 'd'],
        tmd_file_of(Some(version)).len() > 4,
        tmd_file_of(Some(version)).subrange(0, 4) == seq!['t', 'm', 'd', '.'],
        number_of(
            tmd_file_of(Some(version)).subrange(4, tmd_file_of(Some(version)).len() as int),
            10,
        ) == version,
{
    reveal_strlit("tmd");
    reveal_strlit("tmd.");
    law_decimal_reads_back(version as nat);
    let name = tmd_file_of(Some(version));
    assert("tmd"@ =~= seq!['t', 'm', 'd']);
    assert(name.subrange(0, 4) =~= seq!['t', 'm', 'd', '.']);
    assert(name.subrange(4, name.len() as int) =~= decimal_of(version as nat));
}

/// A content is named by all eight hexadecimal digits of its id.
pub proof fn law_content_is_named_by_its_id(content_id: u32)
    ensures
        upper_hex_fixed(content_id as nat, 8).len() == 8,
        number_of(upper_hex_fixed(content_id as nat, 8), 16) == content_id,
{
    lemma_hex_widths();
    law_fixed_hex_reads_back(content_id as nat, 8);
}

} // verus!
