//! Assembly of the installable WUP package.
//!
//! A package is `title.tmd`, `title.tik`, `title.cert` and one `.app` file per content, with an
//! `.h3` file beside every hashed one. [`content::plan`] assigns the staged files to contents
//! and lays out the file system table, [`write_content`] encrypts one content, [`finish_package`]
//! states what remains to be written once all of them are done, and [`pack::build_package`] does
//! all of it.

pub mod assignment;
pub mod cert;
pub mod content;
pub mod content_crypto;
pub mod extract;
pub mod fst;
pub mod game_contents;
pub mod pack;
pub mod placement;
pub mod plaintext;
pub mod round_trip;
pub mod staging;
pub mod ticket;
pub mod tmd;
pub mod tree;

use vstd::prelude::*;

use crate::aes_cbc::{cbc_decrypted, cbc_encrypted, Key};
use crate::digest::sha1_of;
use crate::error::Result;
use crate::io::ByteWriter;
use crate::package::cert::CertChain;
use crate::package::content::{ContentView, PlannedContent, TYPE_HASHED};
use crate::package::content_crypto::{
    content_iv_of, encode_hashed_to_writer, encode_nonhashed, h3_file, hashed_data, padded,
    padded_blocks, recovered_data, EncodedContent, HashedSummary,
};
use crate::package::plaintext::{
    all_found, all_readable, assemble_content, assembled, content_stream, ends_held, files_fit,
    ContentPlaintextReader, FileSource,
};
use crate::package::ticket::{
    build_ticket, encrypt_title_key, law_ticket_carries_the_key, lemma_key_iv_is_spelt,
    ticket_bytes, title_iv_of,
};
use crate::package::tmd::{build_tmd, states_records, tmd_bytes, ContentRecord};
use crate::text::{hex_of, law_fixed_hex_reads_back, lemma_hex_widths, number_of, push_hex};
use crate::util::copy_range;

verus! {

/// Parameters of a package.
pub struct PackageParams<'a> {
    /// The Wii U title id.
    pub title_id: u64,
    /// The TMD's group id.
    pub group_id: u16,
    /// The Wii U common key, which encrypts the title key in the ticket.
    pub wiiu_common_key: Key,
    /// The title key, which encrypts the contents.
    pub title_key: Key,
    /// The certificate chain to be written as `title.cert`.
    pub cert: &'a CertChain,
}

/// Statistics of a package.
#[derive(Clone, Copy, Debug)]
pub struct PackageStats {
    /// Number of contents, the file system table counted.
    pub content_count: usize,
    /// Bytes of encrypted content.
    pub total_content_bytes: u64,
}

/// A content that has been written.
pub struct WrittenContent {
    /// Its record in the TMD.
    pub record: ContentRecord,
    /// What its `.h3` file holds; none for a non-hashed content.
    pub h3: Option<Vec<u8>>,
}

/// What is written of a package once its contents are.
pub struct PackageTail {
    /// `title.tmd`.
    pub tmd: Vec<u8>,
    /// `title.tik`.
    pub ticket: Vec<u8>,
    /// `title.cert`.
    pub cert: Vec<u8>,
    /// What has been written in all.
    pub stats: PackageStats,
}

/// The name of a content's file.
pub open spec fn content_name(index: u16, extension: Seq<char>) -> Seq<char> {
    hex_of(index as nat, 8) + extension
}

/// The name of a content's `.app` file.
pub fn app_name(index: u16) -> (r: String)
    ensures
        r@ == content_name(index, ".app"@),
{
    let mut r: String = String::new();
    push_hex(&mut r, index as u64, 8);
    r.append(".app");
    assert(r@ =~= content_name(index, ".app"@));
    r
}

/// The name of a content's `.h3` file.
pub fn h3_name(index: u16) -> (r: String)
    ensures
        r@ == content_name(index, ".h3"@),
{
    let mut r: String = String::new();
    push_hex(&mut r, index as u64, 8);
    r.append(".h3");
    assert(r@ =~= content_name(index, ".h3"@));
    r
}

/// The plaintext of a content. Hashed contents are streamed, the others are assembled in
/// memory; content 0 is the file system table.
pub open spec fn content_plain(
    c: ContentView,
    fst: Seq<u8>,
    source: Map<Seq<char>, Seq<u8>>,
) -> Seq<u8> {
    if c.content_type == TYPE_HASHED {
        content_stream(c.files, source, c.data_len as int)
    } else if c.index == 0 {
        fst
    } else {
        assembled(c.files, source, c.data_len as int, c.files.len() as int)
    }
}

/// The unit that a content's plaintext is padded to.
pub open spec fn padding_of(content_type: u16) -> int {
    if content_type == TYPE_HASHED {
        0xFC00
    } else {
        0x8000
    }
}

/// The encrypted bytes of a content.
pub open spec fn content_cipher(key: Seq<u8>, index: u16, content_type: u16, plain: Seq<u8>) -> Seq<
    u8,
> {
    if content_type == TYPE_HASHED {
        hashed_data(key, index, padded_blocks(plain), padded_blocks(plain).len() as int)
    } else {
        cbc_encrypted(key, content_iv_of(index), padded(plain, 0x8000))
    }
}

/// The hash that the TMD records of a content.
pub open spec fn content_hash(content_type: u16, plain: Seq<u8>) -> Seq<u8> {
    if content_type == TYPE_HASHED {
        sha1_of(h3_file(padded_blocks(plain)))
    } else {
        sha1_of(padded(plain, 0x8000))
    }
}

/// What decrypting a content gives.
pub open spec fn content_recovered(key: Seq<u8>, index: u16, content_type: u16, cipher: Seq<u8>) -> Seq<
    u8,
> {
    if content_type == TYPE_HASHED {
        recovered_data(key, index, cipher, cipher.len() as int / 0x10000)
    } else {
        cbc_decrypted(key, content_iv_of(index), cipher)
    }
}

/// Whether the files of a content can be read.
pub open spec fn content_readable(c: ContentView, source: Map<Seq<char>, Seq<u8>>) -> bool {
    if c.content_type == TYPE_HASHED {
        all_readable(c.files, source)
    } else {
        c.index == 0 || all_found(c.files, source)
    }
}

/// Whether a content is of a size that can be written: a hashed one is streamed, any other is
/// held in memory.
pub open spec fn content_writable(
    c: ContentView,
    fst: Seq<u8>,
    source: Map<Seq<char>, Seq<u8>>,
) -> bool {
    if c.content_type == TYPE_HASHED {
        c.data_len <= 0x7FFF_FFFF_FFFF_FFFF && ends_held(c.files)
    } else if c.index == 0 {
        fst.len() + 0x8000 <= usize::MAX
    } else {
        c.data_len + 0x8000 <= usize::MAX && files_fit(c.files, source, c.data_len as int)
    }
}

/// Whether `cipher` is what a content is encrypted to and `record` is its record. The ciphertext
/// decrypts to the plaintext, padded.
pub open spec fn content_written(
    key: Seq<u8>,
    c: ContentView,
    plain: Seq<u8>,
    cipher: Seq<u8>,
    record: ContentRecord,
) -> bool {
    &&& cipher == content_cipher(key, c.index, c.content_type, plain)
    &&& record.id == c.index
    &&& record.index == c.index
    &&& record.content_type == c.content_type
    &&& record.size == cipher.len()
    &&& record.hash@ == content_hash(c.content_type, plain)
    &&& cipher.len() == if c.content_type == TYPE_HASHED {
        (padded_blocks(plain).len() * 0x10000) as int
    } else {
        padded(plain, 0x8000).len() as int
    }
    &&& content_recovered(key, c.index, c.content_type, cipher) == padded(
        plain,
        padding_of(c.content_type),
    )
}

/// Encrypt one content and write its `.app` file.
pub fn write_content<F: FileSource, W: ByteWriter>(
    title_key: &Key,
    c: &PlannedContent,
    fst: &[u8],
    source: &F,
    writer: &mut W,
) -> (r: Result<WrittenContent>)
    requires
        content_writable(c@, fst@, source.files()),
    ensures
        old(writer).dependable() && content_readable(c@, source.files()) ==> r is Ok,
        r is Ok ==> final(writer).faults() == old(writer).faults(),
        r is Ok && c.content_type != TYPE_HASHED ==> content_readable(c@, source.files()),
        r matches Ok(w) ==> {
            let plain = content_plain(c@, fst@, source.files());
            let cipher = content_cipher(title_key@, c.index, c.content_type, plain);
            &&& final(writer).written() == old(writer).written() + cipher
            &&& content_written(title_key@, c@, plain, cipher, w.record)
            &&& match w.h3 {
                Some(h3) => c.content_type == TYPE_HASHED && h3@ == h3_file(padded_blocks(plain))
                    && h3@.len() == 20 * ((padded_blocks(plain).len() + 4095) / 4096),
                None => c.content_type != TYPE_HASHED,
            }
        },
{
    if c.content_type == TYPE_HASHED {
        let mut reader = ContentPlaintextReader::new(c, source);
        let summary: HashedSummary = match encode_hashed_to_writer(
            title_key,
            c.index,
            &mut reader,
            writer,
        ) {
            Ok(summary) => summary,
            Err(e) => return Err(e),
        };
        let record = ContentRecord {
            id: c.index as u32,
            index: c.index,
            content_type: c.content_type,
            size: summary.size,
            hash: summary.tmd_hash,
        };
        Ok(WrittenContent { record, h3: Some(summary.h3) })
    } else {
        let plain: Vec<u8> = match assemble_content(c, fst, source) {
            Ok(plain) => plain,
            Err(e) => return Err(e),
        };
        let encoded: EncodedContent = encode_nonhashed(title_key, c.index, plain.as_slice());
        match writer.write_all(encoded.data.as_slice()) {
            Ok(_) => {},
            Err(e) => return Err(e),
        }
        let record = ContentRecord {
            id: c.index as u32,
            index: c.index,
            content_type: c.content_type,
            size: encoded.size,
            hash: encoded.tmd_hash,
        };
        Ok(WrittenContent { record, h3: None })
    }
}

/// The bytes of the first `n` contents.
pub open spec fn record_sizes(records: Seq<ContentRecord>, n: int) -> int
    decreases n,
{
    if n <= 0 {
        0
    } else {
        record_sizes(records, n - 1) + records[n - 1].size
    }
}

proof fn lemma_record_sizes(records: Seq<ContentRecord>, n: int, m: int)
    requires
        0 <= n <= m <= records.len(),
    ensures
        0 <= record_sizes(records, n) <= record_sizes(records, m),
    decreases m,
{
    if m > 0 && n < m {
        lemma_record_sizes(records, n, m - 1);
    } else if n > 0 {
        lemma_record_sizes(records, n - 1, n - 1);
    }
}

/// The title key as a package's ticket carries it.
pub open spec fn carried_key(params: PackageParams) -> Seq<u8> {
    cbc_encrypted(params.wiiu_common_key@, title_iv_of(params.title_id), params.title_key@)
}

/// The ticket of a package.
pub open spec fn package_ticket(params: PackageParams) -> Seq<u8> {
    ticket_bytes(params.title_id, carried_key(params))
}

/// State what remains to be written of a package whose contents have these records: the TMD
/// over them, the ticket, which carries the encrypted title key, and the certificate chain as it
/// was given.
pub fn finish_package(params: &PackageParams, records: &Vec<ContentRecord>) -> (r: PackageTail)
    requires
        record_sizes(records@, records@.len() as int) <= u64::MAX,
    ensures
        r.tmd@ == tmd_bytes(params.title_id, params.group_id, records@),
        records@.len() <= u16::MAX ==> states_records(r.tmd@, records@),
        r.ticket@ == package_ticket(*params),
        cbc_decrypted(
            params.wiiu_common_key@,
            title_iv_of(params.title_id),
            carried_key(*params),
        ) == params.title_key@,
        r.cert@ == params.cert.0@,
        r.stats.content_count == records@.len(),
        r.stats.total_content_bytes == record_sizes(records@, records@.len() as int),
{
    let mut total: u64 = 0;
    let mut i: usize = 0;
    while i < records.len()
        invariant
            i <= records@.len(),
            record_sizes(records@, records@.len() as int) <= u64::MAX,
            total == record_sizes(records@, i as int),
        decreases records@.len() - i,
    {
        proof {
            lemma_record_sizes(records@, i + 1, records@.len() as int);
        }
        total = total + records[i].size;
        i += 1;
    }
    let tmd: Vec<u8> = build_tmd(params.title_id, params.group_id, records.as_slice());
    let enc_title_key: Key = encrypt_title_key(
        &params.wiiu_common_key,
        params.title_id,
        &params.title_key,
    );
    let chain: &[u8] = params.cert.as_bytes();
    let cert: Vec<u8> = copy_range(chain, 0, chain.len());
    assert(cert@ =~= params.cert.0@);
    PackageTail {
        tmd,
        ticket: build_ticket(params.title_id, &enc_title_key),
        cert,
        stats: PackageStats { content_count: records.len(), total_content_bytes: total },
    }
}

/// A content's files are named by all eight digits of its index; no two contents share a name, and
/// neither do the two files of one.
pub proof fn law_content_files_are_named_by_the_index(index: u16, other: u16)
    ensures
        ({
            let app = content_name(index, ".app"@);
            let h3 = content_name(index, ".h3"@);
            &&& app.len() == 12
            &&& number_of(app.subrange(0, 8), 16) == index
            &&& app.subrange(8, 12) == seq!['.', 'a', 'p', 'p']
            &&& h3.len() == 11
            &&& number_of(h3.subrange(0, 8), 16) == index
            &&& h3.subrange(8, 11) == seq!['.', 'h', '3']
        }),
        index != other ==> content_name(index, ".app"@) != content_name(other, ".app"@),
        index != other ==> content_name(index, ".h3"@) != content_name(other, ".h3"@),
{
    reveal_strlit(".app");
    reveal_strlit(".h3");
    lemma_hex_widths();
    law_fixed_hex_reads_back(index as nat, 8);
    law_fixed_hex_reads_back(other as nat, 8);
    let app = content_name(index, ".app"@);
    let h3 = content_name(index, ".h3"@);
    assert(app.subrange(0, 8) =~= hex_of(index as nat, 8));
    assert(h3.subrange(0, 8) =~= hex_of(index as nat, 8));
    assert(app.subrange(8, 12) =~= seq!['.', 'a', 'p', 'p']);
    assert(h3.subrange(8, 11) =~= seq!['.', 'h', '3']);
    assert(content_name(other, ".app"@).subrange(0, 8) =~= hex_of(other as nat, 8));
    assert(content_name(other, ".h3"@).subrange(0, 8) =~= hex_of(other as nat, 8));
}

/// The kind of a content decides how it is written: one of type 0x2003 in blocks under a hash
/// tree, any other as one run. Both are sealed with its index and recorded with their hash.
pub proof fn law_type_decides_the_encoding(key: Seq<u8>, index: u16, content_type: u16, plain: Seq<u8>)
    ensures
        content_type == 0x2003 ==> content_cipher(key, index, content_type, plain) == hashed_data(
            key,
            index,
            padded_blocks(plain),
            padded_blocks(plain).len() as int,
        ) && content_hash(content_type, plain) == sha1_of(h3_file(padded_blocks(plain))),
        content_type != 0x2003 ==> content_cipher(key, index, content_type, plain)
            == cbc_encrypted(key, content_iv_of(index), padded(plain, 32768)) && content_hash(
            content_type,
            plain,
        ) == sha1_of(padded(plain, 32768)),
{
}

/// The file system table is the plaintext of content 0, and no other content's; what the others
/// hold is that of their files.
pub proof fn law_table_is_content_zero(
    c: ContentView,
    fst: Seq<u8>,
    source: Map<Seq<char>, Seq<u8>>,
)
    requires
        c.content_type == 0x2001,
    ensures
        c.index == 0 ==> content_plain(c, fst, source) == fst,
        c.index != 0 ==> content_plain(c, fst, source) == assembled(
            c.files,
            source,
            c.data_len as int,
            c.files.len() as int,
        ),
{
}

/// The sizes of joined lists of records add up.
pub proof fn law_sizes_add_up(a: Seq<ContentRecord>, b: Seq<ContentRecord>, one: ContentRecord)
    ensures
        record_sizes(a + b, (a + b).len() as int) == record_sizes(a, a.len() as int) + record_sizes(
            b,
            b.len() as int,
        ),
        record_sizes(seq![one], 1) == one.size,
        record_sizes(Seq::empty(), 0) == 0,
    decreases b.len(),
{
    reveal_with_fuel(record_sizes, 3);
    if b.len() == 0 {
        assert(a + b =~= a);
    } else {
        let less = b.drop_last();
        law_sizes_add_up(a, less, one);
        lemma_sizes_prefix(a + b, a + less, (a + less).len() as int);
        lemma_sizes_prefix(b, less, less.len() as int);
        assert((a + b)[(a + b).len() - 1] == b.last());
    }
}

proof fn lemma_sizes_prefix(a: Seq<ContentRecord>, b: Seq<ContentRecord>, n: int)
    requires
        n <= a.len(),
        n <= b.len(),
        forall|i: int| 0 <= i < n ==> a[i] == b[i],
    ensures
        record_sizes(a, n) == record_sizes(b, n),
    decreases n,
{
    if n > 0 {
        lemma_sizes_prefix(a, b, n - 1);
    }
}

/// The ticket of a package carries the title key under the common key, sealed with the one IV that
/// spells the title id: a reader that has the common key finds it at 0x1BF.
pub proof fn law_ticket_carries_the_title_key(params: PackageParams, iv: Seq<u8>)
    requires
        carried_key(params).len() == 16,
        iv.len() == 16,
        iv[0] * 0x100_0000_0000_0000 + iv[1] * 0x1_0000_0000_0000 + iv[2] * 0x100_0000_0000 + iv[3]
            * 0x1_0000_0000 + iv[4] * 0x100_0000 + iv[5] * 0x1_0000 + iv[6] * 0x100 + iv[7]
            == params.title_id,
        forall|i: int| 8 <= i < 16 ==> #[trigger] iv[i] == 0,
    ensures
        package_ticket(params).subrange(0x1BF, 0x1CF) == cbc_encrypted(
            params.wiiu_common_key@,
            iv,
            params.title_key@,
        ),
{
    lemma_key_iv_is_spelt(params.title_id, iv);
    law_ticket_carries_the_key(params.title_id, carried_key(params));
}

} // verus!
