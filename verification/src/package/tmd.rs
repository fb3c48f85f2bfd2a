//! The title metadata (`title.tmd`).
//!
//! All numbers are big-endian:
//!
//! ```text
//! 0x000  u32 signature type (0x00010004, RSA-2048 SHA-256)
//! 0x004  signature and padding up to 0x140, all zero (fakesigned)
//! 0x140  header: issuer, versions, title id, title type, group id, ...
//! 0x1DE  u16 content count, u16 boot index, u16 reserved
//! 0x1E4  SHA-256 of the content-info table
//! 0x204  content-info table: 64 entries of 0x24 bytes (entry 0 spans all contents)
//! 0xB04  content records: 0x30 bytes each
//!          { u32 id, u16 index, u16 type, u64 size, SHA-1 padded to 0x20 }
//! ```

use vstd::prelude::*;

use crate::digest::{sha256, sha256_of};
use crate::util::{
    append_bytes, append_zeros, be16, be16_at, be32, be32_at, be64, be64_at,
    law_numbers_are_stored_high_byte_first, lemma_be16, lemma_be16_bytes, lemma_be32,
    lemma_be32_bytes, lemma_be64, lemma_cut, lemma_middle, push_be16, push_be32, push_be64,
    read_be16, read_be32, read_be64, spliced, write_at, zeros,
};

verus! {

/// A content record of the TMD.
#[derive(Clone, Copy, Debug)]
pub struct ContentRecord {
    /// Content id; the name of its `.app` file.
    pub id: u32,
    /// Content index.
    pub index: u16,
    /// Content type (0x2001 non-hashed, 0x2003 hashed).
    pub content_type: u16,
    /// Encrypted size in bytes.
    pub size: u64,
    /// The SHA-1 recorded for the content.
    pub hash: [u8; 20],
}

/// Signature type of a fakesigned title: RSA-2048 SHA-256.
pub const SIG_TYPE_RSA2048_SHA256: u32 = 0x0001_0004;

/// Where the content records start.
pub const RECORDS_OFF: usize = 0x0B04;

/// Size of the content-info table.
pub const INFO_TABLE_LEN: usize = 0x900;

/// The header region from 0x140 to 0x1DE. Its fields describe the base framework and are the
/// same for every title built on it, except for the title id and the group id.
pub const TMD_HEADER_TEMPLATE: [u8; 158] = [
    0x52, 0x6f, 0x6f, 0x74, 0x2d, 0x43, 0x41, 0x30, 0x30, 0x30, 0x30, 0x30, 0x30, 0x30, 0x33, 0x2d,
    0x43, 0x50, 0x30, 0x30, 0x30, 0x30, 0x30, 0x30, 0x30, 0x62, 0x00, 0x00, 0x00, 0x00, 0x00, 0x00,
    0x00, 0x00, 0x00, 0x00, 0x00, 0x00, 0x00, 0x00, 0x00, 0x00, 0x00, 0x00, 0x00, 0x00, 0x00, 0x00,
    0x00, 0x00, 0x00, 0x00, 0x00, 0x00, 0x00, 0x00, 0x00, 0x00, 0x00, 0x00, 0x00, 0x00, 0x00, 0x00,
    0x01, 0x00, 0x00, 0x00, 0x00, 0x05, 0x00, 0x10, 0x10, 0x00, 0x40, 0x0a, 0x00, 0x05, 0x00, 0x00,
    0x10, 0x1b, 0x07, 0x00, 0x00, 0x00, 0x01, 0x00, 0x1b, 0x07, 0x80, 0x00, 0x00, 0x2e, 0x00, 0x00,
    0x00, 0x00, 0x1d, 0xe6, 0x00, 0x00, 0x00, 0x00, 0x00, 0x00, 0x00, 0x00, 0x00, 0x00, 0x00, 0x00,
    0x00, 0x00, 0x00, 0x00, 0x00, 0x00, 0x00, 0x00, 0x00, 0x00, 0x00, 0x00, 0x00, 0x00, 0x00, 0x00,
    0x00, 0x00, 0x00, 0x00, 0x00, 0x00, 0x00, 0x00, 0x00, 0x00, 0x00, 0x00, 0x00, 0x00, 0x00, 0x00,
    0x00, 0x00, 0x00, 0x00, 0x00, 0x00, 0x00, 0x00, 0x00, 0x00, 0x00, 0x00, 0x00, 0x00,
];

/// The bytes of one content record.
#[verifier::opaque]
pub open spec fn record_bytes(r: ContentRecord) -> Seq<u8> {
    be32(r.id) + be16(r.index) + be16(r.content_type) + be64(r.size) + r.hash@ + zeros(12)
}

/// The bytes of the first `n` content records.
pub open spec fn records_bytes(records: Seq<ContentRecord>, n: int) -> Seq<u8>
    decreases n,
{
    if n <= 0 {
        Seq::empty()
    } else {
        records_bytes(records, n - 1) + record_bytes(records[n - 1])
    }
}

/// The content-info table: entry 0 spans all contents and hashes their records.
pub open spec fn info_table_of(records: Seq<ContentRecord>) -> Seq<u8> {
    be16(0) + be16((records.len() % 0x1_0000) as u16) + sha256_of(
        records_bytes(records, records.len() as int),
    ) + zeros(0x900 - 36)
}

/// The header with its title id and group id filled in.
pub open spec fn header_with(title_id: u64, group_id: u16) -> Seq<u8> {
    spliced(spliced(TMD_HEADER_TEMPLATE@, 0x4C, be64(title_id)), 0x58, be16(group_id))
}

/// A complete TMD.
pub open spec fn tmd_bytes(title_id: u64, group_id: u16, records: Seq<ContentRecord>) -> Seq<u8> {
    be32(SIG_TYPE_RSA2048_SHA256) + zeros(0x13C) + header_with(title_id, group_id) + be16(
        (records.len() % 0x1_0000) as u16,
    ) + be16(0) + be16(0) + sha256_of(info_table_of(records)) + info_table_of(records)
        + records_bytes(records, records.len() as int)
}

/// Content record `i` of a TMD.
pub open spec fn parsed_record(tmd: Seq<u8>, i: int, r: ContentRecord) -> bool {
    let o = 0xB04 + i * 0x30;
    &&& r.id == be32_at(tmd, o)
    &&& r.index == be16_at(tmd, o + 4)
    &&& r.content_type == be16_at(tmd, o + 6)
    &&& r.size == be64_at(tmd, o + 8)
    &&& r.hash@ == tmd.subrange(o + 16, o + 36)
}

/// The content count that a TMD states.
pub open spec fn stated_count(tmd: Seq<u8>) -> int {
    be16_at(tmd, 0x1DE) as int
}

/// Whether a TMD states the number of these content records and holds each of them.
pub open spec fn states_records(tmd: Seq<u8>, records: Seq<ContentRecord>) -> bool {
    &&& tmd.len() >= 0xB04 + records.len() * 0x30
    &&& stated_count(tmd) == records.len()
    &&& forall|i: int| 0 <= i < records.len() ==> parsed_record(tmd, i, #[trigger] records[i])
}

/// Whether `tmd` is the one that is built of these content records. Up to 65535 of them it states
/// as they are.
pub open spec fn tmd_built(
    title_id: u64,
    group_id: u16,
    records: Seq<ContentRecord>,
    tmd: Seq<u8>,
) -> bool {
    &&& tmd == tmd_bytes(title_id, group_id, records)
    &&& records.len() <= u16::MAX ==> tmd.len() == 0xB04 + records.len() * 0x30 && states_records(
        tmd,
        records,
    )
}

/// Whether `r` is what reading the content records of a TMD gives.
pub open spec fn records_parsed(
    tmd: Seq<u8>,
    r: core::result::Result<Vec<ContentRecord>, &'static str>,
) -> bool {
    match r {
        Ok(records) => tmd.len() >= 0xB06 && states_records(tmd, records@),
        Err(e) => if tmd.len() < 0xB06 {
            e@ == "TMD too short"@
        } else {
            tmd.len() < 0xB04 + stated_count(tmd) * 0x30 && e@ == "TMD content records truncated"@
        },
    }
}

/// Append one content record.
fn push_record(out: &mut Vec<u8>, r: &ContentRecord)
    ensures
        final(out)@ == old(out)@ + record_bytes(*r),
{
    push_be32(out, r.id);
    push_be16(out, r.index);
    push_be16(out, r.content_type);
    push_be64(out, r.size);
    append_bytes(out, r.hash.as_slice());
    append_zeros(out, 12);
    assert(out@ =~= old(out)@ + record_bytes(*r)) by {
        reveal(record_bytes);
    }
}

proof fn lemma_records_at(records: Seq<ContentRecord>, n: int, i: int)
    requires
        0 <= n <= records.len(),
    ensures
        records_bytes(records, n).len() == n * 0x30,
        0 <= i < n ==> records_bytes(records, n).subrange(i * 0x30, i * 0x30 + 0x30)
            == record_bytes(records[i]),
    decreases n,
{
    if n > 0 {
        lemma_records_at(records, n - 1, i);
        assert(record_bytes(records[n - 1]).len() == 0x30) by {
            reveal(record_bytes);
        }
        let all = records_bytes(records, n);
        let front = records_bytes(records, n - 1);
        if 0 <= i < n - 1 {
            assert(all.subrange(i * 0x30, i * 0x30 + 0x30) =~= front.subrange(
                i * 0x30,
                i * 0x30 + 0x30,
            ));
        } else if i == n - 1 {
            assert(all.subrange(i * 0x30, i * 0x30 + 0x30) =~= record_bytes(records[i]));
        }
    }
}

proof fn lemma_record_fields(tmd: Seq<u8>, i: int, r: ContentRecord)
    requires
        0 <= i,
        0xB04 + i * 0x30 + 0x30 <= tmd.len(),
        tmd.subrange(0xB04 + i * 0x30, 0xB04 + i * 0x30 + 0x30) == record_bytes(r),
    ensures
        parsed_record(tmd, i, r),
{
    reveal(record_bytes);
    let o = 0xB04 + i * 0x30;
    let cut = tmd.subrange(o, o + 0x30);
    assert(tmd.subrange(o, o + 4) =~= cut.subrange(0, 4));
    assert(cut.subrange(0, 4) =~= be32(r.id));
    lemma_be32(tmd, o, r.id);
    assert(tmd.subrange(o + 4, o + 6) =~= cut.subrange(4, 6));
    assert(cut.subrange(4, 6) =~= be16(r.index));
    lemma_be16(tmd, o + 4, r.index);
    assert(tmd.subrange(o + 6, o + 8) =~= cut.subrange(6, 8));
    assert(cut.subrange(6, 8) =~= be16(r.content_type));
    lemma_be16(tmd, o + 6, r.content_type);
    assert(tmd.subrange(o + 8, o + 16) =~= cut.subrange(8, 16));
    assert(cut.subrange(8, 16) =~= be64(r.size));
    lemma_be64(tmd, o + 8, r.size);
    assert(tmd.subrange(o + 16, o + 36) =~= cut.subrange(16, 36));
    assert(cut.subrange(16, 36) =~= r.hash@);
}

/// A TMD built from records states their count and holds each of them.
proof fn lemma_tmd_round_trip(title_id: u64, group_id: u16, records: Seq<ContentRecord>)
    requires
        records.len() <= u16::MAX,
        sha256_of(info_table_of(records)).len() == 32,
        info_table_of(records).len() == 0x900,
    ensures
        tmd_bytes(title_id, group_id, records).len() == 0xB04 + records.len() * 0x30,
        stated_count(tmd_bytes(title_id, group_id, records)) == records.len(),
        forall|i: int|
            0 <= i < records.len() ==> parsed_record(
                tmd_bytes(title_id, group_id, records),
                i,
                #[trigger] records[i],
            ),
{
    let n = records.len() as int;
    let tmd = tmd_bytes(title_id, group_id, records);
    let front = be32(SIG_TYPE_RSA2048_SHA256) + zeros(0x13C) + header_with(title_id, group_id);
    let count = be16((records.len() % 0x1_0000) as u16);
    let middle = be16(0) + be16(0) + sha256_of(info_table_of(records)) + info_table_of(records);
    let tail = records_bytes(records, n);
    lemma_records_at(records, n, 0);
    assert(front.len() == 0x1DE);
    assert(tmd =~= front + count + (middle + tail));
    lemma_middle(front, count, middle + tail);
    lemma_be16(tmd, 0x1DE, records.len() as u16);
    let nothing = Seq::<u8>::empty();
    let head = front + count + middle;
    assert(head.len() == 0xB04);
    assert(tmd =~= head + tail + nothing);
    assert forall|i: int| 0 <= i < n implies parsed_record(tmd, i, #[trigger] records[i]) by {
        lemma_records_at(records, n, i);
        lemma_cut(head, tail, nothing, i * 0x30, i * 0x30 + 0x30);
        lemma_record_fields(tmd, i, records[i]);
    }
}

/// Build a complete `title.tmd` for the given title id, group id and content records. Up to
/// 65535 records can be read back from it as they were.
pub fn build_tmd(title_id: u64, group_id: u16, contents: &[ContentRecord]) -> (out: Vec<u8>)
    ensures
        tmd_built(title_id, group_id, contents@, out@),
{
    let mut records: Vec<u8> = Vec::new();
    let mut i: usize = 0;
    while i < contents.len()
        invariant
            i <= contents@.len(),
            records@ == records_bytes(contents@, i as int),
        decreases contents@.len() - i,
    {
        push_record(&mut records, &contents[i]);
        i += 1;
    }
    let count: u16 = (contents.len() % 0x1_0000) as u16;
    let mut info: Vec<u8> = Vec::new();
    push_be16(&mut info, 0);
    push_be16(&mut info, count);
    let records_hash: [u8; 32] = sha256(records.as_slice());
    append_bytes(&mut info, records_hash.as_slice());
    append_zeros(&mut info, INFO_TABLE_LEN - 36);
    assert(info@ =~= info_table_of(contents@));
    let info_hash: [u8; 32] = sha256(info.as_slice());

    let mut out: Vec<u8> = Vec::new();
    push_be32(&mut out, SIG_TYPE_RSA2048_SHA256);
    append_zeros(&mut out, 0x13C);
    let mut header: Vec<u8> = Vec::new();
    append_bytes(&mut header, TMD_HEADER_TEMPLATE.as_slice());
    let mut field: Vec<u8> = Vec::new();
    push_be64(&mut field, title_id);
    write_at(&mut header, 0x4C, field.as_slice());
    let mut group: Vec<u8> = Vec::new();
    push_be16(&mut group, group_id);
    write_at(&mut header, 0x58, group.as_slice());
    assert(header@ =~= header_with(title_id, group_id));
    append_bytes(&mut out, header.as_slice());
    push_be16(&mut out, count);
    push_be16(&mut out, 0);
    push_be16(&mut out, 0);
    append_bytes(&mut out, info_hash.as_slice());
    append_bytes(&mut out, info.as_slice());
    append_bytes(&mut out, records.as_slice());
    assert(out@ =~= tmd_bytes(title_id, group_id, contents@));
    proof {
        if contents@.len() <= u16::MAX {
            lemma_tmd_round_trip(title_id, group_id, contents@);
        }
    }
    out
}

/// Read the content records of a TMD.
pub fn parse_content_records(tmd: &[u8]) -> (r: Result<Vec<ContentRecord>, &'static str>)
    ensures
        records_parsed(tmd@, r),
{
    if tmd.len() < RECORDS_OFF + 2 {
        return Err("TMD too short");
    }
    let count: usize = read_be16(tmd, 0x1DE) as usize;
    if tmd.len() < RECORDS_OFF + count * 0x30 {
        return Err("TMD content records truncated");
    }
    let mut records: Vec<ContentRecord> = Vec::with_capacity(count);
    let mut i: usize = 0;
    while i < count
        invariant
            i <= count <= u16::MAX,
            tmd@.len() >= 0xB04 + count * 0x30,
            records@.len() == i,
            forall|j: int| 0 <= j < i ==> parsed_record(tmd@, j, #[trigger] records@[j]),
        decreases count - i,
    {
        let o: usize = RECORDS_OFF + i * 0x30;
        let mut hash: [u8; 20] = [0u8; 20];
        let mut k: usize = 0;
        while k < 20
            invariant
                k <= 20,
                o + 36 <= tmd@.len(),
                o <= 0x30_0B04,
                forall|j: int| 0 <= j < k ==> hash@[j] == tmd@[o + 16 + j],
            decreases 20 - k,
        {
            hash[k] = tmd[o + 16 + k];
            k += 1;
        }
        assert(hash@ =~= tmd@.subrange(o + 16, o + 36));
        let record = ContentRecord {
            id: read_be32(tmd, o),
            index: read_be16(tmd, o + 4),
            content_type: read_be16(tmd, o + 6),
            size: read_be64(tmd, o + 8),
            hash,
        };
        records.push(record);
        i += 1;
    }
    Ok(records)
}

/// The content records of a TMD are refused exactly where the TMD is too short or does not hold as
/// many as it states; otherwise there are just as many as stated.
pub proof fn law_parsing_refuses_short_tmds(
    tmd: Seq<u8>,
    r: core::result::Result<Vec<ContentRecord>, &'static str>,
)
    requires
        records_parsed(tmd, r),
    ensures
        r is Err <==> tmd.len() < 0xB06 || tmd.len() < 0xB04 + stated_count(tmd) * 0x30,
        tmd.len() < 0xB06 ==> r->Err_0@ == "TMD too short"@,
        tmd.len() >= 0xB06 && r is Err ==> r->Err_0@ == "TMD content records truncated"@,
        r matches Ok(records) ==> records@.len() == stated_count(tmd),
{
}

/// What follows a TMD does not change what it states.
proof fn lemma_tail(tmd: Seq<u8>, tail: Seq<u8>, records: Seq<ContentRecord>)
    requires
        tmd.len() >= 0xB04 + records.len() * 0x30,
        states_records(tmd, records),
    ensures
        states_records(tmd + tail, records),
{
    let all = tmd + tail;
    assert forall|i: int| 0 <= i < records.len() implies parsed_record(
        all,
        i,
        #[trigger] records[i],
    ) by {
        let o = 0xB04 + i * 0x30;
        assert(parsed_record(tmd, i, records[i]));
        assert(all.subrange(o + 16, o + 36) =~= tmd.subrange(o + 16, o + 36));
    }
}

/// The content records of a built TMD, whatever follows it, are read back as they were, field for
/// field and in order.
pub proof fn law_records_come_back(
    title_id: u64,
    group_id: u16,
    records: Seq<ContentRecord>,
    tmd: Seq<u8>,
    tail: Seq<u8>,
    r: core::result::Result<Vec<ContentRecord>, &'static str>,
)
    requires
        1 <= records.len() <= u16::MAX,
        tmd_built(title_id, group_id, records, tmd),
        records_parsed(tmd + tail, r),
    ensures
        r is Ok,
        r->Ok_0@ == records,
{
    let all = tmd + tail;
    lemma_tail(tmd, tail, records);
    assert(r is Ok);
    let found = r->Ok_0@;
    assert forall|i: int| 0 <= i < records.len() implies found[i] == records[i] by {
        assert(parsed_record(all, i, records[i]));
        assert(parsed_record(all, i, found[i]));
        assert(found[i].hash =~= records[i].hash);
    }
    assert(found =~= records);
}

/// A TMD byte for byte: the signature type, an empty signature, the header of the framework with
/// the title id at 0x18C and the group id at 0x198 filled in, the number of contents at 0x1DE, and
/// two hashes that a reader checks: at 0x1E4 that of the content-info table, which follows at
/// 0x204, and in the table's first entry that of the records behind it.
pub proof fn law_tmd_layout(title_id: u64, group_id: u16, records: Seq<ContentRecord>, k: int)
    requires
        records.len() <= u16::MAX,
        sha256_of(info_table_of(records)).len() == 32,
        sha256_of(records_bytes(records, records.len() as int)).len() == 32,
        0 <= k < 0x204,
    ensures
        ({
            let tmd = tmd_bytes(title_id, group_id, records);
            &&& tmd.len() == 0xB04 + records.len() * 0x30
            &&& tmd[0] == 0 && tmd[1] == 1 && tmd[2] == 0 && tmd[3] == 4
            &&& 4 <= k < 0x140 ==> tmd[k] == 0
            &&& 0x140 <= k < 0x18C || 0x194 <= k < 0x198 || 0x19A <= k < 0x1DE ==> tmd[k]
                == TMD_HEADER_TEMPLATE@[k - 0x140]
            &&& tmd[0x18C] * 0x100_0000_0000_0000 + tmd[0x18D] * 0x1_0000_0000_0000 + tmd[0x18E]
                * 0x100_0000_0000 + tmd[0x18F] * 0x1_0000_0000 + tmd[0x190] * 0x100_0000
                + tmd[0x191] * 0x1_0000 + tmd[0x192] * 0x100 + tmd[0x193] == title_id
            &&& tmd[0x198] * 0x100 + tmd[0x199] == group_id
            &&& tmd[0x1DE] * 0x100 + tmd[0x1DF] == records.len()
            &&& 0x1E0 <= k < 0x1E4 ==> tmd[k] == 0
            &&& tmd.subrange(0x1E4, 0x204) == sha256_of(tmd.subrange(0x204, 0xB04))
            &&& tmd[0x204] == 0 && tmd[0x205] == 0
            &&& tmd[0x206] * 0x100 + tmd[0x207] == records.len()
            &&& tmd.subrange(0x208, 0x228) == sha256_of(tmd.subrange(0xB04, tmd.len() as int))
            &&& forall|z: int| 0x228 <= z < 0xB04 ==> #[trigger] tmd[z] == 0
        }),
{
    let n = records.len() as int;
    let tmd = tmd_bytes(title_id, group_id, records);
    let info = info_table_of(records);
    let body = records_bytes(records, n);
    let header = header_with(title_id, group_id);
    let count = be16((records.len() % 0x1_0000) as u16);
    lemma_records_at(records, n, 0);
    lemma_be32_bytes(SIG_TYPE_RSA2048_SHA256);
    law_numbers_are_stored_high_byte_first(group_id, 0, title_id);
    lemma_be16_bytes(records.len() as u16);
    lemma_be16_bytes(0);
    lemma_header_with(title_id, group_id);
    assert(info.len() == 0x900);
    let front = be32(SIG_TYPE_RSA2048_SHA256) + zeros(0x13C) + header;
    let middle = count + be16(0) + be16(0) + sha256_of(info);
    assert(front.len() == 0x1DE);
    assert(middle.len() == 0x26);
    assert(tmd =~= front + middle + info + body);
    assert(forall|i: int| 0 <= i < 0x1DE ==> tmd[i] == front[i]);
    assert(forall|i: int| 0 <= i < 158 ==> #[trigger] header[i] == tmd[0x140 + i]);
    assert(tmd[0] == be32(SIG_TYPE_RSA2048_SHA256)[0] && tmd[1] == be32(
        SIG_TYPE_RSA2048_SHA256,
    )[1] && tmd[2] == be32(SIG_TYPE_RSA2048_SHA256)[2] && tmd[3] == be32(
        SIG_TYPE_RSA2048_SHA256,
    )[3]);
    if 0x140 <= k < 0x1DE {
        assert(header[k - 0x140] == tmd[k]);
    }
    let id = be64(title_id);
    assert(header[0x4C] == id[0] && header[0x4D] == id[1] && header[0x4E] == id[2] && header[0x4F]
        == id[3] && header[0x50] == id[4] && header[0x51] == id[5] && header[0x52] == id[6]
        && header[0x53] == id[7]);
    assert(header[0x58] == be16(group_id)[0] && header[0x59] == be16(group_id)[1]);
    assert(tmd[0x1DE] == count[0] && tmd[0x1DF] == count[1]);
    assert(tmd.subrange(0x1E4, 0x204) =~= sha256_of(info));
    assert(tmd.subrange(0x204, 0xB04) =~= info);
    assert(tmd.subrange(0xB04, tmd.len() as int) =~= body);
    assert(forall|i: int| 0 <= i < 0x900 ==> #[trigger] info[i] == tmd[0x204 + i]);
    assert(info[0] == tmd[0x204] && info[1] == tmd[0x205] && info[2] == tmd[0x206] && info[3]
        == tmd[0x207]);
    assert(info[2] == count[0] && info[3] == count[1]);
    assert(tmd.subrange(0x208, 0x228) =~= info.subrange(4, 36));
    assert(info.subrange(4, 36) =~= sha256_of(body));
    assert forall|z: int| 0x228 <= z < 0xB04 implies #[trigger] tmd[z] == 0 by {
        assert(info[z - 0x204] == tmd[0x204 + (z - 0x204)]);
    }
}

/// The header with the ids filled in, byte for byte.
proof fn lemma_header_with(title_id: u64, group_id: u16)
    ensures
        header_with(title_id, group_id).len() == 158,
        forall|i: int|
            0 <= i < 158 ==> #[trigger] header_with(title_id, group_id)[i] == if 0x4C <= i < 0x54 {
                be64(title_id)[i - 0x4C]
            } else if 0x58 <= i < 0x5A {
                be16(group_id)[i - 0x58]
            } else {
                TMD_HEADER_TEMPLATE@[i]
            },
{
    let first = spliced(TMD_HEADER_TEMPLATE@, 0x4C, be64(title_id));
    assert(TMD_HEADER_TEMPLATE@.len() == 158);
    assert(first.len() == 158);
    assert(forall|i: int|
        0 <= i < 158 ==> #[trigger] first[i] == if 0x4C <= i < 0x54 {
            be64(title_id)[i - 0x4C]
        } else {
            TMD_HEADER_TEMPLATE@[i]
        });
}

/// A record takes 0x30 bytes: id, index, type and size with the high byte first, the hash and
/// twelve zeros.
pub proof fn law_record_layout(r: ContentRecord, k: int)
    requires
        0 <= k < 20,
    ensures
        ({
            let b = record_bytes(r);
            &&& b.len() == 0x30
            &&& b[0] * 0x100_0000 + b[1] * 0x1_0000 + b[2] * 0x100 + b[3] == r.id
            &&& b[4] * 0x100 + b[5] == r.index
            &&& b[6] * 0x100 + b[7] == r.content_type
            &&& b[8] * 0x100_0000_0000_0000 + b[9] * 0x1_0000_0000_0000 + b[10] * 0x100_0000_0000
                + b[11] * 0x1_0000_0000 + b[12] * 0x100_0000 + b[13] * 0x1_0000 + b[14] * 0x100
                + b[15] == r.size
            &&& b[16 + k] == r.hash@[k]
            &&& forall|z: int| 36 <= z < 48 ==> #[trigger] b[z] == 0
        }),
{
    reveal(record_bytes);
    let b = record_bytes(r);
    law_numbers_are_stored_high_byte_first(r.index, r.id, r.size);
    lemma_be16_bytes(r.content_type);
    assert(b[0] == be32(r.id)[0] && b[1] == be32(r.id)[1] && b[2] == be32(r.id)[2] && b[3] == be32(
        r.id,
    )[3]);
    assert(b[4] == be16(r.index)[0] && b[5] == be16(r.index)[1]);
    assert(b[6] == be16(r.content_type)[0] && b[7] == be16(r.content_type)[1]);
    let size = be64(r.size);
    assert(b[8] == size[0] && b[9] == size[1] && b[10] == size[2] && b[11] == size[3] && b[12]
        == size[4] && b[13] == size[5] && b[14] == size[6] && b[15] == size[7]);
}

/// The records stand at 0xB04, one behind another.
pub proof fn law_records_stand_in_order(
    title_id: u64,
    group_id: u16,
    records: Seq<ContentRecord>,
    i: int,
)
    requires
        records.len() <= u16::MAX,
        sha256_of(info_table_of(records)).len() == 32,
        sha256_of(records_bytes(records, records.len() as int)).len() == 32,
        0 <= i < records.len(),
    ensures
        tmd_bytes(title_id, group_id, records).subrange(0xB04 + i * 0x30, 0xB34 + i * 0x30)
            == record_bytes(records[i]),
{
    let n = records.len() as int;
    let tmd = tmd_bytes(title_id, group_id, records);
    let body = records_bytes(records, n);
    law_tmd_layout(title_id, group_id, records, 0);
    lemma_records_at(records, n, i);
    assert(body.len() == n * 0x30);
    assert(tmd.subrange(0xB04, tmd.len() as int) =~= body);
    assert(tmd.subrange(0xB04 + i * 0x30, 0xB34 + i * 0x30) =~= body.subrange(
        i * 0x30,
        i * 0x30 + 0x30,
    ));
}

/// Whatever TMD is read, its number of records is stated at 0x1DE, and each record's id, index,
/// type, size and hash stand one behind another from 0xB04 on, 0x30 bytes for each record.
pub proof fn law_records_are_read_from_their_places(
    tmd: Seq<u8>,
    r: core::result::Result<Vec<ContentRecord>, &'static str>,
    i: int,
    k: int,
)
    requires
        records_parsed(tmd, r),
        r is Ok,
        0 <= i < r->Ok_0@.len(),
        0 <= k < 20,
    ensures
        ({
            let rec = r->Ok_0@[i];
            let at = 0xB04 + i * 0x30;
            &&& r->Ok_0@.len() == tmd[0x1DE] * 0x100 + tmd[0x1DF]
            &&& rec.id == be32_at(tmd, at)
            &&& rec.index == tmd[at + 4] * 0x100 + tmd[at + 5]
            &&& rec.content_type == tmd[at + 6] * 0x100 + tmd[at + 7]
            &&& rec.size == be64_at(tmd, at + 8)
            &&& rec.hash@[k] == tmd[at + 16 + k]
        }),
{
    let rec = r->Ok_0@[i];
    let at = 0xB04 + i * 0x30;
    assert(parsed_record(tmd, i, rec));
    assert(tmd.subrange(at + 16, at + 36)[k] == tmd[at + 16 + k]);
}

} // verus!
