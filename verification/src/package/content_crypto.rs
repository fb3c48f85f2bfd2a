//! Content encryption and the H0-H3 hash tree.
//!
//! Two content encodings, both AES-128-CBC with the title key.
//!
//! **Non-hashed** (content type `0x2001`): the payload is zero-padded to a multiple of 0x8000
//! and encrypted as one run whose IV is the content index followed by zeros.
//!
//! **Hashed** (content type `0x2003`): the payload is split into 0xFC00-byte blocks, the last
//! one zero-padded. Each output block is a 0x400-byte encrypted hash header and 0xFC00 bytes of
//! encrypted data:
//! * `H0` holds the SHA-1 of every block; `H1`, `H2` and `H3` hold the SHA-1 of each run of
//!   sixteen hashes one level down, absent ones counting as zeros; the `.h3` file is `H3`.
//! * The header of a block carries the runs of `H0`, `H1` and `H2` that the block lies under,
//!   then zeros. Its second byte is XORed with the content index before it is encrypted under
//!   the content IV.
//! * The data is encrypted with the first sixteen bytes of the block's own `H0` hash as IV.

use vstd::prelude::*;

use crate::aes_cbc::{cbc_decrypted, cbc_encrypted, decrypt, encrypt, Key};
use crate::digest::{sha1, sha1_of};
use crate::error::{DiscFault, Error, Result};
use crate::io::{after, read_up_to, ByteReader, ByteWriter, MemoryWriter, SliceReader};
use crate::util::{
    align_up, append_bytes, append_zeros, be16, copy_range, lemma_be16_bytes, lemma_rounded_up,
    rounded_up, zeros,
};

verus! {

/// Plaintext bytes per hashed block.
pub const HASH_BLOCK_DATA: usize = 0xFC00;

/// Total bytes per hashed output block.
pub const HASH_BLOCK_TOTAL: usize = 0x10000;

/// Size of the hash header in front of each hashed block.
pub const HASH_HEADER: usize = 0x400;

/// Padding unit for non-hashed content.
pub const CONTENT_PADDING: usize = 0x8000;

/// Blocks under one `H3` hash: the tree is 16-ary with three levels above the blocks, so every
/// hash in a block's header comes from its own group.
pub const HASH_GROUP_BLOCKS: usize = 4096;

/// Bytes of a SHA-1 hash.
pub const HASH_LEN: usize = 20;

/// Plaintext bytes under one `H3` hash.
const GROUP_BYTES: usize = 0xFC0_0000;

/// A SHA-1 hash.
pub type Hash = [u8; 20];

/// The result of encoding one content.
pub struct EncodedContent {
    /// The encrypted `.app` bytes.
    pub data: Vec<u8>,
    /// The `.h3` hash file, present only for hashed content.
    pub h3: Option<Vec<u8>>,
    /// The hash recorded in the TMD: of the `.h3` for hashed content, of the padded plaintext
    /// for non-hashed content.
    pub tmd_hash: Hash,
    /// The encrypted size in bytes.
    pub size: u64,
}

/// What streaming a hashed content to a writer leaves over.
pub struct HashedSummary {
    /// The `.h3` hash file.
    pub h3: Vec<u8>,
    /// The SHA-1 of the `.h3`.
    pub tmd_hash: Hash,
    /// The encrypted size in bytes.
    pub size: u64,
}

/// The IV shared by non-hashed data and hash headers: the content index, then zeros.
pub open spec fn content_iv_of(index: u16) -> Seq<u8> {
    be16(index) + zeros(14)
}

/// `plain` padded with zeros to a non-empty multiple of `unit`.
pub open spec fn padded(plain: Seq<u8>, unit: int) -> Seq<u8> {
    let len = if plain.len() == 0 {
        unit
    } else {
        rounded_up(plain.len() as int, unit)
    };
    plain + zeros(len - plain.len())
}

/// `n / 16`, rounded up.
pub open spec fn sixteenths(n: int) -> int {
    (n + 15) / 16
}

/// Number of blocks that hold `len` bytes; an empty content still takes one.
pub open spec fn block_count(len: int) -> int {
    if len == 0 {
        1
    } else {
        (len + 0xFBFF) / 0xFC00
    }
}

/// Block `b` of `plain`, zero-padded to a full block.
pub open spec fn padded_block(plain: Seq<u8>, b: int) -> Seq<u8> {
    Seq::new(
        0xFC00,
        |i: int|
            if b * 0xFC00 + i < plain.len() {
                plain[b * 0xFC00 + i]
            } else {
                0
            },
    )
}

/// All blocks of `plain`, zero-padded.
pub open spec fn padded_blocks(plain: Seq<u8>) -> Seq<Seq<u8>> {
    Seq::new(block_count(plain.len() as int) as nat, |b: int| padded_block(plain, b))
}

/// `plain` cut into blocks, the last one as short as it comes.
pub open spec fn raw_blocks(plain: Seq<u8>) -> Seq<Seq<u8>> {
    Seq::new(
        ((plain.len() + 0xFBFF) / 0xFC00) as nat,
        |b: int|
            plain.subrange(
                b * 0xFC00,
                if (b + 1) * 0xFC00 < plain.len() {
                    (b + 1) * 0xFC00
                } else {
                    plain.len() as int
                },
            ),
    )
}

/// `H0`: the hash of every block.
pub open spec fn leaf_hashes(blocks: Seq<Seq<u8>>) -> Seq<Seq<u8>> {
    Seq::new(blocks.len(), |b: int| sha1_of(blocks[b]))
}

/// The sixteen hashes from `base` on, laid end to end; absent ones are zeros.
pub open spec fn section_of(hashes: Seq<Seq<u8>>, base: int) -> Seq<u8> {
    Seq::new(
        320,
        |i: int|
            if base + i / 20 < hashes.len() {
                hashes[base + i / 20][i % 20]
            } else {
                0
            },
    )
}

/// One level up: the hash of every run of sixteen hashes.
pub open spec fn parents(hashes: Seq<Seq<u8>>) -> Seq<Seq<u8>> {
    Seq::new(sixteenths(hashes.len() as int) as nat, |g: int| sha1_of(section_of(hashes, g * 16)))
}

/// `H1` over `blocks`.
pub open spec fn h1_of(blocks: Seq<Seq<u8>>) -> Seq<Seq<u8>> {
    parents(leaf_hashes(blocks))
}

/// `H2` over `blocks`.
pub open spec fn h2_of(blocks: Seq<Seq<u8>>) -> Seq<Seq<u8>> {
    parents(h1_of(blocks))
}

/// `H3` over `blocks`.
pub open spec fn h3_of(blocks: Seq<Seq<u8>>) -> Seq<Seq<u8>> {
    parents(h2_of(blocks))
}

/// The first `n` of `parts`, laid end to end.
pub open spec fn joined(parts: Seq<Seq<u8>>, n: int) -> Seq<u8>
    decreases n,
{
    if n <= 0 {
        Seq::empty()
    } else {
        joined(parts, n - 1) + parts[n - 1]
    }
}

/// The `.h3` file over `blocks`.
pub open spec fn h3_file(blocks: Seq<Seq<u8>>) -> Seq<u8> {
    joined(h3_of(blocks), h3_of(blocks).len() as int)
}

/// `header` with its second byte XORed with the low byte of the content index.
pub open spec fn masked(header: Seq<u8>, index: u16) -> Seq<u8> {
    header.update(1, header[1] ^ ((index % 0x100) as u8))
}

/// The hash header of block `b`, before masking.
pub open spec fn header_of(blocks: Seq<Seq<u8>>, b: int) -> Seq<u8> {
    section_of(leaf_hashes(blocks), b / 16 * 16) + section_of(h1_of(blocks), b / 256 * 16)
        + section_of(h2_of(blocks), b / 4096 * 16) + zeros(0x40)
}

/// The encrypted header of block `b`.
pub open spec fn header_cipher(key: Seq<u8>, index: u16, blocks: Seq<Seq<u8>>, b: int) -> Seq<u8> {
    cbc_encrypted(key, content_iv_of(index), masked(header_of(blocks, b), index))
}

/// The IV of block `b`'s data: the head of its own hash.
pub open spec fn data_iv_of(blocks: Seq<Seq<u8>>, b: int) -> Seq<u8> {
    leaf_hashes(blocks)[b].subrange(0, 16)
}

/// The encrypted data of block `b`.
pub open spec fn data_cipher(key: Seq<u8>, blocks: Seq<Seq<u8>>, b: int) -> Seq<u8> {
    cbc_encrypted(key, data_iv_of(blocks, b), blocks[b])
}

/// The first `n` output blocks of a hashed content.
pub open spec fn hashed_data(key: Seq<u8>, index: u16, blocks: Seq<Seq<u8>>, n: int) -> Seq<u8>
    decreases n,
{
    if n <= 0 {
        Seq::empty()
    } else {
        hashed_data(key, index, blocks, n - 1) + (header_cipher(key, index, blocks, n - 1)
            + data_cipher(key, blocks, n - 1))
    }
}

/// The recovered header of output block `b`.
pub open spec fn recovered_header(key: Seq<u8>, index: u16, cipher: Seq<u8>, b: int) -> Seq<u8> {
    masked(
        cbc_decrypted(
            key,
            content_iv_of(index),
            cipher.subrange(b * 0x10000, b * 0x10000 + 0x400),
        ),
        index,
    )
}

/// The recovered data of output block `b`.
pub open spec fn recovered_block(key: Seq<u8>, index: u16, cipher: Seq<u8>, b: int) -> Seq<u8> {
    cbc_decrypted(
        key,
        recovered_header(key, index, cipher, b).subrange(b % 16 * 20, b % 16 * 20 + 16),
        cipher.subrange(b * 0x10000 + 0x400, (b + 1) * 0x10000),
    )
}

/// The recovered data of the first `n` output blocks.
pub open spec fn recovered_data(key: Seq<u8>, index: u16, cipher: Seq<u8>, n: int) -> Seq<u8>
    decreases n,
{
    if n <= 0 {
        Seq::empty()
    } else {
        recovered_data(key, index, cipher, n - 1) + recovered_block(key, index, cipher, n - 1)
    }
}

/// The views of a list of hashes.
pub open spec fn hash_views(hashes: Seq<Hash>) -> Seq<Seq<u8>> {
    Seq::new(hashes.len(), |i: int| hashes[i]@)
}

fn content_iv(index: u16) -> (iv: [u8; 16])
    ensures
        iv@ == content_iv_of(index),
{
    let mut iv: [u8; 16] = [0u8; 16];
    iv[0] = (index / 0x100) as u8;
    iv[1] = (index % 0x100) as u8;
    assert(iv@ =~= content_iv_of(index));
    iv
}

/// The sixteen hashes from `base` on, laid end to end; absent ones are zeros.
fn section(hashes: &Vec<Hash>, base: usize) -> (out: Vec<u8>)
    requires
        base + 16 <= usize::MAX,
    ensures
        out@ == section_of(hash_views(hashes@), base as int),
{
    let mut out: Vec<u8> = Vec::with_capacity(320);
    let mut j: usize = 0;
    while j < 16
        invariant
            j <= 16,
            base + 16 <= usize::MAX,
            out@ == section_of(hash_views(hashes@), base as int).subrange(0, j * 20),
        decreases 16 - j,
    {
        let ghost whole = section_of(hash_views(hashes@), base as int);
        if base + j < hashes.len() {
            append_bytes(&mut out, hashes[base + j].as_slice());
        } else {
            append_zeros(&mut out, 20);
        }
        assert(out@ =~= whole.subrange(0, (j + 1) * 20)) by {
            assert forall|i: int| j * 20 <= i < (j + 1) * 20 implies out@[i] == whole[i] by {
                assert(i / 20 == j && i % 20 == i - j * 20);
            }
        }
        j += 1;
    }
    assert(out@ =~= section_of(hash_views(hashes@), base as int));
    out
}

/// One level up from `hashes`.
fn level_up(hashes: &Vec<Hash>) -> (up: Vec<Hash>)
    requires
        hashes@.len() <= HASH_GROUP_BLOCKS,
    ensures
        hash_views(up@) == parents(hash_views(hashes@)),
        up@.len() == sixteenths(hashes@.len() as int),
{
    let count: usize = hashes.len() / 16 + if hashes.len() % 16 == 0 {
        0
    } else {
        1
    };
    let mut up: Vec<Hash> = Vec::with_capacity(count);
    let mut g: usize = 0;
    while g < count
        invariant
            g <= count,
            count == sixteenths(hashes@.len() as int),
            hashes@.len() <= HASH_GROUP_BLOCKS,
            up@.len() == g,
            forall|i: int|
                0 <= i < g ==> up@[i]@ == sha1_of(section_of(hash_views(hashes@), #[trigger] (i * 16))),
        decreases count - g,
    {
        let run: Vec<u8> = section(hashes, g * 16);
        up.push(sha1(run.as_slice()));
        g += 1;
    }
    assert(hash_views(up@) =~= parents(hash_views(hashes@)));
    up
}


/// Cutting `hashes` at a multiple of sixteen cuts the level above at a sixteenth of it.
proof fn lemma_parents_subrange(hashes: Seq<Seq<u8>>, lo: int, hi: int)
    requires
        0 <= lo <= hi <= hashes.len(),
        lo % 16 == 0,
        hi == hashes.len() || hi % 16 == 0,
    ensures
        lo / 16 + sixteenths(hi - lo) <= parents(hashes).len(),
        hi == hashes.len() ==> lo / 16 + sixteenths(hi - lo) == parents(hashes).len(),
        parents(hashes.subrange(lo, hi)) == parents(hashes).subrange(
            lo / 16,
            lo / 16 + sixteenths(hi - lo),
        ),
{
    let sub = hashes.subrange(lo, hi);
    let up = parents(hashes).subrange(lo / 16, lo / 16 + sixteenths(hi - lo));
    assert(parents(sub).len() == up.len());
    assert forall|g: int| 0 <= g < up.len() implies parents(sub)[g] == up[g] by {
        lemma_section_subrange(hashes, lo, hi, g * 16);
        assert(lo + g * 16 == (lo / 16 + g) * 16);
    }
    assert(parents(sub) =~= up);
}

/// A run of sixteen hashes reads the same in a cut of the list that ends on a run.
proof fn lemma_section_subrange(hashes: Seq<Seq<u8>>, lo: int, hi: int, base: int)
    requires
        0 <= lo <= hi <= hashes.len(),
        lo % 16 == 0,
        base % 16 == 0,
        0 <= base < hi - lo,
        hi == hashes.len() || hi % 16 == 0,
    ensures
        section_of(hashes.subrange(lo, hi), base) == section_of(hashes, lo + base),
{
    assert(section_of(hashes.subrange(lo, hi), base) =~= section_of(hashes, lo + base));
}

/// A group of blocks encodes as it does inside the whole content.
proof fn lemma_group(blocks: Seq<Seq<u8>>, lo: int, hi: int)
    requires
        0 <= lo < hi <= blocks.len(),
        lo % 4096 == 0,
        hi - lo <= 4096,
        hi == blocks.len() || hi - lo == 4096,
    ensures
        forall|b: int|
            0 <= b < hi - lo ==> #[trigger] header_of(blocks.subrange(lo, hi), b) == header_of(
                blocks,
                lo + b,
            ),
        forall|b: int|
            0 <= b < hi - lo ==> #[trigger] data_iv_of(blocks.subrange(lo, hi), b) == data_iv_of(
                blocks,
                lo + b,
            ),
        h3_of(blocks.subrange(lo, hi)).len() == 1,
        lo / 4096 < h3_of(blocks).len(),
        hi == blocks.len() ==> lo / 4096 + 1 == h3_of(blocks).len(),
        h3_of(blocks.subrange(lo, hi))[0] == h3_of(blocks)[lo / 4096],
{
    let sub = blocks.subrange(lo, hi);
    let n = hi - lo;
    let h0 = leaf_hashes(blocks);
    let h1 = h1_of(blocks);
    let h2 = h2_of(blocks);
    assert(leaf_hashes(sub) =~= h0.subrange(lo, hi));
    lemma_parents_subrange(h0, lo, hi);
    let lo1 = lo / 16;
    let hi1 = lo1 + sixteenths(n);
    assert(h1_of(sub) == h1.subrange(lo1, hi1));
    lemma_parents_subrange(h1, lo1, hi1);
    let lo2 = lo1 / 16;
    let hi2 = lo2 + sixteenths(hi1 - lo1);
    assert(h2_of(sub) == h2.subrange(lo2, hi2));
    lemma_parents_subrange(h2, lo2, hi2);
    assert(lo2 / 16 == lo / 4096);
    assert(h3_of(sub) == h3_of(blocks).subrange(lo / 4096, lo / 4096 + 1));
    assert forall|b: int| 0 <= b < n implies #[trigger] header_of(sub, b) == header_of(
        blocks,
        lo + b,
    ) by {
        lemma_section_subrange(h0, lo, hi, b / 16 * 16);
        lemma_section_subrange(h1, lo1, hi1, b / 256 * 16);
        lemma_section_subrange(h2, lo2, hi2, b / 4096 * 16);
        assert(lo + b / 16 * 16 == (lo + b) / 16 * 16);
        assert(lo1 + b / 256 * 16 == (lo + b) / 256 * 16);
        assert(lo2 + b / 4096 * 16 == (lo + b) / 4096 * 16);
    }
}

/// What encrypting block `b` leaves known: the sizes of its parts, and that decrypting them
/// gives back what went in.
pub open spec fn reversible(key: Seq<u8>, index: u16, blocks: Seq<Seq<u8>>, b: int) -> bool {
    &&& leaf_hashes(blocks)[b].len() == 20
    &&& header_cipher(key, index, blocks, b).len() == 0x400
    &&& data_cipher(key, blocks, b).len() == 0xFC00
    &&& cbc_decrypted(key, content_iv_of(index), header_cipher(key, index, blocks, b)) == masked(
        header_of(blocks, b),
        index,
    )
    &&& cbc_decrypted(key, data_iv_of(blocks, b), data_cipher(key, blocks, b)) == blocks[b]
}

/// The output blocks of a group follow those of the groups before it.
proof fn lemma_hashed_data_group(
    key: Seq<u8>,
    index: u16,
    blocks: Seq<Seq<u8>>,
    lo: int,
    hi: int,
    m: int,
)
    requires
        0 <= lo < hi <= blocks.len(),
        lo % 4096 == 0,
        hi - lo <= 4096,
        hi == blocks.len() || hi - lo == 4096,
        0 <= m <= hi - lo,
    ensures
        hashed_data(key, index, blocks, lo + m) == hashed_data(key, index, blocks, lo)
            + hashed_data(key, index, blocks.subrange(lo, hi), m),
    decreases m,
{
    let sub = blocks.subrange(lo, hi);
    if m > 0 {
        lemma_hashed_data_group(key, index, blocks, lo, hi, m - 1);
        lemma_group(blocks, lo, hi);
        assert(header_of(sub, m - 1) == header_of(blocks, lo + (m - 1)));
        assert(data_iv_of(sub, m - 1) == data_iv_of(blocks, lo + (m - 1)));
        assert(hashed_data(key, index, blocks, lo + m) =~= hashed_data(key, index, blocks, lo)
            + hashed_data(key, index, sub, m));
    } else {
        assert(hashed_data(key, index, blocks, lo) + hashed_data(key, index, sub, 0)
            =~= hashed_data(key, index, blocks, lo));
    }
}

/// The blocks of one group of the plaintext are a cut of the blocks of the whole.
proof fn lemma_group_blocks(plain: Seq<u8>, k: int)
    requires
        0 <= k,
        k * 0xFC0_0000 < plain.len() || k == 0,
    ensures
        ({
            let end = if (k + 1) * 0xFC0_0000 < plain.len() {
                (k + 1) * 0xFC0_0000
            } else {
                plain.len() as int
            };
            let group = plain.subrange(k * 0xFC0_0000, end);
            let hi = k * 4096 + block_count(group.len() as int);
            &&& k * 4096 < hi <= padded_blocks(plain).len()
            &&& hi - k * 4096 <= 4096
            &&& hi == padded_blocks(plain).len() || hi - k * 4096 == 4096
            &&& padded_blocks(group) == padded_blocks(plain).subrange(k * 4096, hi)
            &&& end - k * 0xFC0_0000 < 0xFC0_0000 ==> hi == padded_blocks(plain).len()
            &&& end == plain.len() ==> hi == padded_blocks(plain).len()
        }),
{
    let end = if (k + 1) * 0xFC0_0000 < plain.len() {
        (k + 1) * 0xFC0_0000
    } else {
        plain.len() as int
    };
    let group = plain.subrange(k * 0xFC0_0000, end);
    let hi = k * 4096 + block_count(group.len() as int);
    let cut = padded_blocks(plain).subrange(k * 4096, hi);
    assert forall|b: int| 0 <= b < hi - k * 4096 implies padded_blocks(group)[b] == cut[b] by {
        assert(padded_block(group, b) =~= padded_block(plain, k * 4096 + b));
    }
    assert(padded_blocks(group) =~= cut);
}

/// What was read next is the next group, and the rest follows it.
proof fn lemma_next_group(plain: Seq<u8>, k: int, group: Seq<u8>, rest: Seq<u8>)
    requires
        0 <= k,
        k * 0xFC0_0000 <= plain.len(),
        group + rest == plain.subrange(k * 0xFC0_0000, plain.len() as int),
    ensures
        group == plain.subrange(k * 0xFC0_0000, k * 0xFC0_0000 + group.len()),
        rest == plain.subrange(k * 0xFC0_0000 + group.len(), plain.len() as int),
{
    let end = k * 0xFC0_0000 + group.len();
    assert((group + rest).len() == plain.len() - k * 0xFC0_0000);
    assert(group =~= plain.subrange(k * 0xFC0_0000, end)) by {
        assert forall|i: int| 0 <= i < group.len() implies group[i] == plain[k * 0xFC0_0000 + i] by {
            assert((group + rest)[i] == group[i]);
        }
    }
    assert(rest =~= plain.subrange(end, plain.len() as int)) by {
        assert forall|i: int| 0 <= i < rest.len() implies rest[i] == plain[end + i] by {
            assert((group + rest)[group.len() + i] == rest[i]);
        }
    }
}

/// A block that can be decoded within its group can be decoded within the whole.
proof fn lemma_group_reversible(key: Seq<u8>, index: u16, blocks: Seq<Seq<u8>>, lo: int, hi: int)
    requires
        0 <= lo < hi <= blocks.len(),
        lo % 4096 == 0,
        hi - lo <= 4096,
        hi == blocks.len() || hi - lo == 4096,
        forall|b: int|
            0 <= b < hi - lo ==> #[trigger] reversible(key, index, blocks.subrange(lo, hi), b),
    ensures
        forall|c: int| lo <= c < hi ==> #[trigger] reversible(key, index, blocks, c),
{
    let sub = blocks.subrange(lo, hi);
    lemma_group(blocks, lo, hi);
    assert forall|c: int| lo <= c < hi implies #[trigger] reversible(key, index, blocks, c) by {
        assert(reversible(key, index, sub, c - lo));
        assert(header_of(sub, c - lo) == header_of(blocks, lo + (c - lo)));
        assert(data_iv_of(sub, c - lo) == data_iv_of(blocks, lo + (c - lo)));
        assert(leaf_hashes(sub)[c - lo] == leaf_hashes(blocks)[c]);
    }
}

/// Each output block stands at its multiple of 0x10000.
proof fn lemma_hashed_data_at(key: Seq<u8>, index: u16, blocks: Seq<Seq<u8>>, n: int, b: int)
    requires
        0 <= b < n <= blocks.len(),
        forall|c: int| 0 <= c < n ==> #[trigger] reversible(key, index, blocks, c),
    ensures
        hashed_data(key, index, blocks, n).len() == n * 0x10000,
        hashed_data(key, index, blocks, n).subrange(b * 0x10000, b * 0x10000 + 0x400)
            == header_cipher(key, index, blocks, b),
        hashed_data(key, index, blocks, n).subrange(b * 0x10000 + 0x400, (b + 1) * 0x10000)
            == data_cipher(key, blocks, b),
    decreases n,
{
    assert(reversible(key, index, blocks, n - 1));
    let all = hashed_data(key, index, blocks, n);
    let front = hashed_data(key, index, blocks, n - 1);
    if n > 1 {
        lemma_hashed_data_at(key, index, blocks, n - 1, if b < n - 1 {
            b
        } else {
            0
        });
    }
    if b < n - 1 {
        assert(all.subrange(b * 0x10000, b * 0x10000 + 0x400) =~= front.subrange(
            b * 0x10000,
            b * 0x10000 + 0x400,
        ));
        assert(all.subrange(b * 0x10000 + 0x400, (b + 1) * 0x10000) =~= front.subrange(
            b * 0x10000 + 0x400,
            (b + 1) * 0x10000,
        ));
    } else {
        assert(all.subrange(b * 0x10000, b * 0x10000 + 0x400) =~= header_cipher(
            key,
            index,
            blocks,
            b,
        ));
        assert(all.subrange(b * 0x10000 + 0x400, (b + 1) * 0x10000) =~= data_cipher(
            key,
            blocks,
            b,
        ));
    }
}

/// Masking twice gives the header back.
proof fn lemma_masked_twice(header: Seq<u8>, index: u16)
    requires
        header.len() > 1,
    ensures
        masked(masked(header, index), index) == header,
{
    let x = header[1];
    let m = (index % 0x100) as u8;
    assert(x ^ m ^ m == x) by (bit_vector);
    assert(masked(masked(header, index), index) =~= header);
}

/// Decoding the output blocks gives the plaintext blocks back.
proof fn lemma_recovered(key: Seq<u8>, index: u16, blocks: Seq<Seq<u8>>, m: int)
    requires
        0 <= m <= blocks.len(),
        forall|c: int| 0 <= c < blocks.len() ==> #[trigger] reversible(key, index, blocks, c),
    ensures
        recovered_data(
            key,
            index,
            hashed_data(key, index, blocks, blocks.len() as int),
            m,
        ) == joined(blocks, m),
    decreases m,
{
    if m > 0 {
        let b = m - 1;
        let cipher = hashed_data(key, index, blocks, blocks.len() as int);
        lemma_recovered(key, index, blocks, b);
        lemma_hashed_data_at(key, index, blocks, blocks.len() as int, b);
        assert(reversible(key, index, blocks, b));
        let header = header_of(blocks, b);
        lemma_masked_twice(header, index);
        assert(recovered_header(key, index, cipher, b) == header);
        assert(header.subrange(b % 16 * 20, b % 16 * 20 + 16) =~= data_iv_of(blocks, b)) by {
            let own = section_of(leaf_hashes(blocks), b / 16 * 16);
            assert forall|i: int| 0 <= i < 16 implies header[b % 16 * 20 + i] == leaf_hashes(
                blocks,
            )[b][i] by {
                let at = b % 16 * 20 + i;
                assert(at / 20 == b % 16 && at % 20 == i);
                assert(b / 16 * 16 + b % 16 == b);
                assert(header[at] == own[at]);
            }
        }
    }
}

/// The padded blocks laid end to end are the padded plaintext.
proof fn lemma_joined_blocks(plain: Seq<u8>, m: int)
    requires
        0 <= m <= padded_blocks(plain).len(),
    ensures
        padded(plain, 0xFC00).len() == padded_blocks(plain).len() * 0xFC00,
        joined(padded_blocks(plain), m) == padded(plain, 0xFC00).subrange(0, m * 0xFC00),
    decreases m,
{
    lemma_rounded_up(plain.len() as int, 0xFC00);
    if m > 0 {
        lemma_joined_blocks(plain, m - 1);
        assert(joined(padded_blocks(plain), m) =~= padded(plain, 0xFC00).subrange(0, m * 0xFC00));
    } else {
        assert(joined(padded_blocks(plain), m) =~= padded(plain, 0xFC00).subrange(0, 0));
    }
}

/// Block `b` of `plain`, zero-padded.
fn full_block(plain: &[u8], b: usize) -> (block: Vec<u8>)
    requires
        b * 0xFC00 <= plain@.len(),
    ensures
        block@ == padded_block(plain@, b as int),
{
    assert(plain.len() == plain@.len());
    let start: usize = b * HASH_BLOCK_DATA;
    let left: usize = plain.len() - start;
    let take: usize = if left < HASH_BLOCK_DATA {
        left
    } else {
        HASH_BLOCK_DATA
    };
    let mut block: Vec<u8> = copy_range(plain, start, start + take);
    append_zeros(&mut block, HASH_BLOCK_DATA - take);
    assert(block@ =~= padded_block(plain@, b as int));
    block
}

/// Encrypt one group of at most [`HASH_GROUP_BLOCKS`] blocks to `writer`; the result is its
/// `H3` hash.
fn encode_group<W: ByteWriter>(key: &Key, index: u16, group: &[u8], writer: &mut W) -> (r: Result<
    Hash,
>)
    requires
        group@.len() <= GROUP_BYTES,
    ensures
        final(writer).dependable() == old(writer).dependable(),
        old(writer).dependable() ==> r is Ok,
        final(writer).faults() == after(old(writer).faults(), r is Ok),
        r matches Ok(h3) ==> {
            let blocks = padded_blocks(group@);
            &&& h3@ == h3_of(blocks)[0]
            &&& h3_of(blocks).len() == 1
            &&& final(writer).written() == old(writer).written() + hashed_data(
                key@,
                index,
                blocks,
                blocks.len() as int,
            )
            &&& forall|b: int|
                0 <= b < blocks.len() ==> #[trigger] reversible(key@, index, blocks, b)
        },
{
    let count: usize = if group.len() == 0 {
        1
    } else {
        (group.len() + (HASH_BLOCK_DATA - 1)) / HASH_BLOCK_DATA
    };
    let ghost blocks = padded_blocks(group@);
    assert(blocks.len() == count);
    let mut h0: Vec<Hash> = Vec::with_capacity(count);
    let mut i: usize = 0;
    while i < count
        invariant
            i <= count,
            count <= HASH_GROUP_BLOCKS,
            count == blocks.len(),
            blocks == padded_blocks(group@),
            (count - 1) * 0xFC00 <= group@.len(),
            h0@.len() == i,
            forall|j: int| 0 <= j < i ==> h0@[j]@ == sha1_of(#[trigger] blocks[j]),
        decreases count - i,
    {
        let block: Vec<u8> = full_block(group, i);
        h0.push(sha1(block.as_slice()));
        i += 1;
    }
    assert(hash_views(h0@) =~= leaf_hashes(blocks));
    let h1: Vec<Hash> = level_up(&h0);
    let h2: Vec<Hash> = level_up(&h1);
    let top: Vec<u8> = section(&h2, 0);
    let h3: Hash = sha1(top.as_slice());
    assert(h3_of(blocks).len() == 1);
    let iv: [u8; 16] = content_iv(index);
    let ghost start = writer.written();
    let mut b: usize = 0;
    assert(start + hashed_data(key@, index, blocks, 0) =~= start);
    while b < count
        invariant
            b <= count,
            count <= HASH_GROUP_BLOCKS,
            count == blocks.len(),
            blocks == padded_blocks(group@),
            (count - 1) * 0xFC00 <= group@.len(),
            h0@.len() == count,
            hash_views(h0@) == leaf_hashes(blocks),
            hash_views(h1@) == h1_of(blocks),
            hash_views(h2@) == h2_of(blocks),
            iv@ == content_iv_of(index),
            start == old(writer).written(),
            writer.dependable() == old(writer).dependable(),
            writer.faults() == old(writer).faults(),
            writer.written() == start + hashed_data(key@, index, blocks, b as int),
            forall|c: int| 0 <= c < b ==> #[trigger] reversible(key@, index, blocks, c),
        decreases count - b,
    {
        let mut header: Vec<u8> = section(&h0, b / 16 * 16);
        let run1: Vec<u8> = section(&h1, b / 256 * 16);
        let run2: Vec<u8> = section(&h2, 0);
        append_bytes(&mut header, run1.as_slice());
        append_bytes(&mut header, run2.as_slice());
        append_zeros(&mut header, 0x40);
        assert(header@ == header_of(blocks, b as int));
        let second: u8 = header[1] ^ ((index % 0x100) as u8);
        header.set(1, second);
        let header_ok = encrypt(key, &iv, header.as_mut_slice());
        assert(header_ok is Ok);

        let mut data_iv: [u8; 16] = [0u8; 16];
        let mut j: usize = 0;
        while j < 16
            invariant
                j <= 16,
                b < h0@.len(),
                forall|t: int| 0 <= t < j ==> data_iv@[t] == h0@[b as int]@[t],
            decreases 16 - j,
        {
            data_iv[j] = h0[b][j];
            j += 1;
        }
        assert(hash_views(h0@)[b as int] == h0@[b as int]@);
        assert(data_iv@ =~= data_iv_of(blocks, b as int));
        let mut data: Vec<u8> = full_block(group, b);
        let data_ok = encrypt(key, &data_iv, data.as_mut_slice());
        assert(data_ok is Ok);
        assert(reversible(key@, index, blocks, b as int));

        let ghost before = writer.written();
        match writer.write_all(header.as_slice()) {
            Ok(_) => {},
            Err(e) => return Err(e),
        }
        match writer.write_all(data.as_slice()) {
            Ok(_) => {},
            Err(e) => return Err(e),
        }
        b += 1;
        assert(writer.written() =~= start + hashed_data(key@, index, blocks, b as int));
    }
    Ok(h3)
}

/// Encrypt a hashed content (`0x2003`) from `reader` to `writer`, one `H3` group at a time, so
/// that no more than a group is held in memory. The output is that of the whole plaintext
/// encoded at once, and decoding it gives the plaintext back, padded to whole blocks.
#[verifier::rlimit(50)]
pub fn encode_hashed_to_writer<R: ByteReader, W: ByteWriter>(
    key: &Key,
    index: u16,
    reader: &mut R,
    writer: &mut W,
) -> (r: Result<HashedSummary>)
    requires
        old(reader).rest().len() <= 0x7FFF_FFFF_FFFF_FFFF,
    ensures
        final(writer).dependable() == old(writer).dependable(),
        old(reader).dependable() && old(writer).dependable() ==> r is Ok,
        r is Ok <==> final(reader).faults() == old(reader).faults() && final(writer).faults()
            == old(writer).faults(),
        r matches Ok(summary) ==> {
            let plain = old(reader).rest();
            let blocks = padded_blocks(plain);
            let data = hashed_data(key@, index, blocks, blocks.len() as int);
            &&& final(writer).written() == old(writer).written() + data
            &&& summary.h3@ == h3_file(blocks)
            &&& summary.h3@.len() == 20 * h3_of(blocks).len()
            &&& h3_of(blocks).len() == (blocks.len() + 4095) / 4096
            &&& summary.tmd_hash@ == sha1_of(h3_file(blocks))
            &&& summary.size == blocks.len() * 0x10000
            &&& data.len() == summary.size
            &&& forall|b: int|
                0 <= b < blocks.len() ==> #[trigger] reversible(key@, index, blocks, b)
            &&& recovered_data(key@, index, data, blocks.len() as int) == padded(plain, 0xFC00)
        },
{
    let ghost plain = reader.rest();
    let ghost blocks = padded_blocks(plain);
    let ghost start = writer.written();
    let mut h3: Vec<u8> = Vec::new();
    let mut size: u64 = 0;
    let ghost mut k: int = 0;
    assert(plain.subrange(0, plain.len() as int) =~= plain);
    assert(start + hashed_data(key@, index, blocks, 0) =~= start);
    loop
        invariant_except_break
            0 <= k,
            k * 0xFC0_0000 <= plain.len(),
            reader.rest() == plain.subrange(k * 0xFC0_0000, plain.len() as int),
            size == k * 4096 * 0x10000,
            k * 4096 <= blocks.len(),
            k > 0 && k * 0xFC0_0000 == plain.len() ==> k * 4096 == blocks.len() && k == h3_of(
                blocks,
            ).len(),
            h3@ == joined(h3_of(blocks), k),
            h3@.len() == 20 * k,
            writer.written() == start + hashed_data(key@, index, blocks, k * 4096),
        invariant
            plain == old(reader).rest(),
            plain.len() <= 0x7FFF_FFFF_FFFF_FFFF,
            start == old(writer).written(),
            blocks == padded_blocks(plain),
            reader.dependable() == old(reader).dependable(),
            reader.faults() == old(reader).faults(),
            writer.dependable() == old(writer).dependable(),
            writer.faults() == old(writer).faults(),
            forall|c: int|
                0 <= c < k * 4096 && c < blocks.len() ==> #[trigger] reversible(
                    key@,
                    index,
                    blocks,
                    c,
                ),
        ensures
            blocks.len() <= k * 4096,
            k == h3_of(blocks).len(),
            h3@.len() == 20 * k,
            h3@ == h3_file(blocks),
            size == blocks.len() * 0x10000,
            writer.written() == start + hashed_data(key@, index, blocks, blocks.len() as int),
        decreases plain.len() - k * 0xFC0_0000,
    {
        let group: Vec<u8> = match read_up_to(reader, GROUP_BYTES) {
            Ok(group) => group,
            Err(e) => return Err(e),
        };
        let filled: usize = group.len();
        if filled == 0 && size > 0 {
            assert(k * 0xFC0_0000 == plain.len());
            break;
        }
        let ghost lo = k * 4096;
        let ghost hi = lo + block_count(filled as int);
        proof {
            lemma_next_group(plain, k, group@, reader.rest());
            lemma_group_blocks(plain, k);
            lemma_group(blocks, lo, hi);
            lemma_hashed_data_group(key@, index, blocks, lo, hi, hi - lo);
        }
        let hash: Hash = match encode_group(key, index, group.as_slice(), writer) {
            Ok(hash) => hash,
            Err(e) => return Err(e),
        };
        let ghost sub = blocks.subrange(lo, hi);
        append_bytes(&mut h3, hash.as_slice());
        let count: usize = if filled == 0 {
            1
        } else {
            (filled + (HASH_BLOCK_DATA - 1)) / HASH_BLOCK_DATA
        };
        size = size + count as u64 * 0x10000;
        proof {
            lemma_group_reversible(key@, index, blocks, lo, hi);
            assert(writer.written() =~= start + hashed_data(key@, index, blocks, hi));
            k = k + 1;
            assert(h3@ == joined(h3_of(blocks), k));
        }
        if filled < GROUP_BYTES {
            break;
        }
    }
    let tmd_hash: Hash = sha1(h3.as_slice());
    proof {
        lemma_recovered(key@, index, blocks, blocks.len() as int);
        lemma_hashed_data_at(key@, index, blocks, blocks.len() as int, 0);
        lemma_joined_blocks(plain, blocks.len() as int);
        assert(padded(plain, 0xFC00).subrange(0, (blocks.len() * 0xFC00) as int) =~= padded(plain, 0xFC00));
    }
    Ok(HashedSummary { h3, tmd_hash, size })
}

/// Whether `r` is what a plaintext is encoded to as a hashed content.
pub open spec fn hashed_encoded(
    key: Seq<u8>,
    index: u16,
    plain: Seq<u8>,
    r: EncodedContent,
) -> bool {
    let blocks = padded_blocks(plain);
    &&& r.data@ == hashed_data(key, index, blocks, blocks.len() as int)
    &&& r.h3 matches Some(h3) && h3@ == h3_file(blocks) && h3@.len() == 20 * ((blocks.len() + 4095)
        / 4096)
    &&& r.tmd_hash@ == sha1_of(h3_file(blocks))
    &&& r.size == blocks.len() * 0x10000
    &&& r.size == r.data@.len()
    &&& forall|b: int| 0 <= b < blocks.len() ==> #[trigger] reversible(key, index, blocks, b)
}

/// Encrypt a hashed content (`0x2003`) in memory.
pub fn encode_hashed(key: &Key, index: u16, plaintext: &[u8]) -> (r: EncodedContent)
    requires
        plaintext@.len() <= 0x7FFF_FFFF_FFFF_FFFF,
    ensures
        hashed_encoded(key@, index, plaintext@, r),
{
    let mut reader = SliceReader::new(plaintext);
    let mut writer = MemoryWriter::new();
    match encode_hashed_to_writer(key, index, &mut reader, &mut writer) {
        Ok(summary) => {
            let ghost blocks = padded_blocks(plaintext@);
            assert(writer.data@ =~= hashed_data(key@, index, blocks, blocks.len() as int));
            EncodedContent {
                data: writer.data,
                h3: Some(summary.h3),
                tmd_hash: summary.tmd_hash,
                size: summary.size,
            }
        },
        Err(_) => vstd::pervasive::unreached(),
    }
}

/// A plaintext padded with zeros to whole sectors, at least one.
#[verifier::spinoff_prover]
fn padded_copy(plaintext: &[u8]) -> (buf: Vec<u8>)
    requires
        plaintext@.len() + 0x8000 <= usize::MAX,
    ensures
        buf@ == padded(plaintext@, 0x8000),
        buf@.len() % 16 == 0,
{
    let mut buf: Vec<u8> = copy_range(plaintext, 0, plaintext.len());
    assert(buf@ =~= plaintext@);
    let wanted: u64 = if buf.len() == 0 {
        1
    } else {
        buf.len() as u64
    };
    proof {
        lemma_rounded_up(wanted as int, 0x8000);
    }
    let len: u64 = align_up(wanted, CONTENT_PADDING as u64);
    let gap: usize = (len - buf.len() as u64) as usize;
    append_zeros(&mut buf, gap);
    assert(buf@ =~= padded(plaintext@, 0x8000));
    assert(buf@.len() == len);
    assert(len % 16 == 0) by {
        assert(len % 0x8000 == 0);
    }
    buf
}

/// Whether `r` is what a plaintext is encoded to as a non-hashed content.
pub open spec fn nonhashed_encoded(
    key: Seq<u8>,
    index: u16,
    plain: Seq<u8>,
    r: EncodedContent,
) -> bool {
    let whole = padded(plain, 0x8000);
    &&& r.data@ == cbc_encrypted(key, content_iv_of(index), whole)
    &&& r.h3 is None
    &&& r.tmd_hash@ == sha1_of(whole)
    &&& r.size == whole.len()
    &&& r.size == r.data@.len()
    &&& cbc_decrypted(key, content_iv_of(index), r.data@) == whole
}

/// Encrypt a non-hashed content (`0x2001`). Decrypting the result gives the padded plaintext.
pub fn encode_nonhashed(key: &Key, index: u16, plaintext: &[u8]) -> (r: EncodedContent)
    requires
        plaintext@.len() + 0x8000 <= usize::MAX,
    ensures
        nonhashed_encoded(key@, index, plaintext@, r),
{
    let mut buf: Vec<u8> = padded_copy(plaintext);
    let tmd_hash: Hash = sha1(buf.as_slice());
    let iv: [u8; 16] = content_iv(index);
    let done = encrypt(key, &iv, buf.as_mut_slice());
    assert(done is Ok);
    EncodedContent { size: buf.len() as u64, data: buf, h3: None, tmd_hash }
}

/// Whether `r` is what decoding a non-hashed content gives.
pub open spec fn nonhashed_decoded(
    key: Seq<u8>,
    index: u16,
    cipher: Seq<u8>,
    r: Result<Vec<u8>>,
) -> bool {
    match r {
        Ok(plain) => {
            &&& cipher.len() % 16 == 0
            &&& plain@.len() == cipher.len()
            &&& cipher.len() == 0 || plain@ == cbc_decrypted(key, content_iv_of(index), cipher)
        },
        Err(e) => cipher.len() % 16 != 0 && e == Error::UnsupportedDisc(
            DiscFault::RaggedContent(cipher.len() as usize),
        ),
    }
}

/// Decrypt a non-hashed content to its padded plaintext. A ciphertext that is no multiple of
/// the AES block is refused.
pub fn decode_nonhashed(key: &Key, index: u16, cipher: &[u8]) -> (r: Result<Vec<u8>>)
    ensures
        nonhashed_decoded(key@, index, cipher@, r),
{
    let mut buf: Vec<u8> = copy_range(cipher, 0, cipher.len());
    assert(buf@ =~= cipher@);
    if buf.len() > 0 {
        let iv: [u8; 16] = content_iv(index);
        match decrypt(key, &iv, buf.as_mut_slice()) {
            Ok(_) => {},
            Err(len) => return Err(Error::UnsupportedDisc(DiscFault::RaggedContent(len))),
        }
    }
    Ok(buf)
}

/// Whether `r` is what decoding a hashed content gives.
pub open spec fn hashed_decoded(
    key: Seq<u8>,
    index: u16,
    cipher: Seq<u8>,
    r: Result<Vec<u8>>,
) -> bool {
    match r {
        Ok(plain) => {
            &&& cipher.len() % 0x10000 == 0
            &&& plain@.len() == cipher.len() / 0x10000 * 0xFC00
            &&& plain@ == recovered_data(key, index, cipher, cipher.len() as int / 0x10000)
        },
        Err(e) => cipher.len() % 0x10000 != 0 && e == Error::UnsupportedDisc(
            DiscFault::RaggedHashedContent(cipher.len() as usize),
        ),
    }
}

/// Decrypt a hashed content to its data blocks, the hash headers stripped. A ciphertext that is
/// no multiple of the hashed block is refused.
pub fn decode_hashed(key: &Key, index: u16, cipher: &[u8]) -> (r: Result<Vec<u8>>)
    ensures
        hashed_decoded(key@, index, cipher@, r),
{
    if cipher.len() % HASH_BLOCK_TOTAL != 0 {
        return Err(Error::UnsupportedDisc(DiscFault::RaggedHashedContent(cipher.len())));
    }
    let count: usize = cipher.len() / HASH_BLOCK_TOTAL;
    let iv: [u8; 16] = content_iv(index);
    let mut out: Vec<u8> = Vec::new();
    let mut b: usize = 0;
    while b < count
        invariant
            b <= count,
            count * 0x10000 == cipher@.len(),
            iv@ == content_iv_of(index),
            out@ == recovered_data(key@, index, cipher@, b as int),
            out@.len() == b * 0xFC00,
        decreases count - b,
    {
        assert(cipher.len() == cipher@.len());
        let start: usize = b * HASH_BLOCK_TOTAL;
        let mut header: Vec<u8> = copy_range(cipher, start, start + HASH_HEADER);
        let header_ok = decrypt(key, &iv, header.as_mut_slice());
        assert(header_ok is Ok);
        let second: u8 = header[1] ^ ((index % 0x100) as u8);
        header.set(1, second);
        assert(header@ =~= recovered_header(key@, index, cipher@, b as int));
        let at: usize = b % 16 * HASH_LEN;
        let mut data_iv: [u8; 16] = [0u8; 16];
        let mut j: usize = 0;
        while j < 16
            invariant
                j <= 16,
                at <= 300,
                header@.len() == 0x400,
                forall|t: int| 0 <= t < j ==> data_iv@[t] == header@[at + t],
            decreases 16 - j,
        {
            data_iv[j] = header[at + j];
            j += 1;
        }
        assert(data_iv@ =~= header@.subrange(at as int, at + 16));
        let mut data: Vec<u8> = copy_range(cipher, start + HASH_HEADER, start + HASH_BLOCK_TOTAL);
        let data_ok = decrypt(key, &data_iv, data.as_mut_slice());
        assert(data_ok is Ok);
        append_bytes(&mut out, data.as_slice());
        b += 1;
    }
    Ok(out)
}

/// The TMD hash of a decoded non-hashed content: the hash of its padded plaintext.
pub fn nonhashed_tmd_hash(padded_plaintext: &[u8]) -> (r: Hash)
    ensures
        r@ == sha1_of(padded_plaintext@),
{
    sha1(padded_plaintext)
}

/// The `.h3` over `plaintext` cut into blocks, one group at a time.
fn compute_h3(plaintext: &[u8]) -> (h3: Vec<u8>)
    ensures
        h3@ == h3_file(raw_blocks(plaintext@)),
{
    let total: usize = plaintext.len() / HASH_BLOCK_DATA + if plaintext.len() % HASH_BLOCK_DATA == 0 {
        0
    } else {
        1
    };
    let ghost blocks = raw_blocks(plaintext@);
    assert(blocks.len() == total);
    let mut h3: Vec<u8> = Vec::new();
    let mut lo: usize = 0;
    let ghost mut k: int = 0;
    while lo < total
        invariant
            lo <= total,
            blocks == raw_blocks(plaintext@),
            blocks.len() == total,
            total == (plaintext@.len() + 0xFBFF) / 0xFC00,
            lo == total || lo == k * 4096,
            0 <= k,
            lo == total ==> k == h3_of(blocks).len(),
            h3@ == joined(h3_of(blocks), k),
        decreases total - lo,
    {
        let hi: usize = if total - lo < HASH_GROUP_BLOCKS {
            total
        } else {
            lo + HASH_GROUP_BLOCKS
        };
        let ghost sub = blocks.subrange(lo as int, hi as int);
        let mut h0: Vec<Hash> = Vec::with_capacity(hi - lo);
        let mut b: usize = lo;
        while b < hi
            invariant
                lo <= b <= hi <= total,
                blocks == raw_blocks(plaintext@),
                blocks.len() == total,
                total == (plaintext@.len() + 0xFBFF) / 0xFC00,
                h0@.len() == b - lo,
                forall|j: int| 0 <= j < b - lo ==> h0@[j]@ == sha1_of(#[trigger] blocks[lo + j]),
            decreases hi - b,
        {
            assert(plaintext.len() == plaintext@.len());
            let start: usize = b * HASH_BLOCK_DATA;
            let left: usize = plaintext.len() - start;
            let end: usize = if left <= HASH_BLOCK_DATA {
                plaintext.len()
            } else {
                start + HASH_BLOCK_DATA
            };
            let block = vstd::slice::slice_subrange(plaintext, start, end);
            assert(block@ == blocks[b as int]);
            let hash: Hash = sha1(block);
            h0.push(hash);
            assert(blocks[lo + (b - lo)] == blocks[b as int]);
            b += 1;
        }
        assert(hash_views(h0@) =~= leaf_hashes(sub)) by {
            assert forall|j: int| 0 <= j < hi - lo implies h0@[j]@ == sha1_of(#[trigger] sub[j]) by {
                assert(sub[j] == blocks[lo + j]);
            }
        }
        let h1: Vec<Hash> = level_up(&h0);
        let h2: Vec<Hash> = level_up(&h1);
        let top: Vec<u8> = section(&h2, 0);
        let hash: Hash = sha1(top.as_slice());
        append_bytes(&mut h3, hash.as_slice());
        proof {
            lemma_group(blocks, lo as int, hi as int);
            assert(hash@ == h3_of(sub)[0]);
            k = k + 1;
        }
        lo = hi;
    }
    h3
}

/// The TMD hash of a decoded hashed content: the hash of the `.h3` over its blocks.
pub fn hashed_tmd_hash(plaintext: &[u8]) -> (r: Hash)
    ensures
        r@ == sha1_of(h3_file(raw_blocks(plaintext@))),
{
    let h3: Vec<u8> = compute_h3(plaintext);
    sha1(h3.as_slice())
}

/// Decoding a hashed content yields data whose `.h3` is the one the encoder wrote: the padded
/// plaintext, cut into blocks again, has the same hash tree.
pub proof fn law_decoded_content_keeps_its_h3(plain: Seq<u8>)
    ensures
        h3_file(raw_blocks(padded(plain, 0xFC00))) == h3_file(padded_blocks(plain)),
{
    let whole = padded(plain, 0xFC00);
    lemma_joined_blocks(plain, 0);
    assert(raw_blocks(whole).len() == padded_blocks(plain).len());
    assert forall|b: int| 0 <= b < padded_blocks(plain).len() implies raw_blocks(whole)[b]
        == padded_blocks(plain)[b] by {
        assert(raw_blocks(whole)[b] =~= padded_block(plain, b));
    }
    assert(raw_blocks(whole) =~= padded_blocks(plain));
}

/// Decoding what a plaintext was encoded to as a hashed content gives the plaintext back, padded
/// to whole blocks, and the hash over it is the one that the encoder stated.
pub proof fn law_hashed_content_comes_back(
    key: Seq<u8>,
    index: u16,
    plain: Seq<u8>,
    encoded: EncodedContent,
    decoded: Result<Vec<u8>>,
)
    requires
        hashed_encoded(key, index, plain, encoded),
        hashed_decoded(key, index, encoded.data@, decoded),
    ensures
        decoded is Ok,
        decoded->Ok_0@ == padded(plain, 0xFC00),
        decoded->Ok_0@.len() == encoded.data@.len() / 0x10000 * 0xFC00,
        sha1_of(h3_file(raw_blocks(decoded->Ok_0@))) == encoded.tmd_hash@,
{
    let blocks = padded_blocks(plain);
    let n = blocks.len() as int;
    assert(encoded.data@.len() as int / 0x10000 == n);
    lemma_recovered(key, index, blocks, n);
    lemma_joined_blocks(plain, n);
    assert(padded(plain, 0xFC00).subrange(0, n * 0xFC00) =~= padded(plain, 0xFC00));
    law_decoded_content_keeps_its_h3(plain);
}

/// Decoding what a plaintext was encoded to as a non-hashed content gives the plaintext back,
/// padded to whole sectors, and the hash over it is the one that the encoder stated.
pub proof fn law_nonhashed_content_comes_back(
    key: Seq<u8>,
    index: u16,
    plain: Seq<u8>,
    encoded: EncodedContent,
    decoded: Result<Vec<u8>>,
)
    requires
        nonhashed_encoded(key, index, plain, encoded),
        nonhashed_decoded(key, index, encoded.data@, decoded),
    ensures
        decoded is Ok,
        decoded->Ok_0@ == padded(plain, 0x8000),
        sha1_of(decoded->Ok_0@) == encoded.tmd_hash@,
{
    lemma_rounded_up(
        if plain.len() == 0 {
            1
        } else {
            plain.len() as int
        },
        0x8000,
    );
    assert(padded(plain, 0x8000).len() as int % 0x8000 == 0);
    assert(encoded.data@.len() as int % 16 == 0);
}

/// A non-hashed ciphertext is refused exactly where it is no multiple of the AES block; otherwise
/// decoding keeps its length.
pub proof fn law_nonhashed_decoding_keeps_the_length(
    key: Seq<u8>,
    index: u16,
    cipher: Seq<u8>,
    decoded: Result<Vec<u8>>,
)
    requires
        nonhashed_decoded(key, index, cipher, decoded),
    ensures
        decoded is Err <==> cipher.len() % 16 != 0,
        decoded matches Err(e) ==> e is UnsupportedDisc,
        decoded matches Ok(plain) ==> plain@.len() == cipher.len(),
{
}

/// A hashed ciphertext is refused exactly where it is no multiple of the hashed block; otherwise
/// decoding strips the header of every block.
pub proof fn law_hashed_decoding_strips_the_headers(
    key: Seq<u8>,
    index: u16,
    cipher: Seq<u8>,
    decoded: Result<Vec<u8>>,
)
    requires
        hashed_decoded(key, index, cipher, decoded),
    ensures
        decoded is Err <==> cipher.len() % 0x10000 != 0,
        decoded matches Err(e) ==> e is UnsupportedDisc,
        decoded matches Ok(plain) ==> plain@.len() == cipher.len() / 0x10000 * 0xFC00,
{
}

/// The IV of a content is 16 bytes long: its whole index with the high byte first, and fourteen
/// zeros. No two contents share one.
pub proof fn law_content_iv_spells_the_index(index: u16, other: u16)
    ensures
        content_iv_of(index).len() == 16,
        content_iv_of(index)[0] * 0x100 + content_iv_of(index)[1] == index,
        forall|i: int| 2 <= i < 16 ==> #[trigger] content_iv_of(index)[i] == 0,
        index != other ==> content_iv_of(index) != content_iv_of(other),
{
    lemma_be16_bytes(index);
    lemma_be16_bytes(other);
    assert(content_iv_of(index)[0] == be16(index)[0] && content_iv_of(index)[1] == be16(index)[1]);
    assert(content_iv_of(other)[0] == be16(other)[0] && content_iv_of(other)[1] == be16(other)[1]);
}

/// Two bytes that spell a content's index and fourteen zeros are its IV.
proof fn lemma_content_iv_is_spelt(index: u16, iv: Seq<u8>)
    requires
        iv.len() == 16,
        iv[0] * 0x100 + iv[1] == index,
        forall|i: int| 2 <= i < 16 ==> #[trigger] iv[i] == 0,
    ensures
        iv == content_iv_of(index),
{
    law_content_iv_spells_the_index(index, index);
    assert(iv =~= content_iv_of(index));
}

/// Padding keeps the plaintext and adds zeros behind it up to the next whole unit, and no more; an
/// empty plaintext takes one unit.
pub proof fn law_padding_fills_up_the_last_unit(plain: Seq<u8>, unit: int)
    requires
        0 < unit,
    ensures
        padded(plain, unit).len() > 0,
        padded(plain, unit).len() as int % unit == 0,
        plain.len() > 0 ==> padded(plain, unit).len() < plain.len() + unit,
        plain.len() == 0 ==> padded(plain, unit).len() == unit,
        padded(plain, unit).len() >= plain.len(),
        padded(plain, unit).subrange(0, plain.len() as int) == plain,
        forall|i: int|
            plain.len() <= i < padded(plain, unit).len() ==> #[trigger] padded(plain, unit)[i] == 0,
{
    lemma_rounded_up(plain.len() as int, unit);
    assert(unit % unit == 0) by (nonlinear_arith)
        requires
            0 < unit,
    ;
    assert(padded(plain, unit).subrange(0, plain.len() as int) =~= plain);
}

/// The blocks of a plaintext hold it in order, 0xFC00 bytes each, with zeros behind; there are as
/// many as it takes, and one at least.
pub proof fn law_blocks_hold_the_plaintext(plain: Seq<u8>, b: int, i: int)
    requires
        0 <= b < padded_blocks(plain).len(),
        0 <= i < 64512,
    ensures
        padded_blocks(plain).len() * 64512 >= plain.len(),
        plain.len() > 0 ==> (padded_blocks(plain).len() - 1) * 64512 < plain.len(),
        plain.len() == 0 ==> padded_blocks(plain).len() == 1,
        padded_blocks(plain)[b].len() == 64512,
        padded_blocks(plain)[b][i] == if b * 64512 + i < plain.len() {
            plain[b * 64512 + i]
        } else {
            0
        },
{
}

/// Masking a header changes its second byte alone, by the low byte of the content index, and
/// masking twice changes nothing.
pub proof fn law_masking_changes_one_byte(header: Seq<u8>, index: u16, i: int)
    requires
        header.len() > 1,
        0 <= i < header.len(),
    ensures
        masked(header, index).len() == header.len(),
        i != 1 ==> masked(header, index)[i] == header[i],
        masked(header, index)[1] == header[1] ^ ((index - index / 256 * 256) as u8),
        masked(masked(header, index), index) == header,
{
    let x = header[1];
    let y = (index % 0x100) as u8;
    assert(index - index / 256 * 256 == index % 0x100);
    assert((x ^ y) ^ y == x) by (bit_vector);
    assert(masked(masked(header, index), index) =~= header);
}

/// The header of a block, as a reader checks it. Its first sixteen hashes are those of the sixteen
/// blocks that the block is among. Its second sixteen are those of the first sixteen of the
/// headers of sixteen such runs, its third sixteen those of the second sixteen of the headers of
/// sixteen runs of runs. What the content does not reach is zero, and so is the end.
pub proof fn law_headers_hold_the_hash_tree(blocks: Seq<Seq<u8>>, b: int, j: int, x: int, z: int)
    requires
        0 <= b < blocks.len(),
        0 <= j < 16,
        0 <= x < 20,
        0x3C0 <= z < 0x400,
    ensures
        ({
            let h = header_of(blocks, b);
            let n = blocks.len();
            let near = b - b % 16 + j;
            let run = b - b % 256 + j * 16;
            let far = b - b % 4096 + j * 256;
            &&& h.len() == 0x400
            &&& h[20 * j + x] == if near < n {
                sha1_of(blocks[near])[x]
            } else {
                0
            }
            &&& h[320 + 20 * j + x] == if run < n {
                sha1_of(header_of(blocks, run).subrange(0, 320))[x]
            } else {
                0
            }
            &&& h[640 + 20 * j + x] == if far < n {
                sha1_of(header_of(blocks, far).subrange(320, 640))[x]
            } else {
                0
            }
            &&& h[z] == 0
        }),
{
    let h = header_of(blocks, b);
    let n = blocks.len() as int;
    let leaves = leaf_hashes(blocks);
    let near = b / 16 * 16 + j;
    let g1 = b / 256 * 16 + j;
    let g2 = b / 4096 * 16 + j;
    assert((20 * j + x) / 20 == j && (20 * j + x) % 20 == x);
    let s0 = section_of(leaves, b / 16 * 16);
    let s1 = section_of(h1_of(blocks), b / 256 * 16);
    let s2 = section_of(h2_of(blocks), b / 4096 * 16);
    assert(h[20 * j + x] == s0[20 * j + x]);
    assert(h[320 + 20 * j + x] == s1[20 * j + x]);
    assert(h[640 + 20 * j + x] == s2[20 * j + x]);
    assert(b - b % 16 + j == near);
    assert(b - b % 256 + j * 16 == g1 * 16);
    assert(b - b % 4096 + j * 256 == g2 * 256);
    lemma_header_sections(blocks, g1 * 16);
    lemma_header_sections(blocks, g2 * 256);
    assert(g1 * 16 / 16 * 16 == g1 * 16);
    assert(g2 * 256 / 256 * 16 == g2 * 16);
    assert(g1 < sixteenths(n) <==> g1 * 16 < n);
    assert(g2 < sixteenths(sixteenths(n)) <==> g2 * 256 < n);
}

proof fn lemma_header_sections(blocks: Seq<Seq<u8>>, b: int)
    ensures
        header_of(blocks, b).subrange(0, 320) == section_of(leaf_hashes(blocks), b / 16 * 16),
        header_of(blocks, b).subrange(320, 640) == section_of(h1_of(blocks), b / 256 * 16),
        header_of(blocks, b).subrange(640, 960) == section_of(h2_of(blocks), b / 4096 * 16),
{
    let h = header_of(blocks, b);
    assert(h.subrange(0, 320) =~= section_of(leaf_hashes(blocks), b / 16 * 16));
    assert(h.subrange(320, 640) =~= section_of(h1_of(blocks), b / 256 * 16));
    assert(h.subrange(640, 960) =~= section_of(h2_of(blocks), b / 4096 * 16));
}

/// The `.h3` hashes are those of the third sixteen hashes of every header that begins a run of
/// 4096 blocks, and there is one for each such run.
pub proof fn law_h3_hashes_the_headers(blocks: Seq<Seq<u8>>, m: int)
    requires
        0 <= m,
        m * 4096 < blocks.len(),
    ensures
        m < h3_of(blocks).len(),
        (h3_of(blocks).len() - 1) * 4096 < blocks.len() <= h3_of(blocks).len() * 4096,
        h3_of(blocks)[m] == sha1_of(header_of(blocks, m * 4096).subrange(640, 960)),
{
    lemma_header_sections(blocks, m * 4096);
    assert(m * 4096 / 4096 * 16 == m * 16);
}

/// The `.h3` file holds the hashes one after another.
pub proof fn law_h3_file_lists_the_hashes(parts: Seq<Seq<u8>>, n: int, m: int)
    requires
        0 <= n <= parts.len(),
        forall|k: int| 0 <= k < parts.len() ==> (#[trigger] parts[k]).len() == 20,
    ensures
        joined(parts, n).len() == n * 20,
        0 <= m < n ==> joined(parts, n).subrange(m * 20, m * 20 + 20) == parts[m],
    decreases n,
{
    if n > 0 {
        law_h3_file_lists_the_hashes(parts, n - 1, m);
        let all = joined(parts, n);
        let front = joined(parts, n - 1);
        assert(parts[n - 1].len() == 20);
        if 0 <= m < n - 1 {
            assert(all.subrange(m * 20, m * 20 + 20) =~= front.subrange(m * 20, m * 20 + 20));
        } else if m == n - 1 {
            assert(all.subrange(m * 20, m * 20 + 20) =~= parts[m]);
        }
    }
}

/// A hashed content byte for byte: every 0x10000 bytes hold a block, first its header, masked and
/// sealed with the IV that spells the content's index, then its data, sealed with the first
/// sixteen bytes of its own hash.
pub proof fn law_hashed_content_is_sealed(
    key: Seq<u8>,
    index: u16,
    blocks: Seq<Seq<u8>>,
    b: int,
    iv: Seq<u8>,
)
    requires
        0 <= b < blocks.len(),
        forall|c: int| 0 <= c < blocks.len() ==> #[trigger] reversible(key, index, blocks, c),
        iv.len() == 16,
        iv[0] * 0x100 + iv[1] == index,
        forall|i: int| 2 <= i < 16 ==> #[trigger] iv[i] == 0,
    ensures
        ({
            let all = hashed_data(key, index, blocks, blocks.len() as int);
            let header = header_of(blocks, b);
            let low = (index - index / 256 * 256) as u8;
            &&& all.len() == blocks.len() * 0x10000
            &&& all.subrange(b * 0x10000, b * 0x10000 + 0x400) == cbc_encrypted(
                key,
                iv,
                header.update(1, header[1] ^ low),
            )
            &&& all.subrange(b * 0x10000 + 0x400, b * 0x10000 + 0x10000) == cbc_encrypted(
                key,
                sha1_of(blocks[b]).subrange(0, 16),
                blocks[b],
            )
        }),
{
    lemma_content_iv_is_spelt(index, iv);
    lemma_hashed_data_at(key, index, blocks, blocks.len() as int, b);
    assert(index - index / 256 * 256 == index % 0x100);
    assert((b + 1) * 0x10000 == b * 0x10000 + 0x10000);
}

/// A non-hashed content is sealed as one run with the IV that spells its index, and its hash is
/// that of what was sealed.
pub proof fn law_nonhashed_content_is_sealed(
    key: Seq<u8>,
    index: u16,
    plain: Seq<u8>,
    r: EncodedContent,
    iv: Seq<u8>,
    whole: Seq<u8>,
)
    requires
        nonhashed_encoded(key, index, plain, r),
        iv.len() == 16,
        iv[0] * 0x100 + iv[1] == index,
        forall|i: int| 2 <= i < 16 ==> #[trigger] iv[i] == 0,
        whole.len() > 0,
        whole.len() % 0x8000 == 0,
        plain.len() <= whole.len(),
        plain.len() > 0 ==> whole.len() < plain.len() + 0x8000,
        plain.len() == 0 ==> whole.len() == 0x8000,
        whole.subrange(0, plain.len() as int) == plain,
        forall|i: int| plain.len() <= i < whole.len() ==> #[trigger] whole[i] == 0,
    ensures
        r.data@ == cbc_encrypted(key, iv, whole),
        cbc_decrypted(key, iv, r.data@) == whole,
        r.tmd_hash@ == sha1_of(whole),
        r.size == whole.len(),
        r.h3 is None,
{
    lemma_content_iv_is_spelt(index, iv);
    law_padding_fills_up_the_last_unit(plain, 0x8000);
    let own = padded(plain, 0x8000);
    assert(own.len() == whole.len());
    assert forall|i: int| 0 <= i < own.len() implies own[i] == whole[i] by {
        if i < plain.len() {
            assert(own.subrange(0, plain.len() as int)[i] == own[i]);
            assert(whole.subrange(0, plain.len() as int)[i] == whole[i]);
        }
    }
    assert(own =~= whole);
}

} // verus!
