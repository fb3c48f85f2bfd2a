//! Writing a whole package.

use vstd::prelude::*;

use crate::aes_cbc::{cbc_decrypted, Key};
use crate::digest::sha1_of;
use crate::error::{DiscFault, Error, Result};
use crate::io::{ByteWriter, MemoryWriter};
use crate::package::content::{
    content_views, layout_of, lemma_layout, lemma_total_len_update, plan, planned, table_of,
    total_len, tree_of, ContentView, Flat, PackagePlan, PlannedContent, TYPE_HASHED, WEIGHT_LIMIT,
};
use crate::package::content_crypto::{block_count, h3_file, padded, padded_blocks};
use crate::package::extract::{content_fault, extracts, ExtractedView, TitleView};
use crate::package::fst::{fst_bytes, fst_storable};
use crate::package::game_contents::held;
use crate::package::placement::{all_files, lemma_placed_is_staged};
use crate::package::plaintext::{all_found, assembled, files_fit, listed_files, FileSource};
use crate::package::round_trip::{
    build_items, build_stands, law_extraction_gives_back_the_build, law_tree_holds_the_build,
    law_written_content_decodes, lemma_plan_numbered, tidy, wanted,
};
use crate::package::staging::StagedBuild;
use crate::package::ticket::title_iv_of;
use crate::package::tmd::{parsed_record, records_parsed, states_records, tmd_bytes, ContentRecord};
use crate::package::{
    app_name, carried_key, content_cipher, content_name, content_plain, content_readable,
    content_writable, content_written, finish_package, h3_name, package_ticket, record_sizes,
    write_content, PackageParams, PackageStats, PackageTail, WrittenContent,
};
use crate::text::{hex_digit_of, hex_of};
use crate::util::lemma_rounded_up;

verus! {

/// Where the files of a package go.
pub trait PackageSink {
    /// A file that is being written.
    type Out: ByteWriter;

    /// The finished files, by name.
    open spec fn files(&self) -> Map<Seq<char>, Seq<u8>> {
        arbitrary()
    }

    /// Whether every file can be written.
    open spec fn dependable(&self) -> bool {
        arbitrary()
    }

    /// Start a file. One of that name may be lost.
    fn create(&mut self, name: &String) -> (r: Result<Self::Out>)
        ensures
            final(self).dependable() == old(self).dependable(),
            final(self).files().remove(name@) == old(self).files().remove(name@),
            match r {
                Ok(out) => out.written() == Seq::<u8>::empty() && (old(self).dependable()
                    ==> out.dependable()),
                Err(_) => !old(self).dependable(),
            },
    ;

    /// Finish a file that was started under this name.
    fn close(&mut self, name: &String, out: Self::Out) -> (r: Result<()>)
        ensures
            final(self).dependable() == old(self).dependable(),
            match r {
                Ok(_) => final(self).files() == old(self).files().insert(name@, out.written()),
                Err(_) => !old(self).dependable(),
            },
    ;
}

/// Collects the files of a package in memory.
pub struct MemorySink {
    /// Names and what stands under them; the last of a name counts.
    pub list: Vec<(String, Vec<u8>)>,
}

impl PackageSink for MemorySink {
    type Out = MemoryWriter;

    open spec fn files(&self) -> Map<Seq<char>, Seq<u8>> {
        listed_files(self.list@, self.list@.len() as int)
    }

    open spec fn dependable(&self) -> bool {
        true
    }

    fn create(&mut self, name: &String) -> (r: Result<MemoryWriter>) {
        Ok(MemoryWriter::new())
    }

    fn close(&mut self, name: &String, out: MemoryWriter) -> (r: Result<()>) {
        let ghost before = self.list@;
        self.list.push((name.clone(), out.data));
        proof {
            lemma_listed_prefix(before, self.list@, before.len() as int);
        }
        Ok(())
    }
}

proof fn lemma_listed_prefix(a: Seq<(String, Vec<u8>)>, b: Seq<(String, Vec<u8>)>, n: int)
    requires
        n <= a.len() <= b.len(),
        forall|i: int| 0 <= i < n ==> a[i] == b[i],
    ensures
        listed_files(a, n) == listed_files(b, n),
    decreases n,
{
    if n > 0 {
        lemma_listed_prefix(a, b, n - 1);
    }
}

/// A package that has been written, but for its ticket.
pub struct BuiltPackage {
    /// The records of its contents, as the TMD has them.
    pub records: Vec<ContentRecord>,
    /// What has been written in all.
    pub stats: PackageStats,
}

/// `files` with the first `n` contents of a plan written: the `.app` file of each, and the `.h3`
/// file of the hashed ones.
pub open spec fn contents_stored(
    files: Map<Seq<char>, Seq<u8>>,
    key: Seq<u8>,
    contents: Seq<ContentView>,
    fst: Seq<u8>,
    source: Map<Seq<char>, Seq<u8>>,
    n: int,
) -> Map<Seq<char>, Seq<u8>>
    decreases n,
{
    if n <= 0 {
        files
    } else {
        let c = contents[n - 1];
        let plain = content_plain(c, fst, source);
        let with_app = contents_stored(files, key, contents, fst, source, n - 1).insert(
            content_name(c.index, ".app"@),
            content_cipher(key, c.index, c.content_type, plain),
        );
        if c.content_type == TYPE_HASHED {
            with_app.insert(content_name(c.index, ".h3"@), h3_file(padded_blocks(plain)))
        } else {
            with_app
        }
    }
}

/// Whether the records are those of the contents.
pub open spec fn records_match(
    key: Seq<u8>,
    contents: Seq<ContentView>,
    fst: Seq<u8>,
    source: Map<Seq<char>, Seq<u8>>,
    records: Seq<ContentRecord>,
) -> bool {
    &&& records.len() <= contents.len()
    &&& forall|c: int|
        0 <= c < records.len() ==> record_matches(key, contents[c], fst, source, #[trigger] records[c])
}

/// Whether a record is that of a content, whose ciphertext decrypts to its padded plaintext.
pub open spec fn record_matches(
    key: Seq<u8>,
    c: ContentView,
    fst: Seq<u8>,
    source: Map<Seq<char>, Seq<u8>>,
    record: ContentRecord,
) -> bool {
    let plain = content_plain(c, fst, source);
    content_written(key, c, plain, content_cipher(key, c.index, c.content_type, plain), record)
}

/// Whether a non-hashed content can be held in memory, and its files have not outgrown it.
pub open spec fn holdable(c: ContentView, source: Map<Seq<char>, Seq<u8>>) -> bool {
    c.content_type != TYPE_HASHED ==> c.data_len + 0x8000 <= usize::MAX && files_fit(
        c.files,
        source,
        c.data_len as int,
    )
}

/// Whether a build and its table are not too heavy, and the table and each non-hashed content can
/// be held in memory.
pub open spec fn build_fits(build: StagedBuild, title_id: u64) -> bool {
    &&& build.total_weight() <= WEIGHT_LIMIT
    &&& tree_of(build) matches Ok(flat) ==> {
        let len = fst_bytes(table_of(flat, title_id)).len();
        &&& len <= WEIGHT_LIMIT
        &&& len + 0x8000 <= usize::MAX
        &&& forall|c: int|
            0 < c < flat.contents.len() && (#[trigger] flat.contents[c]).content_type != TYPE_HASHED
                ==> flat.contents[c].data_len + 0x8000 <= usize::MAX
    }
}

/// Whether a build can be packed on this machine, as far as the build itself decides: see
/// [`law_staged_files_can_be_packed`].
pub fn can_be_packed(build: &StagedBuild, title_id: u64) -> (r: bool)
    ensures
        r == build_fits(*build, title_id),
{
    if !build.fits() {
        return false;
    }
    let p: PackagePlan = match plan(build, title_id) {
        Ok(p) => p,
        Err(_) => return true,
    };
    let ghost flat = tree_of(*build)->Ok_0;
    let room: usize = usize::MAX - 0x8000;
    if p.fst.len() > room || p.fst.len() as u64 > WEIGHT_LIMIT {
        return false;
    }
    let ghost contents = planned(flat, title_id);
    proof {
        lemma_layout(*build);
        law_tree_holds_the_build(*build);
        assert(content_views(p.contents@).len() == p.contents@.len());
        assert forall|c: int| 0 < c < contents.len() implies #[trigger] flat.contents[c]
            == p.contents@[c]@ by {
            assert(content_views(p.contents@)[c] == contents[c]);
        }
    }
    small_enough(&p.contents, room, Ghost(flat.contents))
}

/// Whether no non-hashed content but the first is longer than `room`.
fn small_enough(
    contents: &Vec<PlannedContent>,
    room: usize,
    Ghost(views): Ghost<Seq<ContentView>>,
) -> (r: bool)
    requires
        views.len() == contents@.len(),
        forall|c: int| 0 < c < views.len() ==> #[trigger] views[c] == contents@[c]@,
    ensures
        r == forall|c: int|
            0 < c < views.len() && (#[trigger] views[c]).content_type != TYPE_HASHED
                ==> views[c].data_len <= room,
{
    let mut i: usize = 1;
    while i < contents.len()
        invariant
            1 <= i,
            views.len() == contents@.len(),
            forall|c: int| 0 < c < views.len() ==> #[trigger] views[c] == contents@[c]@,
            forall|c: int|
                0 < c < i && c < views.len() && (#[trigger] views[c]).content_type != TYPE_HASHED
                    ==> views[c].data_len <= room,
        decreases contents@.len() - i,
    {
        assert(views[i as int] == contents@[i as int]@);
        if contents[i].content_type != TYPE_HASHED && contents[i].data_len > room as u64 {
            return false;
        }
        i += 1;
    }
    true
}

/// Whether a build can be packed on this machine: neither it nor its table is too heavy, and the
/// table and each non-hashed content can be held in memory.
pub open spec fn build_holdable(
    build: StagedBuild,
    title_id: u64,
    source: Map<Seq<char>, Seq<u8>>,
) -> bool {
    &&& build.total_weight() <= WEIGHT_LIMIT
    &&& tree_of(build) matches Ok(flat) ==> {
        let len = fst_bytes(table_of(flat, title_id)).len();
        &&& len <= WEIGHT_LIMIT
        &&& len + 0x8000 <= usize::MAX
        &&& forall|c: int|
            0 < c < flat.contents.len() ==> holdable(#[trigger] flat.contents[c], source)
    }
}

proof fn lemma_assembled_fits(c: ContentView, source: Map<Seq<char>, Seq<u8>>, n: int)
    requires
        files_fit(c.files, source, c.data_len as int),
        all_found(c.files, source),
        0 <= n <= c.files.len(),
    ensures
        assembled(c.files, source, c.data_len as int, n).len() == c.data_len,
    decreases n,
{
    if n > 0 {
        lemma_assembled_fits(c, source, n - 1);
        assert(source.contains_key(c.files[n - 1].path));
    }
}

/// How long a content's file can be: not much longer than the content, or than the table where
/// the content has the table's index.
pub open spec fn size_limit(c: ContentView) -> int {
    if c.index == 0 {
        2 * c.data_len + 0x2_0000 + WEIGHT_LIMIT
    } else {
        2 * c.data_len + 0x2_0000
    }
}

proof fn lemma_size(
    key: Seq<u8>,
    c: ContentView,
    fst: Seq<u8>,
    source: Map<Seq<char>, Seq<u8>>,
    record: ContentRecord,
)
    requires
        record_matches(key, c, fst, source, record),
        content_writable(c, fst, source),
        c.content_type != TYPE_HASHED ==> content_readable(c, source),
        fst.len() <= WEIGHT_LIMIT,
    ensures
        record.size <= size_limit(c),
{
    let plain = content_plain(c, fst, source);
    if c.content_type == TYPE_HASHED {
        assert(plain.len() == c.data_len);
        assert(padded_blocks(plain).len() == block_count(c.data_len as int));
    } else {
        if c.index != 0 {
            lemma_assembled_fits(c, source, c.files.len() as int);
        }
        lemma_rounded_up(plain.len() as int, 0x8000);
        assert(padded(plain, 0x8000).len() <= plain.len() + 0x8000);
    }
}

proof fn lemma_sizes(contents: Seq<ContentView>, records: Seq<ContentRecord>, n: int)
    requires
        0 <= n <= records.len() <= contents.len(),
        forall|c: int| 0 <= c < contents.len() ==> (#[trigger] contents[c]).index == c % 0x1_0000,
        forall|c: int| 0 <= c < n ==> (#[trigger] records[c]).size <= size_limit(contents[c]),
    ensures
        0 <= record_sizes(records, n) <= 2 * total_len(contents, n) + n * 0x2_0000 + (n + 0xFFFF)
            / 0x1_0000 * WEIGHT_LIMIT,
    decreases n,
{
    if n > 0 {
        lemma_sizes(contents, records, n - 1);
        assert(records[n - 1].size <= size_limit(contents[n - 1]));
        assert(contents[n - 1].index == (n - 1) % 0x1_0000);
    }
}

/// What the plan of a build that can be packed looks like.
proof fn lemma_planned(build: StagedBuild, title_id: u64, source: Map<Seq<char>, Seq<u8>>)
    requires
        build_holdable(build, title_id, source),
        tree_of(build) is Ok,
    ensures
        ({
            let flat = tree_of(build)->Ok_0;
            let contents = planned(flat, title_id);
            let fst = fst_bytes(table_of(flat, title_id));
            &&& contents.len() * 0x8000 <= WEIGHT_LIMIT + 8 * 0x8000
            &&& total_len(contents, contents.len() as int) <= 2 * WEIGHT_LIMIT + 0x2_0000
            &&& forall|c: int|
                0 <= c < contents.len() ==> (#[trigger] contents[c]).index == c % 0x1_0000
            &&& forall|c: int|
                0 <= c < contents.len() ==> content_writable(#[trigger] contents[c], fst, source)
        }),
{
    let flat = tree_of(build)->Ok_0;
    let contents = planned(flat, title_id);
    let fst = fst_bytes(table_of(flat, title_id));
    let layout = layout_of(build);
    let n = contents.len() as int;
    law_tree_holds_the_build(build);
    lemma_layout(build);
    assert(layout.contents[0].index == flat.contents[0].index);
    assert forall|c: int| 0 <= c < n implies (#[trigger] contents[c]).index == c % 0x1_0000 by {
        assert(layout.contents[c].index == flat.contents[c].index);
        assert(layout.contents[c].index == c % 0x1_0000);
    }
    lemma_total_len_update(flat.contents, n, 0, contents[0]);
    assert forall|c: int| 0 <= c < n implies content_writable(
        #[trigger] contents[c],
        fst,
        source,
    ) by {
        assert(contents[c].index == c % 0x1_0000);
        if c > 0 {
            assert(contents[c] == flat.contents[c]);
            assert(holdable(flat.contents[c], source));
            assert(tidy(flat.contents[c]));
            lemma_total_len_update(flat.contents, n, c, flat.contents[c]);
        }
    }
}

/// Write one file of a package.
fn put_file<S: PackageSink>(sink: &mut S, name: &String, data: &[u8]) -> (r: Result<()>)
    ensures
        final(sink).dependable() == old(sink).dependable(),
        match r {
            Ok(_) => final(sink).files() == old(sink).files().insert(name@, data@),
            Err(_) => !old(sink).dependable(),
        },
{
    let mut out: S::Out = match sink.create(name) {
        Ok(out) => out,
        Err(e) => return Err(e),
    };
    match out.write_all(data) {
        Ok(_) => {},
        Err(e) => return Err(e),
    }
    let ghost created = sink.files();
    assert(out.written() =~= data@);
    match sink.close(name, out) {
        Ok(_) => {},
        Err(e) => return Err(e),
    }
    proof {
        lemma_replaced(old(sink).files(), created, name@, data@);
    }
    Ok(())
}

proof fn lemma_replaced(
    a: Map<Seq<char>, Seq<u8>>,
    b: Map<Seq<char>, Seq<u8>>,
    name: Seq<char>,
    data: Seq<u8>,
)
    requires
        a.remove(name) == b.remove(name),
    ensures
        a.insert(name, data) == b.insert(name, data),
{
    assert(a.insert(name, data) =~= a.remove(name).insert(name, data));
    assert(b.insert(name, data) =~= b.remove(name).insert(name, data));
}

/// Write the files of one content.
fn put_content<F: FileSource, S: PackageSink>(
    key: &Key,
    c: &PlannedContent,
    fst: &[u8],
    source: &F,
    sink: &mut S,
    Ghost(contents): Ghost<Seq<ContentView>>,
    Ghost(n): Ghost<int>,
    Ghost(files): Ghost<Map<Seq<char>, Seq<u8>>>,
) -> (r: Result<ContentRecord>)
    requires
        content_writable(c@, fst@, source.files()),
        0 <= n < contents.len(),
        contents[n] == c@,
        old(sink).files() == contents_stored(files, key@, contents, fst@, source.files(), n),
    ensures
        final(sink).dependable() == old(sink).dependable(),
        old(sink).dependable() && content_readable(c@, source.files()) ==> r is Ok,
        r matches Ok(record) ==> {
            &&& c.content_type != TYPE_HASHED ==> content_readable(c@, source.files())
            &&& record_matches(key@, c@, fst@, source.files(), record)
            &&& final(sink).files() == contents_stored(
                files,
                key@,
                contents,
                fst@,
                source.files(),
                n + 1,
            )
        },
{
    let name: String = app_name(c.index);
    let mut out: S::Out = match sink.create(&name) {
        Ok(out) => out,
        Err(e) => return Err(e),
    };
    let ghost created = sink.files();
    let written: WrittenContent = match write_content(key, c, fst, source, &mut out) {
        Ok(written) => written,
        Err(e) => return Err(e),
    };
    let ghost plain = content_plain(c@, fst@, source.files());
    let ghost cipher = content_cipher(key@, c.index, c.content_type, plain);
    assert(out.written() =~= cipher);
    match sink.close(&name, out) {
        Ok(_) => {},
        Err(e) => return Err(e),
    }
    proof {
        lemma_replaced(old(sink).files(), created, name@, cipher);
    }
    if let Some(h3) = written.h3 {
        match put_file(sink, &h3_name(c.index), h3.as_slice()) {
            Ok(_) => {},
            Err(e) => return Err(e),
        }
    }
    Ok(written.record)
}

/// Whether every content can be read.
pub open spec fn all_contents_readable(
    contents: Seq<ContentView>,
    source: Map<Seq<char>, Seq<u8>>,
) -> bool {
    forall|c: int| 0 <= c < contents.len() ==> content_readable(#[trigger] contents[c], source)
}

/// Write the files of all contents.
fn put_contents<F: FileSource, S: PackageSink>(
    key: &Key,
    contents: &Vec<PlannedContent>,
    fst: &[u8],
    source: &F,
    sink: &mut S,
) -> (r: Result<Vec<ContentRecord>>)
    requires
        fst@.len() <= WEIGHT_LIMIT,
        forall|c: int|
            0 <= c < contents@.len() ==> content_writable(
                (#[trigger] contents@[c])@,
                fst@,
                source.files(),
            ),
    ensures
        final(sink).dependable() == old(sink).dependable(),
        old(sink).dependable() && all_contents_readable(content_views(contents@), source.files())
            ==> r is Ok,
        r matches Ok(records) ==> {
            let views = content_views(contents@);
            &&& records@.len() == views.len()
            &&& records_match(key@, views, fst@, source.files(), records@)
            &&& forall|c: int|
                0 <= c < views.len() ==> (#[trigger] records@[c]).size <= size_limit(views[c])
            &&& final(sink).files() == contents_stored(
                old(sink).files(),
                key@,
                views,
                fst@,
                source.files(),
                views.len() as int,
            )
        },
{
    let ghost views = content_views(contents@);
    let ghost files = sink.files();
    let mut records: Vec<ContentRecord> = Vec::with_capacity(contents.len());
    let mut i: usize = 0;
    while i < contents.len()
        invariant
            i <= contents@.len(),
            views == content_views(contents@),
            fst@.len() <= WEIGHT_LIMIT,
            forall|c: int|
                0 <= c < contents@.len() ==> content_writable(
                    (#[trigger] contents@[c])@,
                    fst@,
                    source.files(),
                ),
            sink.dependable() == old(sink).dependable(),
            records@.len() == i,
            records_match(key@, views, fst@, source.files(), records@),
            forall|c: int|
                0 <= c < i ==> (#[trigger] records@[c]).size <= size_limit(views[c]),
            sink.files() == contents_stored(files, key@, views, fst@, source.files(), i as int),
        decreases contents@.len() - i,
    {
        let c: &PlannedContent = &contents[i];
        assert(views[i as int] == c@);
        let record: ContentRecord = match put_content(
            key,
            c,
            fst,
            source,
            sink,
            Ghost(views),
            Ghost(i as int),
            Ghost(files),
        ) {
            Ok(record) => record,
            Err(e) => return Err(e),
        };
        proof {
            lemma_size(key@, c@, fst@, source.files(), record);
        }
        records.push(record);
        i += 1;
    }
    Ok(records)
}

/// Whether a package has been built of a build's tree: `after` is `before` with the files of the
/// contents, the TMD over their records, the ticket and the certificate chain.
pub open spec fn package_built(
    flat: Flat,
    params: PackageParams,
    source: Map<Seq<char>, Seq<u8>>,
    before: Map<Seq<char>, Seq<u8>>,
    after: Map<Seq<char>, Seq<u8>>,
    built: BuiltPackage,
) -> bool {
    let contents = planned(flat, params.title_id);
    let fst = fst_bytes(table_of(flat, params.title_id));
    let records = built.records@;
    let tmd = tmd_bytes(params.title_id, params.group_id, records);
    &&& records.len() == contents.len()
    &&& records_match(params.title_key@, contents, fst, source, records)
    &&& records.len() <= u16::MAX ==> states_records(tmd, records)
    &&& after == contents_stored(
        before,
        params.title_key@,
        contents,
        fst,
        source,
        contents.len() as int,
    ).insert("title.tmd"@, tmd).insert("title.tik"@, package_ticket(params)).insert(
        "title.cert"@,
        params.cert.0@,
    )
    &&& cbc_decrypted(
        params.wiiu_common_key@,
        title_iv_of(params.title_id),
        carried_key(params),
    ) == params.title_key@
    &&& built.stats.content_count == contents.len()
    &&& built.stats.total_content_bytes == record_sizes(records, records.len() as int)
}

/// Build the package of a staged build: plan it, write every content, then `title.tmd`,
/// `title.tik` and `title.cert`.
///
/// The records of the TMD are true of what was written: every content decrypts to its padded
/// plaintext, and its hash is the one stated.
pub fn build_package<F: FileSource, S: PackageSink>(
    build: &StagedBuild,
    source: &F,
    sink: &mut S,
    params: &PackageParams,
) -> (r: Result<BuiltPackage>)
    requires
        build_holdable(*build, params.title_id, source.files()),
    ensures
        match tree_of(*build) {
            Ok(flat) => {
                &&& old(sink).dependable() && all_contents_readable(
                    planned(flat, params.title_id),
                    source.files(),
                ) ==> r is Ok
                &&& r matches Ok(built) ==> package_built(
                    flat,
                    *params,
                    source.files(),
                    old(sink).files(),
                    final(sink).files(),
                    built,
                )
            },
            Err(lost) => {
                &&& final(sink).files() == old(sink).files()
                &&& r matches Err(Error::UnsupportedDisc(DiscFault::Unassigned(path))) && path@
                    == lost
            },
        },
{
    let planned_package: PackagePlan = match plan(build, params.title_id) {
        Ok(p) => p,
        Err(e) => return Err(e),
    };
    let ghost flat = tree_of(*build)->Ok_0;
    let ghost contents = planned(flat, params.title_id);
    let ghost fst = fst_bytes(table_of(flat, params.title_id));
    proof {
        lemma_planned(*build, params.title_id, source.files());
        assert forall|c: int| 0 <= c < planned_package.contents@.len() implies content_writable(
            (#[trigger] planned_package.contents@[c])@,
            fst,
            source.files(),
        ) by {
            assert(contents[c] == planned_package.contents@[c]@);
        }
    }
    let records: Vec<ContentRecord> = match put_contents(
        &params.title_key,
        &planned_package.contents,
        planned_package.fst.as_slice(),
        source,
        sink,
    ) {
        Ok(records) => records,
        Err(e) => return Err(e),
    };
    proof {
        lemma_sizes(contents, records@, records@.len() as int);
    }
    let tail: PackageTail = finish_package(params, &records);
    match put_file(sink, &String::from_str("title.tmd"), tail.tmd.as_slice()) {
        Ok(_) => {},
        Err(e) => return Err(e),
    }
    match put_file(sink, &String::from_str("title.tik"), tail.ticket.as_slice()) {
        Ok(_) => {},
        Err(e) => return Err(e),
    }
    match put_file(sink, &String::from_str("title.cert"), tail.cert.as_slice()) {
        Ok(_) => {},
        Err(e) => return Err(e),
    }
    Ok(BuiltPackage { records, stats: tail.stats })
}

/// How many numbers `width` hexadecimal digits can tell apart.
spec fn room(width: nat) -> int
    decreases width,
{
    if width == 0 {
        1
    } else {
        16 * room((width - 1) as nat)
    }
}

proof fn lemma_hex_tells_apart(a: nat, b: nat, width: nat)
    requires
        a < room(width),
        b < room(width),
        hex_of(a, width) == hex_of(b, width),
    ensures
        a == b,
        hex_of(a, width).len() == width,
    decreases width,
{
    if width > 0 {
        let w = (width - 1) as nat;
        lemma_hex_len(a / 16, w);
        lemma_hex_len(b / 16, w);
        assert(hex_of(a, width).last() == hex_digit_of((a % 16) as int));
        assert(hex_of(b, width).last() == hex_digit_of((b % 16) as int));
        assert(hex_of(a, width).drop_last() =~= hex_of(a / 16, w));
        assert(hex_of(b, width).drop_last() =~= hex_of(b / 16, w));
        lemma_hex_tells_apart(a / 16, b / 16, w);
    }
}

proof fn lemma_hex_len(n: nat, width: nat)
    ensures
        hex_of(n, width).len() == width,
    decreases width,
{
    if width > 0 {
        lemma_hex_len(n / 16, (width - 1) as nat);
    }
}

/// The files of two contents have different names.
proof fn lemma_names_differ(a: u16, b: u16)
    ensures
        content_name(a, ".app"@).len() == 12,
        content_name(a, ".h3"@).len() == 11,
        content_name(a, ".app"@) == content_name(b, ".app"@) ==> a == b,
        content_name(a, ".h3"@) == content_name(b, ".h3"@) ==> a == b,
{
    reveal_strlit(".app");
    reveal_strlit(".h3");
    lemma_hex_len(a as nat, 8);
    lemma_hex_len(b as nat, 8);
    if content_name(a, ".app"@) == content_name(b, ".app"@) {
        assert(content_name(a, ".app"@).subrange(0, 8) =~= hex_of(a as nat, 8));
        assert(content_name(b, ".app"@).subrange(0, 8) =~= hex_of(b as nat, 8));
        assert(room(8) == 0x1_0000_0000) by {
            reveal_with_fuel(room, 9);
        }
        lemma_hex_tells_apart(a as nat, b as nat, 8);
    }
    if content_name(a, ".h3"@) == content_name(b, ".h3"@) {
        assert(content_name(a, ".h3"@).subrange(0, 8) =~= hex_of(a as nat, 8));
        assert(content_name(b, ".h3"@).subrange(0, 8) =~= hex_of(b as nat, 8));
        assert(room(8) == 0x1_0000_0000) by {
            reveal_with_fuel(room, 9);
        }
        lemma_hex_tells_apart(a as nat, b as nat, 8);
    }
}

/// A content's files stand under their names.
proof fn lemma_content_stored(
    files: Map<Seq<char>, Seq<u8>>,
    key: Seq<u8>,
    contents: Seq<ContentView>,
    fst: Seq<u8>,
    source: Map<Seq<char>, Seq<u8>>,
    n: int,
    c: int,
)
    requires
        0 <= c < n <= contents.len() <= 0x1_0000,
        forall|i: int| 0 <= i < contents.len() ==> (#[trigger] contents[i]).index == i,
    ensures
        ({
            let stored = contents_stored(files, key, contents, fst, source, n);
            let name = content_name(contents[c].index, ".app"@);
            &&& stored.contains_key(name)
            &&& stored[name] == content_cipher(
                key,
                contents[c].index,
                contents[c].content_type,
                content_plain(contents[c], fst, source),
            )
            &&& stored.contains_key(content_name(contents[c].index, ".h3"@)) <==> (
            contents[c].content_type == TYPE_HASHED || files.contains_key(
                content_name(contents[c].index, ".h3"@),
            ))
            &&& contents[c].content_type == TYPE_HASHED ==> stored[content_name(
                contents[c].index,
                ".h3"@,
            )] == h3_file(padded_blocks(content_plain(contents[c], fst, source)))
        }),
    decreases n,
{
    lemma_names_differ(contents[c].index, contents[n - 1].index);
    lemma_names_differ(contents[n - 1].index, contents[c].index);
    assert(contents[c].index == c && contents[n - 1].index == n - 1);
    if c < n - 1 {
        lemma_content_stored(files, key, contents, fst, source, n - 1, c);
    } else {
        lemma_not_stored_yet(files, key, contents, fst, source, n - 1, c);
    }
}

/// Before its turn a content has no `.h3` file but one that stood there before.
proof fn lemma_not_stored_yet(
    files: Map<Seq<char>, Seq<u8>>,
    key: Seq<u8>,
    contents: Seq<ContentView>,
    fst: Seq<u8>,
    source: Map<Seq<char>, Seq<u8>>,
    n: int,
    c: int,
)
    requires
        0 <= n <= c < contents.len() <= 0x1_0000,
        forall|i: int| 0 <= i < contents.len() ==> (#[trigger] contents[i]).index == i,
    ensures
        contents_stored(files, key, contents, fst, source, n).contains_key(
            content_name(contents[c].index, ".h3"@),
        ) <==> files.contains_key(content_name(contents[c].index, ".h3"@)),
    decreases n,
{
    if n > 0 {
        lemma_names_differ(contents[c].index, contents[n - 1].index);
        lemma_names_differ(contents[n - 1].index, contents[c].index);
        assert(contents[c].index == c && contents[n - 1].index == n - 1);
        lemma_not_stored_yet(files, key, contents, fst, source, n - 1, c);
    }
}

/// Whether a record is that of content `i` and true of the files of a package, of which `before`
/// stood there before the package did: its size is that of the content's `.app` file, which
/// decodes, and the hash of a hashed content is that of its `.h3` file. No other content has one.
pub open spec fn record_holds(
    rec: ContentRecord,
    i: int,
    key: Seq<u8>,
    before: Map<Seq<char>, Seq<u8>>,
    after: Map<Seq<char>, Seq<u8>>,
) -> bool {
    let app = content_name(i as u16, ".app"@);
    let h3 = content_name(i as u16, ".h3"@);
    &&& rec.id == i
    &&& rec.index == i
    &&& after.contains_key(app)
    &&& rec.size == after[app].len()
    &&& content_fault(rec, key, after[app]) is None
    &&& after.contains_key(h3) <==> (rec.content_type == TYPE_HASHED || before.contains_key(h3))
    &&& rec.content_type == TYPE_HASHED ==> sha1_of(after[h3]) == rec.hash@
}

/// Whether two maps agree on all names as long as those of a content's files.
spec fn agree(a: Map<Seq<char>, Seq<u8>>, b: Map<Seq<char>, Seq<u8>>) -> bool {
    forall|name: Seq<char>|
        #![trigger a.contains_key(name)]
        #![trigger a[name]]
        name.len() > 10 ==> a.contains_key(name) == b.contains_key(name) && a[name] == b[name]
}

proof fn lemma_tail_apart(
    files: Map<Seq<char>, Seq<u8>>,
    tmd: Seq<u8>,
    ticket: Seq<u8>,
    cert: Seq<u8>,
)
    ensures
        ({
            let all = files.insert("title.tmd"@, tmd).insert("title.tik"@, ticket).insert(
                "title.cert"@,
                cert,
            );
            &&& agree(all, files)
            &&& all.contains_key("title.tmd"@)
            &&& all["title.tmd"@] == tmd
            &&& all["title.tik"@] == ticket
            &&& all["title.cert"@] == cert
        }),
{
    reveal_strlit("title.tmd");
    reveal_strlit("title.tik");
    reveal_strlit("title.cert");
    assert("title.tmd"@[7] != "title.tik"@[7]);
}

proof fn lemma_record_holds(
    key: Seq<u8>,
    contents: Seq<ContentView>,
    fst: Seq<u8>,
    source: Map<Seq<char>, Seq<u8>>,
    before: Map<Seq<char>, Seq<u8>>,
    after: Map<Seq<char>, Seq<u8>>,
    rec: ContentRecord,
    i: int,
)
    requires
        0 <= i < contents.len() <= 0x1_0000,
        forall|c: int| 0 <= c < contents.len() ==> (#[trigger] contents[c]).index == c,
        agree(
            after,
            contents_stored(before, key, contents, fst, source, contents.len() as int),
        ),
        record_matches(key, contents[i], fst, source, rec),
    ensures
        record_holds(rec, i, key, before, after),
{
    let c = contents[i];
    let plain = content_plain(c, fst, source);
    let app = content_name(i as u16, ".app"@);
    let h3 = content_name(i as u16, ".h3"@);
    let stored = contents_stored(before, key, contents, fst, source, contents.len() as int);
    lemma_content_stored(before, key, contents, fst, source, contents.len() as int, i);
    lemma_names_differ(i as u16, i as u16);
    assert(c.index == i);
    assert(after.contains_key(app) == stored.contains_key(app) && after[app] == stored[app]);
    assert(after.contains_key(h3) == stored.contains_key(h3) && after[h3] == stored[h3]);
    law_written_content_decodes(key, c, plain, after[app], rec);
}

/// The TMD of a built package states the records that the package was built with.
proof fn lemma_tmd_stored(
    build: StagedBuild,
    params: PackageParams,
    source: Map<Seq<char>, Seq<u8>>,
    before: Map<Seq<char>, Seq<u8>>,
    after: Map<Seq<char>, Seq<u8>>,
    built: BuiltPackage,
)
    requires
        build.total_weight() <= WEIGHT_LIMIT,
        tree_of(build) is Ok,
        tree_of(build)->Ok_0.contents.len() <= u16::MAX,
        package_built(tree_of(build)->Ok_0, params, source, before, after, built),
    ensures
        after.contains_key("title.tmd"@),
        after["title.tmd"@].len() >= 0xB34,
        states_records(after["title.tmd"@], built.records@),
{
    let flat = tree_of(build)->Ok_0;
    let contents = planned(flat, params.title_id);
    let fst = fst_bytes(table_of(flat, params.title_id));
    let tmd = tmd_bytes(params.title_id, params.group_id, built.records@);
    lemma_plan_numbered(build, params.title_id);
    lemma_tail_apart(
        contents_stored(
            before,
            params.title_key@,
            contents,
            fst,
            source,
            contents.len() as int,
        ),
        tmd,
        package_ticket(params),
        params.cert.0@,
    );
}

/// Reading the content records of a built package's TMD succeeds, and they are true of its files.
/// There are as many as contents, and their sizes make up what was written. The certificate chain
/// is the one given. The TMD counts no more than 65535 contents.
pub proof fn law_built_package_reads_back(
    build: StagedBuild,
    params: PackageParams,
    source: Map<Seq<char>, Seq<u8>>,
    before: Map<Seq<char>, Seq<u8>>,
    after: Map<Seq<char>, Seq<u8>>,
    built: BuiltPackage,
    parsed: core::result::Result<Vec<ContentRecord>, &'static str>,
)
    requires
        build.total_weight() <= WEIGHT_LIMIT,
        tree_of(build) is Ok,
        tree_of(build)->Ok_0.contents.len() <= u16::MAX,
        package_built(tree_of(build)->Ok_0, params, source, before, after, built),
        records_parsed(after["title.tmd"@], parsed),
    ensures
        after.contains_key("title.tmd"@),
        parsed is Ok,
        ({
            let recs = parsed->Ok_0@;
            &&& recs.len() == built.stats.content_count
            &&& recs.len() == planned(tree_of(build)->Ok_0, params.title_id).len()
            &&& record_sizes(recs, recs.len() as int) == built.stats.total_content_bytes
            &&& forall|i: int|
                0 <= i < recs.len() ==> record_holds(
                    #[trigger] recs[i],
                    i,
                    params.title_key@,
                    before,
                    after,
                )
        }),
        after["title.cert"@] == params.cert.0@,
        after["title.tik"@] == package_ticket(params),
{
    let flat = tree_of(build)->Ok_0;
    let key = params.title_key@;
    let contents = planned(flat, params.title_id);
    let fst = fst_bytes(table_of(flat, params.title_id));
    let records = built.records@;
    let tmd = tmd_bytes(params.title_id, params.group_id, records);
    let n = contents.len() as int;
    lemma_plan_numbered(build, params.title_id);
    lemma_tmd_stored(build, params, source, before, after, built);
    assert(parsed is Ok);
    let recs = parsed->Ok_0@;
    lemma_tail_apart(
        contents_stored(before, key, contents, fst, source, n),
        tmd,
        package_ticket(params),
        params.cert.0@,
    );
    assert forall|i: int| 0 <= i < n implies (#[trigger] recs[i]).size == records[i].size
        && record_holds(recs[i], i, key, before, after) by {
        assert(parsed_record(tmd, i, recs[i]));
        assert(parsed_record(tmd, i, records[i]));
        assert(record_matches(key, contents[i], fst, source, records[i]));
        lemma_record_holds(key, contents, fst, source, before, after, recs[i], i);
    }
    lemma_same_sizes(recs, records, n);
}

/// Extracting a built package from its files gives back the build that it was made of. The records
/// are those that its TMD states, the `.app` files are what the extraction reads. The TMD counts no
/// more than 65535 contents.
pub proof fn law_built_package_extracts(
    build: StagedBuild,
    params: PackageParams,
    source: Map<Seq<char>, Seq<u8>>,
    before: Map<Seq<char>, Seq<u8>>,
    after: Map<Seq<char>, Seq<u8>>,
    built: BuiltPackage,
    t: TitleView,
    made: Seq<ExtractedView>,
    result: Result<()>,
)
    requires
        build.total_weight() <= WEIGHT_LIMIT,
        tree_of(build) is Ok,
        fst_storable(table_of(tree_of(build)->Ok_0, params.title_id)),
        tree_of(build)->Ok_0.contents.len() <= u16::MAX,
        build_stands(tree_of(build)->Ok_0.contents, build_items(build), source),
        package_built(tree_of(build)->Ok_0, params, source, before, after, built),
        t.key == params.title_key@,
        states_records(after["title.tmd"@], t.records),
        ({
            let contents = planned(tree_of(build)->Ok_0, params.title_id);
            forall|c: int|
                0 <= c < contents.len() ==> {
                    &&& t.contents.contains_key((#[trigger] contents[c]).index as u32)
                    &&& t.contents[contents[c].index as u32] == after[content_name(
                        contents[c].index,
                        ".app"@,
                    )]
                }
        }),
        extracts(t, made, result),
    ensures
        result is Ok,
        made == wanted(
            build_items(build),
            source,
            t.skip,
            build_items(build).len() as int,
        ),
{
    let title_id = params.title_id;
    let flat = tree_of(build)->Ok_0;
    let contents = planned(flat, title_id);
    let fst = fst_bytes(table_of(flat, title_id));
    let n = contents.len() as int;
    lemma_plan_numbered(build, title_id);
    let tmd = tmd_bytes(title_id, params.group_id, built.records@);
    let stored = contents_stored(before, t.key, contents, fst, source, n);
    lemma_tail_apart(stored, tmd, package_ticket(params), params.cert.0@);
    assert forall|c: int| 0 <= c < n implies {
        &&& t.contents.contains_key((#[trigger] contents[c]).index as u32)
        &&& content_written(
            t.key,
            contents[c],
            content_plain(contents[c], fst, source),
            t.contents[contents[c].index as u32],
            t.records[c],
        )
    } by {
        let app = content_name(contents[c].index, ".app"@);
        lemma_content_stored(before, t.key, contents, fst, source, n, c);
        lemma_names_differ(contents[c].index, contents[c].index);
        assert(after[app] == stored[app]);
        assert(parsed_record(tmd, c, built.records@[c]));
        assert(parsed_record(tmd, c, t.records[c]));
        assert(record_matches(t.key, contents[c], fst, source, built.records@[c]));
    }
    law_extraction_gives_back_the_build(build, title_id, source, t, made, result);
}

proof fn lemma_same_sizes(a: Seq<ContentRecord>, b: Seq<ContentRecord>, n: int)
    requires
        n <= a.len(),
        n <= b.len(),
        forall|i: int| 0 <= i < n ==> (#[trigger] a[i]).size == b[i].size,
    ensures
        record_sizes(a, n) == record_sizes(b, n),
    decreases n,
{
    if n > 0 {
        lemma_same_sizes(a, b, n - 1);
        assert(a[n - 1].size == b[n - 1].size);
    }
}

/// A build that fits can be packed from files that are as long as they were when it was staged.
pub proof fn law_staged_files_can_be_packed(
    build: StagedBuild,
    title_id: u64,
    source: Map<Seq<char>, Seq<u8>>,
)
    requires
        build_fits(build, title_id),
        forall|k: int|
            0 <= k < all_files(build).len() && source.contains_key(
                (#[trigger] all_files(build)[k]).0,
            ) ==> source[all_files(build)[k].0].len() == all_files(build)[k].1,
    ensures
        build_holdable(build, title_id, source),
{
    if let Ok(flat) = tree_of(build) {
        law_tree_holds_the_build(build);
        assert forall|c: int| 0 < c < flat.contents.len() implies holdable(
            #[trigger] flat.contents[c],
            source,
        ) by {
            let content = flat.contents[c];
            assert(tidy(content));
            assert forall|i: int|
                0 <= i < content.files.len() && source.contains_key(
                    content.files[i].path,
                ) implies (#[trigger] content.files[i]).offset + source[content.files[i].path].len()
                <= content.data_len by {
                let all = all_files(build);
                lemma_placed_is_staged(build, c, i);
                let file = held(content)[i];
                let k = choose|k: int| 0 <= k < all.len() && all[k] == file;
                assert(all[k].0 == content.files[i].path && all[k].1 == content.files[i].size);
            }
        }
    }
}

} // verus!
