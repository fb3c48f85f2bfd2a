//! The error type shared across the library.

use vstd::prelude::*;

verus! {

/// Why a key was rejected.
#[derive(Debug)]
pub enum KeyFault {
    /// Neither 16 raw bytes nor 32 hex characters; holds the length that was given.
    Length(usize),
    /// The key's MD5 fingerprint is not that of the retail key.
    Fingerprint,
    /// The raw key is not 16 bytes long; holds the length that was given.
    RawLength(usize),
}

/// Why a source disc or a title could not be read.
#[derive(Debug)]
pub enum DiscFault {
    /// A non-hashed content's ciphertext is no multiple of the AES block; holds its length.
    RaggedContent(usize),
    /// A hashed content's ciphertext is no multiple of the hashed block; holds its length.
    RaggedHashedContent(usize),
    /// A section of `main.dol` ends past the limit.
    DolSection {
        /// Number of the section.
        section: usize,
        /// Where it ends.
        end: u64,
        /// Where it starts.
        offset: u64,
        /// Its size.
        size: u64,
        /// The limit.
        limit: u64,
    },
    /// `main.dol` reaches past the partition's data.
    DolPastEnd {
        /// Where it starts.
        offset: u64,
        /// Its size.
        size: u64,
        /// Size of the partition's data.
        data_size: u64,
    },
    /// An extent of the disc reaches past the partition's data.
    ExtentPastEnd {
        /// Where it starts.
        offset: u64,
        /// Its length.
        len: u64,
        /// Size of the partition's data.
        data_size: u64,
    },
    /// The image at this path is not a Wii disc.
    NotWii(String),
    /// The image at this path is not a GameCube disc.
    NotGameCube(String),
    /// The image at this path is neither a Wii nor a GameCube disc.
    UnknownDisc(String),
    /// The disc has no data partition.
    NoDataPartition,
    /// The partition has no ticket.
    NoTicket,
    /// The partition has no TMD.
    NoTmd,
    /// The partition of this index has no H3 table.
    NoH3Table(usize),
    /// The partition's file system table cannot be read; holds why.
    NoFst(&'static str),
    /// A staged file was not assigned to a content; holds its path.
    Unassigned(String),
    /// The certificate chain has the wrong size; holds its size.
    CertSize(usize),
    /// The certificate chain starts with an unknown signature type.
    CertSignature(u32),
    /// The certificate chain does not name its root issuer.
    CertIssuer,
    /// A content does not match the hash that its record states.
    ContentHash {
        /// Id of the content.
        id: u32,
        /// Index of the content.
        index: u16,
    },
    /// The title has no content that holds a file system table.
    NoTable,
    /// The title's file system table cannot be read.
    BadTable,
    /// The file system table names a content that the title does not have.
    MissingContent(u16),
    /// A file reaches past the end of its content.
    FilePastContent {
        /// Path of the file.
        path: String,
        /// Where it ends.
        end: u64,
        /// Size of the content.
        content_len: usize,
    },
    /// A path of the title would leave the directory that it is extracted to.
    EscapingPath(String),
    /// The title's TMD cannot be read; holds why.
    BadTmd(&'static str),
    /// The archive at this path holds no title.
    NoTitle(String),
    /// The directory at this path holds no `code/` directory.
    NoCodeDir(String),
    /// The base title at this path is neither a directory nor a `.wua` archive.
    BadBase(String),
}

/// Which limit of an on-disk format was exceeded.
#[derive(Debug)]
pub enum LimitFault {
    /// More LBA ranges than the NFS header holds; holds their number.
    TooManyRanges(usize),
    /// A disc patch lies outside the disc-level sectors that are written.
    DiscPatch {
        /// Where it starts.
        start: u64,
        /// Where it ends.
        end: u64,
    },
    /// A header patch lies outside the header of its partition.
    HeaderPatch {
        /// Number of the partition.
        partition: usize,
        /// Where the patch starts.
        start: u64,
        /// Where it ends.
        end: u64,
        /// Where the header starts.
        region_start: u64,
        /// Where the header ends.
        region_end: u64,
    },
    /// An edit touches a hash group that is not stored.
    Edit {
        /// Number of the partition.
        partition: usize,
        /// Offset of the edit within the partition's data.
        offset: u64,
        /// Its length.
        len: usize,
        /// The hash group.
        group: u64,
    },
    /// A text in `meta.xml` is longer than its element declares.
    MetaText {
        /// Name of the element.
        field: String,
        /// Bytes of the escaped text.
        len: usize,
        /// The declared length.
        limit: usize,
    },
    /// A hexadecimal value in `meta.xml` is not as long as its element declares.
    MetaHex {
        /// Name of the element.
        field: String,
        /// Bytes of the value.
        len: usize,
        /// The declared length, in bytes that the value decodes to.
        limit: usize,
        /// The number of digits that it asks for.
        expected: usize,
    },
}

/// Errors produced by the library.
#[derive(Debug)]
pub enum Error {
    /// A required key had the wrong length or failed its fingerprint check.
    InvalidKey {
        /// Which key.
        name: &'static str,
        /// Why it was rejected.
        reason: KeyFault,
    },
    /// A required file was missing; holds its path.
    MissingFile(String),
    /// The source disc or title was not usable.
    UnsupportedDisc(DiscFault),
    /// A limit imposed by an on-disk format was exceeded.
    FormatLimit(LimitFault),
    /// Reading or writing failed outside the library; holds what was reported.
    Io(String),
    /// A value is not made of the right number of hexadecimal digits.
    BadHex {
        /// How many digits were wanted.
        wanted: usize,
        /// What was given.
        got: String,
    },
    /// A title id is not a hexadecimal number; holds what was given.
    BadTitleId(String),
    /// Any other failure; holds what was reported.
    Other(String),
}

/// Result alias using the library's [`Error`].
pub type Result<T> = core::result::Result<T, Error>;

} // verus!
