//! Errors in words.

use vstd::prelude::*;

use crate::error::{DiscFault, Error, KeyFault, LimitFault};
use crate::text::{
    decimal_of, hex_of, lower_hex_of, push_decimal, push_hex, push_lower_hex, push_upper_hex,
    upper_hex_of,
};

verus! {

/// Why a key was rejected, in words.
pub open spec fn key_text(f: KeyFault) -> Seq<char> {
    match f {
        KeyFault::Length(len) => "expected 16 raw bytes or 32 hex chars, got "@
            + decimal_of(len as nat) + " bytes"@,
        KeyFault::Fingerprint => "MD5 fingerprint does not match the retail key"@,
        KeyFault::RawLength(len) => "expected 16 bytes, got "@ + decimal_of(len as nat),
    }
}

impl KeyFault {
    /// Why a key was rejected, in words.
    pub fn message(&self) -> (r: String)
        ensures
            r@ == key_text(*self),
    {
        let mut r: String = String::new();
        match self {
            KeyFault::Length(len) => {
                r.append("expected 16 raw bytes or 32 hex chars, got ");
                push_decimal(&mut r, *len as u64);
                r.append(" bytes");
            },
            KeyFault::Fingerprint => {
                r.append("MD5 fingerprint does not match the retail key");
            },
            KeyFault::RawLength(len) => {
                r.append("expected 16 bytes, got ");
                push_decimal(&mut r, *len as u64);
            },
        }
        assert(r@ =~= key_text(*self));
        r
    }
}

/// Why a source disc or a title could not be read, in words.
pub open spec fn disc_text(f: DiscFault) -> Seq<char> {
    match f {
        DiscFault::RaggedContent(len) => "non-hashed content ciphertext length "@
            + decimal_of(len as nat) + " is not a multiple of the AES block size (16)"@,
        DiscFault::RaggedHashedContent(len) => "hashed content ciphertext length "@
            + decimal_of(len as nat) + " is not a multiple of the hashed block size (0x10000)"@,
        DiscFault::DolSection { section, end, offset, size, limit } => "main.dol section "@
            + decimal_of(section as nat) + " ends at "@ + decimal_of(end as nat) + " (offset "@
            + decimal_of(offset as nat) + " + size "@ + decimal_of(size as nat) + "), past the "@
            + decimal_of(limit as nat) + "-byte limit"@,
        DiscFault::DolPastEnd { offset, size, data_size } => "main.dol at offset "@
            + decimal_of(offset as nat) + " is "@ + decimal_of(size as nat)
            + " bytes, past the end of the "@ + decimal_of(data_size as nat)
            + "-byte partition data region"@,
        DiscFault::ExtentPastEnd { offset, len, data_size } => "disc extent at offset "@
            + decimal_of(offset as nat) + " spans "@ + decimal_of(len as nat)
            + " bytes, past the end of the "@ + decimal_of(data_size as nat)
            + "-byte partition data region"@,
        DiscFault::NotWii(path) => "'"@ + path@
            + "' is not a Wii disc (GameCube images are injected via GcImage::open, not SourceDisc::open)"@,
        DiscFault::NotGameCube(path) => "'"@ + path@ + "' is not a GameCube disc"@,
        DiscFault::UnknownDisc(path) => "'"@ + path@ + "' is neither a Wii nor a GameCube disc"@,
        DiscFault::NoDataPartition => "no data partition found on disc"@,
        DiscFault::NoTicket => "partition has no ticket"@,
        DiscFault::NoTmd => "partition has no TMD"@,
        DiscFault::NoH3Table(index) => "partition "@ + decimal_of(index as nat)
            + " has no H3 table"@,
        DiscFault::NoFst(why) => "partition has no FST: "@ + why@,
        DiscFault::Unassigned(path) => path@ + " was not assigned to a content"@,
        DiscFault::CertSize(len) => "certificate chain has unexpected size "@
            + decimal_of(len as nat) + " (expected 2560)"@,
        DiscFault::CertSignature(kind) => "certificate chain has unexpected signature type 0x"@
            + lower_hex_of(kind as nat),
        DiscFault::CertIssuer => "certificate chain does not contain the Root-CA00000003 issuer"@,
        DiscFault::ContentHash { id, index } => "content "@ + hex_of(id as nat, 8) + " (index "@
            + decimal_of(index as nat)
            + ") failed TMD hash verification \u{2014} corrupted or tampered download"@,
        DiscFault::NoTable => "title has no FST content"@,
        DiscFault::BadTable => "could not parse title FST"@,
        DiscFault::MissingContent(index) => "FST references missing content "@
            + decimal_of(index as nat),
        DiscFault::FilePastContent { path, end, content_len } => "file "@ + path@
            + " extends past its content ("@ + decimal_of(end as nat) + " > "@
            + decimal_of(content_len as nat) + ")"@,
        DiscFault::EscapingPath(path) => "path "@ + path@
            + " leaves the directory it is extracted to"@,
        DiscFault::BadTmd(why) => "parsing NUS TMD: "@ + why@,
        DiscFault::NoTitle(path) => "no Wii U title (a '<id>_v<n>/code/' tree) found in "@ + path@,
        DiscFault::NoCodeDir(path) => "no 'code/' directory found in base path "@ + path@,
        DiscFault::BadBase(path) => "base must be a directory or a .wua archive: "@ + path@,
    }
}

impl DiscFault {
    /// Why a source disc or a title could not be read, in words.
    pub fn message(&self) -> (r: String)
        ensures
            r@ == disc_text(*self),
    {
        let mut r: String = String::new();
        match self {
            DiscFault::RaggedContent(len) => {
                r.append("non-hashed content ciphertext length ");
                push_decimal(&mut r, *len as u64);
                r.append(" is not a multiple of the AES block size (16)");
            },
            DiscFault::RaggedHashedContent(len) => {
                r.append("hashed content ciphertext length ");
                push_decimal(&mut r, *len as u64);
                r.append(" is not a multiple of the hashed block size (0x10000)");
            },
            DiscFault::DolSection { section, end, offset, size, limit } => {
                r.append("main.dol section ");
                push_decimal(&mut r, *section as u64);
                r.append(" ends at ");
                push_decimal(&mut r, *end as u64);
                r.append(" (offset ");
                push_decimal(&mut r, *offset as u64);
                r.append(" + size ");
                push_decimal(&mut r, *size as u64);
                r.append("), past the ");
                push_decimal(&mut r, *limit as u64);
                r.append("-byte limit");
            },
            DiscFault::DolPastEnd { offset, size, data_size } => {
                r.append("main.dol at offset ");
                push_decimal(&mut r, *offset as u64);
                r.append(" is ");
                push_decimal(&mut r, *size as u64);
                r.append(" bytes, past the end of the ");
                push_decimal(&mut r, *data_size as u64);
                r.append("-byte partition data region");
            },
            DiscFault::ExtentPastEnd { offset, len, data_size } => {
                r.append("disc extent at offset ");
                push_decimal(&mut r, *offset as u64);
                r.append(" spans ");
                push_decimal(&mut r, *len as u64);
                r.append(" bytes, past the end of the ");
                push_decimal(&mut r, *data_size as u64);
                r.append("-byte partition data region");
            },
            DiscFault::NotWii(path) => {
                r.append("'");
                r.append(path.as_str());
                r.append("' is not a Wii disc (GameCube images are injected via GcImage::open, not SourceDisc::open)");
            },
            DiscFault::NotGameCube(path) => {
                r.append("'");
                r.append(path.as_str());
                r.append("' is not a GameCube disc");
            },
            DiscFault::UnknownDisc(path) => {
                r.append("'");
                r.append(path.as_str());
                r.append("' is neither a Wii nor a GameCube disc");
            },
            DiscFault::NoDataPartition => {
                r.append("no data partition found on disc");
            },
            DiscFault::NoTicket => {
                r.append("partition has no ticket");
            },
            DiscFault::NoTmd => {
                r.append("partition has no TMD");
            },
            DiscFault::NoH3Table(index) => {
                r.append("partition ");
                push_decimal(&mut r, *index as u64);
                r.append(" has no H3 table");
            },
            DiscFault::NoFst(why) => {
                r.append("partition has no FST: ");
                r.append(*why);
            },
            DiscFault::Unassigned(path) => {
                r.append(path.as_str());
                r.append(" was not assigned to a content");
            },
            DiscFault::CertSize(len) => {
                r.append("certificate chain has unexpected size ");
                push_decimal(&mut r, *len as u64);
                r.append(" (expected 2560)");
            },
            DiscFault::CertSignature(kind) => {
                r.append("certificate chain has unexpected signature type 0x");
                push_lower_hex(&mut r, *kind as u64);
            },
            DiscFault::CertIssuer => {
                r.append("certificate chain does not contain the Root-CA00000003 issuer");
            },
            DiscFault::ContentHash { id, index } => {
                r.append("content ");
                push_hex(&mut r, *id as u64, 8);
                r.append(" (index ");
                push_decimal(&mut r, *index as u64);
                r.append(") failed TMD hash verification \u{2014} corrupted or tampered download");
            },
            DiscFault::NoTable => {
                r.append("title has no FST content");
            },
            DiscFault::BadTable => {
                r.append("could not parse title FST");
            },
            DiscFault::MissingContent(index) => {
                r.append("FST references missing content ");
                push_decimal(&mut r, *index as u64);
            },
            DiscFault::FilePastContent { path, end, content_len } => {
                r.append("file ");
                r.append(path.as_str());
                r.append(" extends past its content (");
                push_decimal(&mut r, *end as u64);
                r.append(" > ");
                push_decimal(&mut r, *content_len as u64);
                r.append(")");
            },
            DiscFault::EscapingPath(path) => {
                r.append("path ");
                r.append(path.as_str());
                r.append(" leaves the directory it is extracted to");
            },
            DiscFault::BadTmd(why) => {
                r.append("parsing NUS TMD: ");
                r.append(why);
            },
            DiscFault::NoTitle(path) => {
                r.append("no Wii U title (a '<id>_v<n>/code/' tree) found in ");
                r.append(path.as_str());
            },
            DiscFault::NoCodeDir(path) => {
                r.append("no 'code/' directory found in base path ");
                r.append(path.as_str());
            },
            DiscFault::BadBase(path) => {
                r.append("base must be a directory or a .wua archive: ");
                r.append(path.as_str());
            },
        }
        assert(r@ =~= disc_text(*self));
        r
    }
}

/// Which limit was exceeded, in words.
pub open spec fn limit_text(f: LimitFault) -> Seq<char> {
    match f {
        LimitFault::TooManyRanges(count) => "NFS supports at most 61 LBA ranges, got "@
            + decimal_of(count as nat),
        LimitFault::DiscPatch { start, end } => "disc patch at 0x"@ + upper_hex_of(start as nat)
            + "..0x"@ + upper_hex_of(end as nat)
            + " lies outside the disc-level sectors the NFS writes, so it would be silently dropped"@,
        LimitFault::HeaderPatch { partition, start, end, region_start, region_end } => "partition "@
            + decimal_of(partition as nat) + " header patch at 0x"@ + upper_hex_of(start as nat)
            + "..0x"@ + upper_hex_of(end as nat) + " lies outside its stored header region 0x"@
            + upper_hex_of(region_start as nat) + "..0x"@ + upper_hex_of(region_end as nat)
            + ", so it would be silently dropped"@,
        LimitFault::Edit { partition, offset, len, group } => "partition "@
            + decimal_of(partition as nat) + " edit at logical offset 0x"@
            + upper_hex_of(offset as nat) + " ("@ + decimal_of(len as nat)
            + " bytes) touches hash group "@ + decimal_of(group as nat)
            + ", which the NFS does not store, so it would be silently dropped"@,
        LimitFault::MetaText { field, len, limit } => "meta.xml field `"@ + field@
            + "` value is "@ + decimal_of(len as nat)
            + " bytes (escaped), exceeding its declared length="@ + decimal_of(limit as nat),
        LimitFault::MetaHex { field, len, limit, expected } => "meta.xml field `"@ + field@
            + "` value is "@ + decimal_of(len as nat) + " hex chars, but its declared length="@
            + decimal_of(limit as nat) + " expects exactly "@ + decimal_of(expected as nat),
    }
}

impl LimitFault {
    /// Which limit was exceeded, in words.
    pub fn message(&self) -> (r: String)
        ensures
            r@ == limit_text(*self),
    {
        let mut r: String = String::new();
        match self {
            LimitFault::TooManyRanges(count) => {
                r.append("NFS supports at most 61 LBA ranges, got ");
                push_decimal(&mut r, *count as u64);
            },
            LimitFault::DiscPatch { start, end } => {
                r.append("disc patch at 0x");
                push_upper_hex(&mut r, *start);
                r.append("..0x");
                push_upper_hex(&mut r, *end);
                r.append(" lies outside the disc-level sectors the NFS writes, so it would be silently dropped");
            },
            LimitFault::HeaderPatch { partition, start, end, region_start, region_end } => {
                r.append("partition ");
                push_decimal(&mut r, *partition as u64);
                r.append(" header patch at 0x");
                push_upper_hex(&mut r, *start);
                r.append("..0x");
                push_upper_hex(&mut r, *end);
                r.append(" lies outside its stored header region 0x");
                push_upper_hex(&mut r, *region_start);
                r.append("..0x");
                push_upper_hex(&mut r, *region_end);
                r.append(", so it would be silently dropped");
            },
            LimitFault::Edit { partition, offset, len, group } => {
                r.append("partition ");
                push_decimal(&mut r, *partition as u64);
                r.append(" edit at logical offset 0x");
                push_upper_hex(&mut r, *offset);
                r.append(" (");
                push_decimal(&mut r, *len as u64);
                r.append(" bytes) touches hash group ");
                push_decimal(&mut r, *group as u64);
                r.append(", which the NFS does not store, so it would be silently dropped");
            },
            LimitFault::MetaText { field, len, limit } => {
                r.append("meta.xml field `");
                r.append(field.as_str());
                r.append("` value is ");
                push_decimal(&mut r, *len as u64);
                r.append(" bytes (escaped), exceeding its declared length=");
                push_decimal(&mut r, *limit as u64);
            },
            LimitFault::MetaHex { field, len, limit, expected } => {
                r.append("meta.xml field `");
                r.append(field.as_str());
                r.append("` value is ");
                push_decimal(&mut r, *len as u64);
                r.append(" hex chars, but its declared length=");
                push_decimal(&mut r, *limit as u64);
                r.append(" expects exactly ");
                push_decimal(&mut r, *expected as u64);
            },
        }
        assert(r@ =~= limit_text(*self));
        r
    }
}

/// An error, in words.
pub open spec fn error_text(e: Error) -> Seq<char> {
    match e {
        Error::InvalidKey { name, reason } => "invalid "@ + name@ + " key: "@ + key_text(reason),
        Error::MissingFile(path) => "missing required file: "@ + path@,
        Error::UnsupportedDisc(fault) => "unsupported or invalid source disc: "@ + disc_text(fault),
        Error::FormatLimit(fault) => "format limit exceeded: "@ + limit_text(fault),
        Error::Io(report) => "I/O error on "@ + report@,
        Error::BadHex { wanted, got } => "expected "@ + decimal_of(wanted as nat)
            + " hex characters, got \""@ + got@ + "\""@,
        Error::BadTitleId(got) => "invalid --base-title-id \""@ + got@ + "\""@,
        Error::Other(report) => report@,
    }
}

impl Error {
    /// The error, in words.
    pub fn message(&self) -> (r: String)
        ensures
            r@ == error_text(*self),
    {
        let mut r: String = String::new();
        match self {
            Error::InvalidKey { name, reason } => {
                r.append("invalid ");
                r.append(name);
                r.append(" key: ");
                r.append(reason.message().as_str());
            },
            Error::MissingFile(path) => {
                r.append("missing required file: ");
                r.append(path.as_str());
            },
            Error::UnsupportedDisc(fault) => {
                r.append("unsupported or invalid source disc: ");
                r.append(fault.message().as_str());
            },
            Error::FormatLimit(fault) => {
                r.append("format limit exceeded: ");
                r.append(fault.message().as_str());
            },
            Error::Io(report) => {
                r.append("I/O error on ");
                r.append(report.as_str());
            },
            Error::BadHex { wanted, got } => {
                r.append("expected ");
                push_decimal(&mut r, *wanted as u64);
                r.append(" hex characters, got \"");
                r.append(got.as_str());
                r.append("\"");
            },
            Error::BadTitleId(got) => {
                r.append("invalid --base-title-id \"");
                r.append(got.as_str());
                r.append("\"");
            },
            Error::Other(report) => {
                r.append(report.as_str());
            },
        }
        assert(r@ =~= error_text(*self));
        r
    }
}

} // verus!
