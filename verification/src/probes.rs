use vstd::prelude::*;
use vstd::utf8::encode_utf8;

use crate::contentarchive::{content_dir_parse, content_magic, content_version_of, is_archive_error, MmapContentArchive};
use crate::contentcodec::ContentStoreVersion;
use crate::error::GfmError;
use crate::fuzzyarchive::MmapFuzzyArchive;
use crate::schema::ArchiveSchemaKind;
use crate::termarchive::{is_store_error, TermArchiveKind};
use crate::termindex::{dir_parse, MmapPrefixArchive, MmapSubstringArchive};

verus! {

/// Whether the archive `bytes` open with the magic of the current content
/// layout.
pub open spec fn current_content_magic(bytes: Seq<u8>) -> bool {
    let n = encode_utf8(content_magic()).len() as int;
    bytes.len() >= n && content_version_of(bytes.take(n)) == Some(ContentStoreVersion::IndexedChecksummed)
}

/// Whether `r` is what the library's reader of `kind` says of the archive
/// `bytes` at `path`: for prefix, substring and fuzzy archives and current
/// content archives, success exactly when the reader opens it, else the
/// reader's error; `None` for the kinds and layouts the library has no
/// reader of.
pub open spec fn validation_of(kind: ArchiveSchemaKind, path: Seq<char>, bytes: Seq<u8>, r: Option<Result<(), GfmError>>) -> bool {
    match kind {
        ArchiveSchemaKind::Prefixes => r matches Some(x) && match dir_parse(TermArchiveKind::Prefix, bytes) {
            Ok(_) => x is Ok,
            Err(e) => x matches Err(g) && is_store_error(g, TermArchiveKind::Prefix, path, e),
        },
        ArchiveSchemaKind::Substrings => r matches Some(x) && match dir_parse(TermArchiveKind::Substring, bytes) {
            Ok(_) => x is Ok,
            Err(e) => x matches Err(g) && is_store_error(g, TermArchiveKind::Substring, path, e),
        },
        ArchiveSchemaKind::Fuzzy => r matches Some(x) && match dir_parse(TermArchiveKind::Fuzzy, bytes) {
            Ok(_) => x is Ok,
            Err(e) => x matches Err(g) && is_store_error(g, TermArchiveKind::Fuzzy, path, e),
        },
        ArchiveSchemaKind::Content => if current_content_magic(bytes) {
            r matches Some(x) && match content_dir_parse(bytes) {
                Ok(_) => x is Ok,
                Err(f) => x matches Err(g) && is_archive_error(g, path, f),
            }
        } else {
            r is None
        },
        _ => r is None,
    }
}

/// Opens the archive `bytes` of `kind` read from `path` with the library's
/// reader of that kind, to tell whether it reads (see `validation_of`).
pub fn validate_archive_bytes(kind: ArchiveSchemaKind, path: &str, bytes: Vec<u8>) -> (r: Option<Result<(), GfmError>>)
    ensures
        validation_of(kind, path@, bytes@, r),
{
    let ghost b = bytes@;
    match kind {
        ArchiveSchemaKind::Prefixes => Some(
            match MmapPrefixArchive::open(path, bytes) {
                Ok(_) => Ok(()),
                Err(g) => Err(g),
            },
        ),
        ArchiveSchemaKind::Substrings => Some(
            match MmapSubstringArchive::open(path, bytes) {
                Ok(_) => Ok(()),
                Err(g) => Err(g),
            },
        ),
        ArchiveSchemaKind::Fuzzy => Some(
            match MmapFuzzyArchive::open(path, bytes) {
                Ok(_) => Ok(()),
                Err(g) => Err(g),
            },
        ),
        ArchiveSchemaKind::Content => {
            let current = crate::contentarchive::has_current_content_magic(bytes.as_slice());
            if current {
                Some(
                    match MmapContentArchive::open(path, bytes) {
                        Ok(_) => Ok(()),
                        Err(g) => Err(g),
                    },
                )
            } else {
                None
            }
        },
        _ => None,
    }
}

} // verus!
