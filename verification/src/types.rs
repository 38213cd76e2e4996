use vstd::prelude::*;

verus! {

/// A volume, by number.
#[derive(Debug, Clone, Copy, PartialEq, Eq, PartialOrd, Ord, Hash, Structural)]
pub struct VolumeId(pub u64);

/// A file: its volume and its node on that volume.
#[derive(Debug, Clone, Copy, PartialEq, Eq, PartialOrd, Ord, Hash, Structural)]
pub struct FileId {
    pub volume: VolumeId,
    pub node: u64,
}

impl FileId {
    /// The file `node` on `volume`.
    pub fn new(volume: VolumeId, node: u64) -> (id: FileId)
        ensures
            id == (FileId { volume, node }),
    {
        FileId { volume, node }
    }
}

/// The order of file ids: by volume, then by node.
pub open spec fn file_id_less(a: FileId, b: FileId) -> bool {
    a.volume.0 < b.volume.0 || (a.volume.0 == b.volume.0 && a.node < b.node)
}

/// Whether `a` comes before `b`.
pub fn file_id_lt(a: FileId, b: FileId) -> (r: bool)
    ensures
        r == file_id_less(a, b),
{
    a.volume.0 < b.volume.0 || (a.volume.0 == b.volume.0 && a.node < b.node)
}

/// What a file system entry is.
#[derive(Debug, Clone, Copy, PartialEq, Eq, PartialOrd, Ord, Hash, Structural)]
pub enum FileKind {
    Directory,
    File,
    Symlink,
    Other,
}

/// One file system entry as the store keeps it. Times are nanoseconds
/// since the Unix epoch.
#[derive(Debug, Clone, PartialEq, Eq)]
pub struct FileRecord {
    pub id: FileId,
    pub parent: Option<FileId>,
    pub path: String,
    pub name: String,
    pub kind: FileKind,
    pub len: u64,
    pub mode: u32,
    pub owner: u32,
    pub group: u32,
    pub xattrs_digest: u64,
    pub created: Option<u64>,
    pub modified: Option<u64>,
    pub changed: Option<u64>,
    pub hidden: bool,
    pub tags: Vec<String>,
    pub finder_comment: Option<String>,
}

/// The positions of a term in one file's content.
#[derive(Debug, Clone, PartialEq, Eq)]
pub struct ContentPositions {
    pub id: FileId,
    pub positions: Vec<u32>,
}

/// A content term: the files that hold it and, per file, where.
#[derive(Debug, Clone, PartialEq, Eq)]
pub struct ContentPosting {
    pub term: String,
    pub ids: Vec<FileId>,
    pub positions: Vec<ContentPositions>,
}

/// A batch of content changes: the files whose postings are withdrawn, and
/// new postings.
#[derive(Debug, Clone, PartialEq, Eq)]
pub struct ContentSegment {
    pub tombstones: Vec<FileId>,
    pub postings: Vec<ContentPosting>,
}

} // verus!
