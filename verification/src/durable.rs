use vstd::prelude::*;

use crate::text::{bool_text, decimal, push_bool, push_decimal};

verus! {

/// What an atomic write did: the file it published, the temporary file it
/// wrote first, how many bytes, and which syncs succeeded.
#[derive(Debug, Clone, PartialEq, Eq)]
pub struct DurableCommit {
    pub path: String,
    pub temporary: String,
    pub bytes: u64,
    pub synced_file: bool,
    pub synced_parent: bool,
}

impl DurableCommit {
    /// `durable-commit` line: path, temporary path, bytes and sync flags.
    pub fn as_tsv(&self) -> (s: String)
        ensures
            s@ == "durable-commit\tpath="@ + self.path@ + "\ttemporary="@ + self.temporary@
                + "\tbytes="@ + decimal(self.bytes as nat) + "\tsynced-file="@ + bool_text(
                self.synced_file,
            ) + "\tsynced-parent="@ + bool_text(self.synced_parent),
    {
        let mut s = String::from_str("durable-commit\tpath=");
        s.append(self.path.as_str());
        s.append("\ttemporary=");
        s.append(self.temporary.as_str());
        s.append("\tbytes=");
        push_decimal(&mut s, self.bytes);
        s.append("\tsynced-file=");
        push_bool(&mut s, self.synced_file);
        s.append("\tsynced-parent=");
        push_bool(&mut s, self.synced_parent);
        s
    }
}

} // verus!
