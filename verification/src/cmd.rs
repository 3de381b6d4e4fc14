//! The log command datatype: every mutation of the store is recorded as
//! exactly one `KvStoreCmd` appended to a segment file.

use vstd::prelude::*;

verus! {

/// Mathematical form of a log command: the key and value as character
/// sequences, free of any representation detail.
pub enum CmdView {
    Put { key: Seq<char>, val: Seq<char> },
    Rm { key: Seq<char> },
}

/// Payload of a `Set` command: an upsert of `key` to `val`.
#[derive(Clone, Debug)]
pub struct KvStoreSet {
    pub key: String,
    pub val: String,
}

/// Payload of a `Rm` command: a tombstone for `key`.
#[derive(Clone, Debug)]
pub struct KvStoreRm {
    pub key: String,
}

/// A mutating operation recorded in the log.  The log is the single source
/// of truth for key/value history; the in-memory index is always rebuilt
/// from these records.
#[derive(Clone, Debug)]
pub enum KvStoreCmd {
    Put(KvStoreSet),
    Rm(KvStoreRm),
}

impl View for KvStoreCmd {
    type V = CmdView;

    open spec fn view(&self) -> CmdView {
        match self {
            KvStoreCmd::Put(s) => CmdView::Put { key: s.key@, val: s.val@ },
            KvStoreCmd::Rm(r) => CmdView::Rm { key: r.key@ },
        }
    }
}

impl CmdView {
    /// The key the command touches.
    pub open spec fn key(self) -> Seq<char> {
        match self {
            CmdView::Put { key, .. } => key,
            CmdView::Rm { key } => key,
        }
    }
}

} // verus!
