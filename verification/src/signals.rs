//! Event descriptors for committed actions on file metadata.
//!
//! After a successful local create, update or delete, the core describes
//! the event; delivering it to peers is the notifier's business and
//! fire-and-forget from here.

use vstd::prelude::*;

use crate::metadata::FileMetadata;

verus! {

/// The kind of committed action a signal may describe.
#[derive(Clone, Copy, Debug, PartialEq, Eq, Structural)]
pub enum ActionKind {
    Create,
    Update,
    Delete,
}

/// What is announced to peers when file metadata changes.
pub enum Signal {
    /// A metadata record was created.
    FileMetadataCreated { app_entry: FileMetadata },
    /// A metadata record was superseded by a new version.
    FileMetadataUpdated { app_entry: FileMetadata, original_app_entry: FileMetadata },
    /// A metadata record was deleted.
    FileMetadataDeleted { original_app_entry: FileMetadata },
}

/// The signal a committed action gives rise to: a creation or update of
/// a metadata record signals the new entry (an update also the one it
/// supersedes), a deletion the deleted entry; an action that touches no
/// metadata record is silent.
pub fn signal_action(
    kind: ActionKind,
    entry: Option<FileMetadata>,
    original_entry: Option<FileMetadata>,
) -> (r: Option<Signal>)
    requires
        kind == ActionKind::Update && entry is Some ==> original_entry is Some,
    ensures
        kind == ActionKind::Create ==> r == (match entry {
            Some(m) => Some(Signal::FileMetadataCreated { app_entry: m }),
            None => None::<Signal>,
        }),
        kind == ActionKind::Update ==> r == (match (entry, original_entry) {
            (Some(m), Some(o)) => Some(
                Signal::FileMetadataUpdated { app_entry: m, original_app_entry: o },
            ),
            _ => None::<Signal>,
        }),
        kind == ActionKind::Delete ==> r == (match original_entry {
            Some(o) => Some(Signal::FileMetadataDeleted { original_app_entry: o }),
            None => None::<Signal>,
        }),
{
    match kind {
        ActionKind::Create => match entry {
            Some(m) => Some(Signal::FileMetadataCreated { app_entry: m }),
            None => None,
        },
        ActionKind::Update => match (entry, original_entry) {
            (Some(m), Some(o)) => Some(
                Signal::FileMetadataUpdated { app_entry: m, original_app_entry: o },
            ),
            _ => None,
        },
        ActionKind::Delete => match original_entry {
            Some(o) => Some(Signal::FileMetadataDeleted { original_app_entry: o }),
            None => None,
        },
    }
}

} // verus!
