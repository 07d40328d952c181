//! What a file watcher decides. The OS notification streams and the timers
//! live outside the library; what is here is the classification of one poll
//! of the watched file's stable path: unchanged, renamed, or gone.

use crate::rotated::base_name;
use vstd::prelude::*;

verus! {

/// A change to the watched file's identity.
#[derive(Debug)]
pub enum MetadataEvent {
    /// Nothing of note: the link still points where it did.
    Any,
    /// The file was renamed; the new path.
    Renamed(Vec<u8>),
    /// The file is gone. Terminal: polling stops.
    Removed,
}

/// What a watcher reports: the file's content grew, or its identity
/// changed.
pub enum ChangedEvent {
    Metadata(MetadataEvent),
    Content,
}

/// The marker a deleted file's link target ends in.
pub open spec fn deleted_marker() -> Seq<u8> {
    seq![40u8, 100u8, 101u8, 108u8, 101u8, 116u8, 101u8, 100u8, 41u8]
}

/// Does the path's file name carry the deletion marker at its end? A
/// deleted file's descriptor link resolves to a target like
/// `dir/name (deleted)`.
pub open spec fn marks_deleted(target: Seq<u8>) -> bool {
    &&& base_name(target).len() >= deleted_marker().len()
    &&& base_name(target).subrange(
        base_name(target).len() - deleted_marker().len(),
        base_name(target).len() as int,
    ) == deleted_marker()
}

/// Classifies one poll of the watched file's stable path. `link` is what
/// the stable path currently resolves to, or `None` when it cannot be read:
/// a failed read counts as a removal, fail-safe. A target that still equals
/// the last known path means nothing happened; one whose file name ends in
/// the deletion marker means the file is gone; any other target is a
/// rename to it.
pub fn classify_link_poll(known_path: &[u8], link: Option<Vec<u8>>) -> (r: MetadataEvent)
    ensures
        match link {
            None => r is Removed,
            Some(target) => if target@ == known_path@ {
                r is Any
            } else if marks_deleted(target@) {
                r is Removed
            } else {
                r matches MetadataEvent::Renamed(p) && p@ == target@
            },
        },
{
    match link {
        None => MetadataEvent::Removed,
        Some(target) => {
            if crate::bytes::bytes_eq(target.as_slice(), known_path) {
                MetadataEvent::Any
            } else {
                let name = crate::rotated::base_name_of(target.as_slice());
                let marker: [u8; 9] = [40, 100, 101, 108, 101, 116, 101, 100, 41];
                proof {
                    assert(marker@ =~= deleted_marker());
                }
                if crate::bytes::ends_with(name, marker.as_slice()) {
                    MetadataEvent::Removed
                } else {
                    MetadataEvent::Renamed(target)
                }
            }
        },
    }
}

} // verus!
