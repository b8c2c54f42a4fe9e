//! Scanning a folder's tree again.
//!
//! A scan enters every regular file of a walk by a creation event. If the
//! same walk is queued a second time and nothing on disk has changed in
//! between, the records come out as they were, except that each record that
//! the scan writes has its version one higher.

use crate::database::{lemma_roots_injective, FileData, IndexView};
use crate::event_queue::{after_file_change, file_change_outcome, lemma_first_tracked,
    owning_folder, record_key, state_after, version_of, QueueEventView};
use crate::paths::{ancestors, lemma_stripped_joined};
use crate::sync_engine::{FileProbeView, FileStatView, FsEventKindView, ScannedFileView};
use vstd::prelude::*;

verus! {

/// The events that a walk is queued as: a creation for each listed path,
/// with what a look at the path gives.
pub open spec fn scan_batch(listing: Seq<ScannedFileView>) -> Seq<(QueueEventView, FileProbeView)> {
    Seq::new(
        listing.len(),
        |i: int|
            (
                QueueEventView::FileChanged {
                    path: listing[i].path,
                    kind: FsEventKindView::Create,
                },
                listing[i].probe,
            ),
    )
}

/// The index after a whole walk has been dealt with.
pub open spec fn after_scan(state: IndexView, listing: Seq<ScannedFileView>) -> IndexView {
    state_after(state, scan_batch(listing), listing.len() as int)
}

/// No path is listed twice.
pub open spec fn lists_each_path_once(listing: Seq<ScannedFileView>) -> bool {
    forall|i: int, j: int|
        0 <= i < j < listing.len() ==> (#[trigger] listing[i]).path != (#[trigger] listing[j]).path
}

/// What the first `n` entries of a walk have to write into the record
/// `key`: what was seen of the regular file that the record is about, if
/// one is listed.
pub open spec fn scan_writes(
    state: IndexView,
    listing: Seq<ScannedFileView>,
    n: int,
    key: (i64, Seq<char>),
) -> Option<FileStatView>
    decreases n,
{
    if n <= 0 {
        None
    } else if record_key(state, listing[n - 1].path) == Some(key) && listing[n
        - 1].probe is Regular {
        Some(listing[n - 1].probe->Regular_0)
    } else {
        scan_writes(state, listing, n - 1, key)
    }
}

/// Two paths with the same record are the same path.
pub proof fn lemma_record_key_injective(state: IndexView, a: Seq<char>, b: Seq<char>)
    requires
        state.well_formed(),
        record_key(state, a) is Some,
        record_key(state, a) == record_key(state, b),
    ensures
        a == b,
{
    lemma_first_tracked(state.roots(), ancestors(a));
    lemma_first_tracked(state.roots(), ancestors(b));
    let (id_a, root_a) = owning_folder(state, a)->0;
    let (id_b, root_b) = owning_folder(state, b)->0;
    lemma_roots_injective(state, root_a, root_b);
    lemma_stripped_joined(a, root_a);
    lemma_stripped_joined(b, root_b);
}

/// A record that none of the first `n` entries is about is not written.
proof fn lemma_not_listed_not_written(
    state: IndexView,
    listing: Seq<ScannedFileView>,
    n: int,
    key: (i64, Seq<char>),
)
    requires
        0 <= n <= listing.len(),
        forall|i: int| 0 <= i < n ==> record_key(state, (#[trigger] listing[i]).path) != Some(key),
    ensures
        scan_writes(state, listing, n, key) is None,
    decreases n,
{
    if n > 0 {
        assert(record_key(state, listing[n - 1].path) != Some(key));
        lemma_not_listed_not_written(state, listing, n - 1, key);
    }
}

/// What a scan writes depends on the folders alone.
proof fn lemma_scan_writes_by_folders(
    a: IndexView,
    b: IndexView,
    listing: Seq<ScannedFileView>,
    n: int,
    key: (i64, Seq<char>),
)
    requires
        a.folders == b.folders,
    ensures
        scan_writes(a, listing, n, key) == scan_writes(b, listing, n, key),
    decreases n,
{
    if n > 0 {
        assert(a.roots() == b.roots());
        lemma_scan_writes_by_folders(a, b, listing, n - 1, key);
    }
}

/// What the index holds after the first `n` entries of a walk: the folders
/// and the device identifier as before, and each record either as before or,
/// where the walk lists its file, as seen and with the next version.
pub proof fn lemma_scan_effect(state: IndexView, listing: Seq<ScannedFileView>, n: int)
    requires
        state.well_formed(),
        lists_each_path_once(listing),
        0 <= n <= listing.len(),
        forall|key: (i64, Seq<char>)|
            (#[trigger] scan_writes(state, listing, n, key)) is Some ==> state.next_version(
                key.0,
                key.1,
            ) <= u64::MAX,
    ensures
        ({
            let after = state_after(state, scan_batch(listing), n);
            &&& after.folders == state.folders
            &&& after.device_id == state.device_id
            &&& after.last_folder_id == state.last_folder_id
            &&& forall|key: (i64, Seq<char>)|
                #[trigger] after.files.contains_key(key) <==> state.files.contains_key(key)
                    || scan_writes(state, listing, n, key) is Some
            &&& forall|key: (i64, Seq<char>)|
                after.files.contains_key(key) ==> #[trigger] after.files[key] == (match scan_writes(
                    state,
                    listing,
                    n,
                    key,
                ) {
                    Some(stat) => FileData {
                        last_modified_secs: stat.modified_secs,
                        size_bytes: stat.size,
                        sha256_hash: Some(stat.hash),
                        version: state.next_version(key.0, key.1) as u64,
                    },
                    None => state.files[key],
                })
        }),
    decreases n,
{
    if n > 0 {
        let item = listing[n - 1];
        let batch = scan_batch(listing);
        let before = state_after(state, batch, n - 1);
        let after = state_after(state, batch, n);
        assert forall|key: (i64, Seq<char>)|
            (#[trigger] scan_writes(state, listing, n - 1, key)) is Some implies state.next_version(
            key.0,
            key.1,
        ) <= u64::MAX by {
            assert(scan_writes(state, listing, n, key) is Some);
        }
        lemma_scan_effect(state, listing, n - 1);
        assert(batch[n - 1] == (
            QueueEventView::FileChanged { path: item.path, kind: FsEventKindView::Create },
            item.probe,
        ));
        assert(after == after_file_change(before, item.path, FsEventKindView::Create, item.probe));
        assert(before.roots() == state.roots());
        assert(record_key(before, item.path) == record_key(state, item.path));
        if record_key(state, item.path) is Some && item.probe is Regular {
            let key = record_key(state, item.path)->0;
            assert forall|i: int| 0 <= i < n - 1 implies record_key(
                state,
                (#[trigger] listing[i]).path,
            ) != Some(key) by {
                if record_key(state, listing[i].path) == Some(key) {
                    lemma_record_key_injective(state, listing[i].path, item.path);
                    assert(listing[i].path != listing[n - 1].path);
                }
            }
            lemma_not_listed_not_written(state, listing, n - 1, key);
            assert(scan_writes(state, listing, n, key) is Some);
            assert(before.files.contains_key(key) == state.files.contains_key(key));
            assert(before.next_version(key.0, key.1) == state.next_version(key.0, key.1));
            assert(file_change_outcome(before, item.path, FsEventKindView::Create, item.probe)
                is Upserted);
            assert forall|q: (i64, Seq<char>)| q != key implies scan_writes(state, listing, n, q)
                == scan_writes(state, listing, n - 1, q) by {}
        } else {
            assert(after == before);
            assert forall|q: (i64, Seq<char>)|
                scan_writes(state, listing, n, q) == scan_writes(state, listing, n - 1, q) by {}
        }
    }
}

/// A folder whose tree has not changed can be scanned again: the second
/// scan leaves the folders and the set of records as the first left them,
/// and each record that the scan writes is as it was with its version one
/// higher. Every other record is as it was.
pub proof fn lemma_rescan(state: IndexView, listing: Seq<ScannedFileView>)
    requires
        state.well_formed(),
        lists_each_path_once(listing),
        forall|key: (i64, Seq<char>)|
            (#[trigger] scan_writes(state, listing, listing.len() as int, key)) is Some
                ==> version_of(state, key) + 2 <= u64::MAX,
    ensures
        ({
            let once = after_scan(state, listing);
            let twice = after_scan(once, listing);
            &&& twice.folders == once.folders
            &&& twice.device_id == once.device_id
            &&& forall|key: (i64, Seq<char>)|
                #[trigger] twice.files.contains_key(key) <==> once.files.contains_key(key)
            &&& forall|key: (i64, Seq<char>)|
                once.files.contains_key(key) ==> #[trigger] twice.files[key] == (if scan_writes(
                    state,
                    listing,
                    listing.len() as int,
                    key,
                ) is Some {
                    FileData {
                        last_modified_secs: once.files[key].last_modified_secs,
                        size_bytes: once.files[key].size_bytes,
                        sha256_hash: once.files[key].sha256_hash,
                        version: (once.files[key].version + 1) as u64,
                    }
                } else {
                    once.files[key]
                })
        }),
{
    let n = listing.len() as int;
    let once = after_scan(state, listing);
    assert forall|key: (i64, Seq<char>)|
        (#[trigger] scan_writes(state, listing, n, key)) is Some implies state.next_version(
        key.0,
        key.1,
    ) <= u64::MAX by {}
    lemma_scan_effect(state, listing, n);
    assert forall|key: (i64, Seq<char>)|
        (#[trigger] scan_writes(once, listing, n, key)) is Some implies once.next_version(
        key.0,
        key.1,
    ) <= u64::MAX by {
        lemma_scan_writes_by_folders(once, state, listing, n, key);
        assert(scan_writes(state, listing, n, key) is Some);
        assert(once.files.contains_key(key));
    }
    lemma_scan_effect(once, listing, n);
    let twice = after_scan(once, listing);
    assert forall|key: (i64, Seq<char>)| #[trigger]
        twice.files.contains_key(key) <==> once.files.contains_key(key) by {
        lemma_scan_writes_by_folders(once, state, listing, n, key);
    }
    assert forall|key: (i64, Seq<char>)| once.files.contains_key(key) implies #[trigger] twice.files[key]
        == (if scan_writes(state, listing, n, key) is Some {
        FileData {
            last_modified_secs: once.files[key].last_modified_secs,
            size_bytes: once.files[key].size_bytes,
            sha256_hash: once.files[key].sha256_hash,
            version: (once.files[key].version + 1) as u64,
        }
    } else {
        once.files[key]
    }) by {
        lemma_scan_writes_by_folders(once, state, listing, n, key);
        assert(twice.files.contains_key(key));
    }
}

} // verus!
