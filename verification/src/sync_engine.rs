//! The in-memory view of the tracked folders: what is known of the files
//! below each root, and how one observed change alters it.

use crate::assoc::{as_map, distinct_keys, lemma_as_map_absent, lemma_as_map_at, lemma_as_map_empty,
    lemma_as_map_len, lemma_as_map_push, lemma_as_map_remove, lemma_as_map_update};
use crate::hashing::{content_hash, ContentHasher, CHUNK_SIZE};
use vstd::prelude::*;
use vstd::slice::slice_subrange;

verus! {

/// The text of an optional string.
pub open spec fn text_of(s: Option<String>) -> Option<Seq<char>> {
    match s {
        Some(t) => Some(t@),
        None => None,
    }
}

/// What happened to a file.
#[derive(Debug)]
pub enum FsEventKind {
    Create,
    Modify,
    Remove,
    Rename { old_path: String, new_path: String },
}

/// An `FsEventKind` with its paths as text.
pub enum FsEventKindView {
    Create,
    Modify,
    Remove,
    Rename { old_path: Seq<char>, new_path: Seq<char> },
}

impl View for FsEventKind {
    type V = FsEventKindView;

    open spec fn view(&self) -> FsEventKindView {
        match *self {
            FsEventKind::Create => FsEventKindView::Create,
            FsEventKind::Modify => FsEventKindView::Modify,
            FsEventKind::Remove => FsEventKindView::Remove,
            FsEventKind::Rename { old_path, new_path } => FsEventKindView::Rename {
                old_path: old_path@,
                new_path: new_path@,
            },
        }
    }
}

impl Clone for FsEventKind {
    fn clone(&self) -> (r: Self)
        ensures
            r == *self,
    {
        match self {
            FsEventKind::Create => FsEventKind::Create,
            FsEventKind::Modify => FsEventKind::Modify,
            FsEventKind::Remove => FsEventKind::Remove,
            FsEventKind::Rename { old_path, new_path } => FsEventKind::Rename {
                old_path: old_path.clone(),
                new_path: new_path.clone(),
            },
        }
    }
}

/// The last known state of one file.
#[derive(Debug)]
pub struct FileEntry {
    /// The file's absolute path.
    pub path: String,
    /// When it was last modified, in seconds since the Unix epoch.
    pub last_modified: u64,
    /// Its size in bytes.
    pub size: u64,
    /// The fingerprint of its content, once computed.
    pub hash: Option<String>,
    /// How often the entry has been written.
    pub version: u64,
}

/// A `FileEntry` with its strings as text.
pub struct FileEntryView {
    pub path: Seq<char>,
    pub last_modified: u64,
    pub size: u64,
    pub hash: Option<Seq<char>>,
    pub version: u64,
}

impl View for FileEntry {
    type V = FileEntryView;

    open spec fn view(&self) -> FileEntryView {
        FileEntryView {
            path: self.path@,
            last_modified: self.last_modified,
            size: self.size,
            hash: text_of(self.hash),
            version: self.version,
        }
    }
}

impl Clone for FileEntry {
    fn clone(&self) -> (r: Self)
        ensures
            r == *self,
    {
        FileEntry {
            path: self.path.clone(),
            last_modified: self.last_modified,
            size: self.size,
            hash: match &self.hash {
                Some(h) => Some(h.clone()),
                None => None,
            },
            version: self.version,
        }
    }
}

/// The files known below one root, by absolute path. Each entry is kept
/// under its own path, and no path is kept twice.
#[derive(Debug)]
pub struct FileMap {
    entries: Vec<FileEntry>,
}

/// The entries of a vector as pairs of path and entry.
pub open spec fn entry_pairs(entries: Seq<FileEntry>) -> Seq<(Seq<char>, FileEntryView)> {
    Seq::new(entries.len(), |i: int| (entries[i].path@, entries[i]@))
}

impl View for FileMap {
    type V = Map<Seq<char>, FileEntryView>;

    closed spec fn view(&self) -> Map<Seq<char>, FileEntryView> {
        as_map(entry_pairs(self.entries@))
    }
}

impl FileMap {
    #[verifier::type_invariant]
    spec fn distinct_paths(&self) -> bool {
        distinct_keys(entry_pairs(self.entries@))
    }

    /// A map without entries.
    pub fn new() -> (map: Self)
        ensures
            map@ == Map::<Seq<char>, FileEntryView>::empty(),
    {
        proof {
            lemma_as_map_empty::<Seq<char>, FileEntryView>();
            assert(entry_pairs(Seq::<FileEntry>::empty()) =~= Seq::empty());
        }
        FileMap { entries: Vec::new() }
    }

    /// Where the entry for `path` stands, if there is one.
    fn position(&self, path: &str) -> (r: Option<usize>)
        ensures
            match r {
                Some(i) => i < self.entries@.len() && self.entries@[i as int].path@ == path@,
                None => forall|j: int|
                    0 <= j < self.entries@.len() ==> (#[trigger] self.entries@[j]).path@ != path@,
            },
    {
        let wanted: String = path.to_owned();
        let mut i: usize = 0;
        while i < self.entries.len()
            invariant
                i <= self.entries@.len(),
                wanted@ == path@,
                forall|j: int| 0 <= j < i ==> (#[trigger] self.entries@[j]).path@ != path@,
            decreases self.entries@.len() - i,
        {
            if self.entries[i].path == wanted {
                return Some(i);
            }
            i = i + 1;
        }
        None
    }

    /// The number of entries.
    pub fn len(&self) -> (n: usize)
        ensures
            self@.dom().finite(),
            n == self@.dom().len(),
    {
        proof {
            use_type_invariant(self);
            lemma_as_map_len(entry_pairs(self.entries@));
        }
        self.entries.len()
    }

    /// The entry kept for `path`.
    pub fn get(&self, path: &str) -> (r: Option<&FileEntry>)
        ensures
            match r {
                Some(entry) => self@.contains_key(path@) && entry@ == self@[path@],
                None => !self@.contains_key(path@),
            },
    {
        proof {
            use_type_invariant(self);
        }
        match self.position(path) {
            Some(i) => {
                proof {
                    lemma_as_map_at(entry_pairs(self.entries@), i as int);
                }
                Some(&self.entries[i])
            },
            None => {
                proof {
                    lemma_as_map_absent(entry_pairs(self.entries@), path@);
                }
                None
            },
        }
    }

    /// Whether an entry is kept for `path`.
    pub fn contains_key(&self, path: &str) -> (r: bool)
        ensures
            r == self@.contains_key(path@),
    {
        self.get(path).is_some()
    }

    /// Takes the entries out and leaves none behind.
    fn take_entries(&mut self) -> (entries: Vec<FileEntry>)
        ensures
            entries == old(self).entries,
            distinct_keys(entry_pairs(entries@)),
    {
        proof {
            use_type_invariant(&*self);
            assert(entry_pairs(Seq::<FileEntry>::empty()) =~= Seq::empty());
        }
        let mut entries: Vec<FileEntry> = Vec::new();
        core::mem::swap(&mut self.entries, &mut entries);
        entries
    }

    /// Keeps `entry` under its path, in place of what was kept there.
    pub fn insert(&mut self, entry: FileEntry)
        ensures
            final(self)@ == old(self)@.insert(entry.path@, entry@),
    {
        let found = self.position(entry.path.as_str());
        let mut entries = self.take_entries();
        let ghost before = entry_pairs(entries@);
        match found {
            Some(i) => {
                proof {
                    lemma_as_map_update(before, i as int, entry@);
                    assert(entry_pairs(entries@.update(i as int, entry)) =~= before.update(
                        i as int,
                        (before[i as int].0, entry@),
                    ));
                }
                entries[i] = entry;
            },
            None => {
                proof {
                    lemma_as_map_absent(before, entry.path@);
                    lemma_as_map_push(before, entry.path@, entry@);
                    assert(entry_pairs(entries@.push(entry)) =~= before.push(
                        (entry.path@, entry@),
                    ));
                }
                entries.push(entry);
            },
        }
        self.entries = entries;
    }

    /// Drops the entry kept for `path` and hands it out.
    pub fn remove(&mut self, path: &str) -> (r: Option<FileEntry>)
        ensures
            final(self)@ == old(self)@.remove(path@),
            match r {
                Some(entry) => old(self)@.contains_key(path@) && entry@ == old(self)@[path@],
                None => !old(self)@.contains_key(path@),
            },
    {
        let found = self.position(path);
        let mut entries = self.take_entries();
        let ghost before = entry_pairs(entries@);
        let removed = match found {
            Some(i) => {
                proof {
                    lemma_as_map_at(before, i as int);
                    lemma_as_map_remove(before, i as int);
                    assert(entry_pairs(entries@.remove(i as int)) =~= before.remove(i as int));
                }
                Some(entries.remove(i))
            },
            None => {
                proof {
                    lemma_as_map_absent(before, path@);
                    assert(as_map(before).remove(path@) =~= as_map(before));
                }
                None
            },
        };
        self.entries = entries;
        removed
    }

    /// Drops every entry.
    pub fn clear(&mut self)
        ensures
            final(self)@ == Map::<Seq<char>, FileEntryView>::empty(),
    {
        proof {
            lemma_as_map_empty::<Seq<char>, FileEntryView>();
            assert(entry_pairs(Seq::<FileEntry>::empty()) =~= Seq::empty());
        }
        self.entries = Vec::new();
    }
}

/// What a look at a file on disk gave: its size, when it was last modified
/// (seconds since the Unix epoch) and the fingerprint of its content.
#[derive(Debug)]
pub struct FileStat {
    pub size: u64,
    pub modified_secs: u64,
    pub hash: String,
}

/// A `FileStat` with its fingerprint as text.
pub struct FileStatView {
    pub size: u64,
    pub modified_secs: u64,
    pub hash: Seq<char>,
}

impl View for FileStat {
    type V = FileStatView;

    open spec fn view(&self) -> FileStatView {
        FileStatView { size: self.size, modified_secs: self.modified_secs, hash: self.hash@ }
    }
}

/// What became of the attempt to look at a path on disk.
#[derive(Debug)]
pub enum FileProbe {
    /// There is no regular file at the path.
    NotAFile,
    /// There is one, but its metadata or its content could not be read.
    Unreadable,
    /// There is one, and this was read of it.
    Regular(FileStat),
}

/// A `FileProbe` with its fingerprint as text.
pub enum FileProbeView {
    NotAFile,
    Unreadable,
    Regular(FileStatView),
}

impl View for FileProbe {
    type V = FileProbeView;

    open spec fn view(&self) -> FileProbeView {
        match *self {
            FileProbe::NotAFile => FileProbeView::NotAFile,
            FileProbe::Unreadable => FileProbeView::Unreadable,
            FileProbe::Regular(stat) => FileProbeView::Regular(stat@),
        }
    }
}

/// One path that a walk through a directory tree came by, and what a look
/// at it gave.
#[derive(Debug)]
pub struct ScannedFile {
    pub path: String,
    pub probe: FileProbe,
}

/// A `ScannedFile` as text.
pub struct ScannedFileView {
    pub path: Seq<char>,
    pub probe: FileProbeView,
}

impl View for ScannedFile {
    type V = ScannedFileView;

    open spec fn view(&self) -> ScannedFileView {
        ScannedFileView { path: self.path@, probe: self.probe@ }
    }
}

/// The listing of a walk as text.
pub open spec fn listing_view(listing: Seq<ScannedFile>) -> Seq<ScannedFileView> {
    Seq::new(listing.len(), |i: int| listing[i]@)
}

/// Why a change could not be applied.
#[derive(Debug)]
pub enum SyncError {
    /// The file at `path` is there but could not be read.
    Unreadable { path: String },
    /// The entry for `path` has been written so often that its version
    /// cannot be counted further.
    VersionExhausted { path: String },
}

/// A `SyncError` as text.
pub enum SyncErrorView {
    Unreadable { path: Seq<char> },
    VersionExhausted { path: Seq<char> },
}

impl View for SyncError {
    type V = SyncErrorView;

    open spec fn view(&self) -> SyncErrorView {
        match *self {
            SyncError::Unreadable { path } => SyncErrorView::Unreadable { path: path@ },
            SyncError::VersionExhausted { path } => SyncErrorView::VersionExhausted {
                path: path@,
            },
        }
    }
}

/// The error of a result as text; none for a success.
pub open spec fn failure_of(r: Result<(), SyncError>) -> Option<SyncErrorView> {
    match r {
        Ok(_) => None,
        Err(e) => Some(e@),
    }
}

/// The version that the next write of the entry for `path` gets: 1 for a
/// path not known, else one more than the entry has.
pub open spec fn next_entry_version(files: Map<Seq<char>, FileEntryView>, path: Seq<char>)
    -> int {
    if files.contains_key(path) {
        files[path].version + 1
    } else {
        1
    }
}

/// The entry that stands for a file just seen at `path`, written at
/// `version`.
pub open spec fn observed_entry(path: Seq<char>, stat: FileStatView, version: u64)
    -> FileEntryView {
    FileEntryView {
        path,
        last_modified: stat.modified_secs,
        size: stat.size,
        hash: Some(stat.hash),
        version,
    }
}

/// Why what was seen at `path` cannot be entered, if it cannot: the file is
/// unreadable, or it is a regular file whose entry in `files` cannot count
/// its version further.
pub open spec fn entry_refused(
    files: Map<Seq<char>, FileEntryView>,
    path: Seq<char>,
    probe: FileProbeView,
) -> Option<SyncErrorView> {
    match probe {
        FileProbeView::NotAFile => None,
        FileProbeView::Unreadable => Some(SyncErrorView::Unreadable { path }),
        FileProbeView::Regular(_) => if next_entry_version(files, path) > u64::MAX {
            Some(SyncErrorView::VersionExhausted { path })
        } else {
            None
        },
    }
}

/// `k` is where a scan of `listing` stops: at the first file that cannot be
/// entered, or at the end. `before` is what the folder held before the scan.
pub open spec fn is_scan_stop(
    before: Map<Seq<char>, FileEntryView>,
    listing: Seq<ScannedFileView>,
    k: int,
) -> bool {
    &&& 0 <= k <= listing.len()
    &&& forall|j: int|
        0 <= j < k ==> entry_refused(before, (#[trigger] listing[j]).path, listing[j].probe)
            is None
    &&& k < listing.len() ==> entry_refused(before, listing[k].path, listing[k].probe) is Some
}

/// Where a scan of `listing` stops.
pub open spec fn scan_stop(before: Map<Seq<char>, FileEntryView>, listing: Seq<ScannedFileView>)
    -> int {
    choose|k: int| is_scan_stop(before, listing, k)
}

/// A scan stops at one place only.
pub proof fn lemma_scan_stop(
    before: Map<Seq<char>, FileEntryView>,
    listing: Seq<ScannedFileView>,
    k: int,
)
    requires
        is_scan_stop(before, listing, k),
    ensures
        scan_stop(before, listing) == k,
{
    let c = scan_stop(before, listing);
    assert(is_scan_stop(before, listing, c));
    if c < k {
        assert(entry_refused(before, listing[c].path, listing[c].probe) is None);
    } else if k < c {
        assert(entry_refused(before, listing[k].path, listing[k].probe) is None);
    }
}

/// The error that a scan of `listing` ends with: that of the file it stops
/// at, and none where it reaches the end.
pub open spec fn scan_failure(
    before: Map<Seq<char>, FileEntryView>,
    listing: Seq<ScannedFileView>,
) -> Option<SyncErrorView> {
    let k = scan_stop(before, listing);
    if k < listing.len() {
        entry_refused(before, listing[k].path, listing[k].probe)
    } else {
        None
    }
}

/// The files that a scan enters for `listing`, given what the folder held
/// `before`: one entry for each regular file, a later one in place of an
/// earlier one with its path. A file that the folder knew is entered with
/// its version one higher, a new file at version 1; what is not listed is
/// not entered.
pub open spec fn scanned(before: Map<Seq<char>, FileEntryView>, listing: Seq<ScannedFileView>)
    -> Map<Seq<char>, FileEntryView>
    decreases listing.len(),
{
    if listing.len() == 0 {
        Map::empty()
    } else {
        let earlier = scanned(before, listing.drop_last());
        match listing.last().probe {
            FileProbeView::Regular(stat) => earlier.insert(
                listing.last().path,
                observed_entry(
                    listing.last().path,
                    stat,
                    next_entry_version(before, listing.last().path) as u64,
                ),
            ),
            _ => earlier,
        }
    }
}

/// What a scan enters for a path: its path, what was last seen of it, and
/// the version after the one the folder held before.
pub proof fn lemma_scanned_entry(
    before: Map<Seq<char>, FileEntryView>,
    listing: Seq<ScannedFileView>,
    path: Seq<char>,
)
    requires
        scanned(before, listing).contains_key(path),
    ensures
        scanned(before, listing)[path].path == path,
        scanned(before, listing)[path].version == next_entry_version(before, path) as u64,
    decreases listing.len(),
{
    if listing.len() > 0 {
        let last = listing.last();
        if !(last.probe is Regular && last.path == path) {
            lemma_scanned_entry(before, listing.drop_last(), path);
        }
    }
}

/// Which files a scan enters, and what it enters of them beside the
/// version, does not depend on what the folder held before.
pub proof fn lemma_scanned_same_files(
    a: Map<Seq<char>, FileEntryView>,
    b: Map<Seq<char>, FileEntryView>,
    listing: Seq<ScannedFileView>,
)
    ensures
        scanned(a, listing).dom() == scanned(b, listing).dom(),
        forall|path: Seq<char>| #[trigger]
            scanned(a, listing).contains_key(path) ==> {
                &&& scanned(a, listing)[path].last_modified == scanned(b, listing)[path].last_modified
                &&& scanned(a, listing)[path].size == scanned(b, listing)[path].size
                &&& scanned(a, listing)[path].hash == scanned(b, listing)[path].hash
            },
    decreases listing.len(),
{
    if listing.len() > 0 {
        lemma_scanned_same_files(a, b, listing.drop_last());
    }
    assert(scanned(a, listing).dom() =~= scanned(b, listing).dom());
}

/// Scanning an unchanged tree again: where both scans reach the end of the
/// listing, the second leaves the entries of the first, each as it was but
/// for its version, which is one higher.
pub proof fn lemma_scan_again(before: Map<Seq<char>, FileEntryView>, listing: Seq<ScannedFileView>)
    requires
        scan_stop(before, listing) == listing.len(),
        scan_stop(scanned(before, listing), listing) == listing.len(),
    ensures
        ({
            let once = scanned(before, listing);
            let twice = scanned(once, listing);
            &&& twice.dom() == once.dom()
            &&& forall|path: Seq<char>| #[trigger]
                once.contains_key(path) ==> twice[path] == (FileEntryView {
                    version: (once[path].version + 1) as u64,
                    ..once[path]
                })
        }),
{
    let once = scanned(before, listing);
    let twice = scanned(once, listing);
    lemma_scanned_same_files(once, before, listing);
    assert forall|path: Seq<char>| #[trigger] once.contains_key(path) implies twice[path] == (
    FileEntryView { version: (once[path].version + 1) as u64, ..once[path] }) by {
        assert(twice.contains_key(path));
        lemma_scanned_entry(once, listing, path);
        lemma_scanned_entry(before, listing, path);
    }
}

/// Why a change cannot be applied, if it cannot: a created or modified file
/// that cannot be entered.
pub open spec fn change_refused(
    files: Map<Seq<char>, FileEntryView>,
    path: Seq<char>,
    kind: FsEventKindView,
    probe: FileProbeView,
) -> Option<SyncErrorView> {
    if kind is Create || kind is Modify {
        entry_refused(files, path, probe)
    } else {
        None
    }
}

/// The files of a folder after one change has been applied to them.
///
/// A created or modified file is entered as it was seen, if it is a regular
/// file that could be read: at version 1 where the path was not known, else
/// with the version one higher; an entry whose version cannot go higher is
/// left as it is. A removed file leaves. A renamed file moves to its new
/// path with all else kept, the version too; where nothing is known under
/// the old path, nothing happens.
pub open spec fn changed_files(
    files: Map<Seq<char>, FileEntryView>,
    path: Seq<char>,
    kind: FsEventKindView,
    probe: FileProbeView,
) -> Map<Seq<char>, FileEntryView> {
    match kind {
        FsEventKindView::Create | FsEventKindView::Modify => match probe {
            FileProbeView::Regular(stat) => if next_entry_version(files, path) > u64::MAX {
                files
            } else {
                files.insert(
                    path,
                    observed_entry(path, stat, next_entry_version(files, path) as u64),
                )
            },
            _ => files,
        },
        FsEventKindView::Remove => files.remove(path),
        FsEventKindView::Rename { old_path, new_path } => if files.contains_key(old_path) {
            files.remove(old_path).insert(
                new_path,
                FileEntryView {
                    path: new_path,
                    last_modified: files[old_path].last_modified,
                    size: files[old_path].size,
                    hash: files[old_path].hash,
                    version: files[old_path].version,
                },
            )
        } else {
            files
        },
    }
}

/// A folder being synced.
#[derive(Debug)]
pub struct SyncFolder {
    pub id: String,
    pub name: String,
    pub path: String,
    pub files: FileMap,
}

impl SyncFolder {
    /// A folder of which no file is known yet.
    pub fn new(id: String, name: String, path: String) -> (folder: Self)
        ensures
            folder.id == id,
            folder.name == name,
            folder.path == path,
            folder.files@ == Map::<Seq<char>, FileEntryView>::empty(),
    {
        SyncFolder { id, name, path, files: FileMap::new() }
    }

    /// Whether `other` is this folder with, possibly, other files.
    pub open spec fn same_root(&self, other: &SyncFolder) -> bool {
        self.id == other.id && self.name == other.name && self.path == other.path
    }
}

/// The folders being synced, each with what is known of its files.
pub struct SyncEngine {
    pub folders: Vec<SyncFolder>,
}

impl SyncEngine {
    /// An engine without folders.
    pub fn new() -> (engine: Self)
        ensures
            engine.folders@.len() == 0,
    {
        SyncEngine { folders: Vec::new() }
    }

    /// Takes `folder` in behind the folders already there. This cannot fail.
    pub fn add_folder(&mut self, folder: SyncFolder) -> (r: Result<(), SyncError>)
        ensures
            r is Ok,
            final(self).folders@ == old(self).folders@.push(folder),
    {
        self.folders.push(folder);
        Ok(())
    }

    /// Whether `other` has the same folders as this engine but for the files
    /// of the one at `index`.
    pub open spec fn same_but_files_at(&self, other: &SyncEngine, index: int) -> bool {
        &&& self.folders@.len() == other.folders@.len()
        &&& forall|j: int|
            0 <= j < self.folders@.len() && j != index ==> self.folders@[j] == other.folders@[j]
        &&& 0 <= index < self.folders@.len() ==> self.folders@[index].same_root(
            &other.folders@[index],
        )
    }

    /// Replaces what is known of the files of the folder at `folder_index`
    /// by what a walk through its tree found.
    ///
    /// A file that the folder knew before is entered with its version one
    /// higher, a new file at version 1, and a file that is not listed any
    /// more leaves. The listing is taken in order up to the first file that
    /// cannot be entered; if there is one, the scan fails on it, and the
    /// folder holds the files that came before it.
    pub fn scan_folder(&mut self, folder_index: usize, listing: &Vec<ScannedFile>) -> (r: Result<
        (),
        SyncError,
    >)
        requires
            folder_index < old(self).folders@.len(),
        ensures
            final(self).same_but_files_at(old(self), folder_index as int),
            final(self).folders@[folder_index as int].files@ == scanned(
                old(self).folders@[folder_index as int].files@,
                listing_view(listing@).subrange(
                    0,
                    scan_stop(
                        old(self).folders@[folder_index as int].files@,
                        listing_view(listing@),
                    ),
                ),
            ),
            failure_of(r) == scan_failure(
                old(self).folders@[folder_index as int].files@,
                listing_view(listing@),
            ),
    {
        let ghost items = listing_view(listing@);
        let ghost before = self.folders@[folder_index as int].files@;
        let mut found = FileMap::new();
        let mut failure: Option<SyncError> = None;
        assert(items.subrange(0, 0) =~= Seq::empty());
        let mut i: usize = 0;
        while i < listing.len() && failure.is_none()
            invariant
                i <= listing@.len(),
                items == listing_view(listing@),
                folder_index < self.folders@.len(),
                *self == *old(self),
                before == self.folders@[folder_index as int].files@,
                forall|j: int|
                    0 <= j < i ==> entry_refused(before, (#[trigger] items[j]).path, items[j].probe)
                        is None,
                match failure {
                    Some(e) => i < listing@.len() && entry_refused(
                        before,
                        items[i as int].path,
                        items[i as int].probe,
                    ) == Some(e@),
                    None => true,
                },
                found@ == scanned(before, items.subrange(0, i as int)),
            decreases listing@.len() - i + (if failure is None { 1int } else { 0int }),
        {
            let item = &listing[i];
            proof {
                assert(items[i as int] == item@);
                assert(items.subrange(0, i + 1).drop_last() =~= items.subrange(0, i as int));
                assert(items.subrange(0, i + 1).last() == items[i as int]);
            }
            match &item.probe {
                FileProbe::NotAFile => {
                    i = i + 1;
                },
                FileProbe::Unreadable => {
                    failure = Some(SyncError::Unreadable { path: item.path.clone() });
                },
                FileProbe::Regular(stat) => {
                    let known: u64 = match self.folders[folder_index].files.get(
                        item.path.as_str(),
                    ) {
                        Some(entry) => entry.version,
                        None => 0,
                    };
                    if known == u64::MAX {
                        failure = Some(SyncError::VersionExhausted { path: item.path.clone() });
                    } else {
                        found.insert(
                            FileEntry {
                                path: item.path.clone(),
                                last_modified: stat.modified_secs,
                                size: stat.size,
                                hash: Some(stat.hash.clone()),
                                version: known + 1,
                            },
                        );
                        i = i + 1;
                    }
                },
            }
        }
        proof {
            lemma_scan_stop(before, items, i as int);
        }
        self.folders[folder_index].files = found;
        match failure {
            Some(e) => Err(e),
            None => Ok(()),
        }
    }

    /// Applies one change at `event_path` to the folder at `folder_index`.
    /// `probe` says what a look at `event_path` gave; only a created or
    /// modified file is looked at.
    pub fn handle_fs_change(
        &mut self,
        folder_index: usize,
        event_path: &str,
        event_kind: FsEventKind,
        probe: &FileProbe,
    ) -> (r: Result<(), SyncError>)
        requires
            folder_index < old(self).folders@.len(),
        ensures
            final(self).same_but_files_at(old(self), folder_index as int),
            final(self).folders@[folder_index as int].files@ == changed_files(
                old(self).folders@[folder_index as int].files@,
                event_path@,
                event_kind@,
                probe@,
            ),
            failure_of(r) == change_refused(
                old(self).folders@[folder_index as int].files@,
                event_path@,
                event_kind@,
                probe@,
            ),
    {
        match event_kind {
            FsEventKind::Create | FsEventKind::Modify => match probe {
                FileProbe::NotAFile => {},
                FileProbe::Unreadable => {
                    return Err(SyncError::Unreadable { path: event_path.to_owned() });
                },
                FileProbe::Regular(stat) => {
                    let known: u64 = match self.folders[folder_index].files.get(event_path) {
                        Some(entry) => entry.version,
                        None => 0,
                    };
                    if known == u64::MAX {
                        return Err(SyncError::VersionExhausted { path: event_path.to_owned() });
                    }
                    let entry = FileEntry {
                        path: event_path.to_owned(),
                        last_modified: stat.modified_secs,
                        size: stat.size,
                        hash: Some(stat.hash.clone()),
                        version: known + 1,
                    };
                    self.folders[folder_index].files.insert(entry);
                },
            },
            FsEventKind::Remove => {
                self.folders[folder_index].files.remove(event_path);
            },
            FsEventKind::Rename { old_path, new_path } => {
                match self.folders[folder_index].files.remove(old_path.as_str()) {
                    Some(file_entry) => {
                        let new_entry = FileEntry {
                            path: new_path,
                            last_modified: file_entry.last_modified,
                            size: file_entry.size,
                            hash: file_entry.hash,
                            version: file_entry.version,
                        };
                        self.folders[folder_index].files.insert(new_entry);
                    },
                    None => {
                        assert(self.folders@[folder_index as int].files@ =~= old(self).folders@[folder_index as int].files@);
                    },
                }
            },
        }
        Ok(())
    }
}

/// The fingerprint of a file with this content. The content goes through
/// the digest in pieces of `CHUNK_SIZE` bytes.
pub fn calculate_hash(content: &[u8]) -> (hash: String)
    ensures
        hash@ == content_hash(content@),
        hash@.len() == 64,
{
    let mut hasher = ContentHasher::new();
    let n: usize = content.len();
    let mut done: usize = 0;
    assert(content@.subrange(0, 0) =~= Seq::<u8>::empty());
    while done < n
        invariant
            done <= n,
            n == content@.len(),
            hasher.input() == content@.subrange(0, done as int),
        decreases n - done,
    {
        let end: usize = if n - done > CHUNK_SIZE {
            done + CHUNK_SIZE
        } else {
            n
        };
        let chunk: &[u8] = slice_subrange(content, done, end);
        hasher.update(chunk);
        assert(content@.subrange(0, done as int) + content@.subrange(done as int, end as int)
            =~= content@.subrange(0, end as int));
        done = end;
    }
    assert(content@.subrange(0, n as int) =~= content@);
    hasher.finalize()
}

} // verus!
