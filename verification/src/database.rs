//! The index: the device's identifier, the tracked folders and one record
//! for each file known below them.
//!
//! The index is held in memory and laid out as three tables. `settings`
//! holds the device identifier. `synced_folders` holds the folders in the
//! order they were added, each with an identifier that is issued once and
//! never again, a name and a root path; no two folders share a name or a
//! root. `file_index` holds at most one record for each pair of folder
//! identifier and relative path. Keeping the tables on disk is left to the
//! program that owns the index.

use crate::assoc::{as_map, distinct_keys, has_key, index_of, lemma_as_map_absent, lemma_as_map_at,
    lemma_as_map_empty, lemma_as_map_push, lemma_as_map_remove, lemma_as_map_update};
use crate::paths::{join, joined, lemma_joined_stripped, lemma_stripped_joined, stripped};
use crate::sync_engine::{text_of, FileEntry, FileEntryView, FileMap};
use vstd::prelude::*;

verus! {

/// Why the index refused a change.
#[derive(Debug, Clone, Copy, PartialEq, Eq, Structural)]
pub enum IndexError {
    /// A folder with this name is registered already.
    NameTaken,
    /// A folder with this root is registered already.
    PathTaken,
    /// No folder identifier is left to issue.
    IdsExhausted,
    /// The record's version cannot be counted further.
    VersionExhausted,
}

/// One row of `synced_folders`.
#[derive(Debug)]
pub struct FolderRecord {
    pub id: i64,
    pub name: String,
    pub local_path: String,
}

/// A `FolderRecord` as text.
pub struct FolderRecordView {
    pub id: i64,
    pub name: Seq<char>,
    pub local_path: Seq<char>,
}

impl View for FolderRecord {
    type V = FolderRecordView;

    open spec fn view(&self) -> FolderRecordView {
        FolderRecordView { id: self.id, name: self.name@, local_path: self.local_path@ }
    }
}

/// One row of `file_index`.
#[derive(Debug)]
pub struct FileRecord {
    pub folder_id: i64,
    pub relative_path: String,
    pub last_modified_secs: u64,
    pub size_bytes: u64,
    pub sha256_hash: Option<String>,
    pub version: u64,
}

/// What a row of `file_index` holds beside its key.
pub struct FileData {
    pub last_modified_secs: u64,
    pub size_bytes: u64,
    pub sha256_hash: Option<Seq<char>>,
    pub version: u64,
}

impl FileRecord {
    /// The pair that this row is found by.
    pub open spec fn key(&self) -> (i64, Seq<char>) {
        (self.folder_id, self.relative_path@)
    }

    /// What this row holds beside its key.
    pub open spec fn data(&self) -> FileData {
        FileData {
            last_modified_secs: self.last_modified_secs,
            size_bytes: self.size_bytes,
            sha256_hash: text_of(self.sha256_hash),
            version: self.version,
        }
    }
}

/// The folders of a table as text.
pub open spec fn folder_views(folders: Seq<FolderRecord>) -> Seq<FolderRecordView> {
    Seq::new(folders.len(), |i: int| folders[i]@)
}

/// The rows of `file_index` as pairs of key and data.
pub open spec fn file_pairs(files: Seq<FileRecord>) -> Seq<((i64, Seq<char>), FileData)> {
    Seq::new(files.len(), |i: int| (files[i].key(), files[i].data()))
}

/// The folders as pairs of root and identifier.
pub open spec fn root_pairs(folders: Seq<FolderRecordView>) -> Seq<(Seq<char>, i64)> {
    Seq::new(folders.len(), |i: int| (folders[i].local_path, folders[i].id))
}

/// The folders as pairs of name and identifier.
pub open spec fn name_pairs(folders: Seq<FolderRecordView>) -> Seq<(Seq<char>, i64)> {
    Seq::new(folders.len(), |i: int| (folders[i].name, folders[i].id))
}

/// The folders as pairs of identifier and root.
pub open spec fn id_pairs(folders: Seq<FolderRecordView>) -> Seq<(i64, Seq<char>)> {
    Seq::new(folders.len(), |i: int| (folders[i].id, folders[i].local_path))
}

/// What the index holds.
pub struct IndexView {
    /// The device identifier, once there is one.
    pub device_id: Option<Seq<char>>,
    /// The tracked folders, in the order they were added.
    pub folders: Seq<FolderRecordView>,
    /// The file records, by folder identifier and relative path.
    pub files: Map<(i64, Seq<char>), FileData>,
    /// The last folder identifier that was issued; 0 before the first.
    pub last_folder_id: i64,
}

impl IndexView {
    /// The index that holds nothing.
    pub open spec fn empty() -> IndexView {
        IndexView {
            device_id: None,
            folders: Seq::empty(),
            files: Map::empty(),
            last_folder_id: 0,
        }
    }

    /// No two folders share an identifier, a name or a root, and every
    /// identifier has been issued.
    pub open spec fn well_formed(self) -> bool {
        &&& distinct_keys(root_pairs(self.folders))
        &&& distinct_keys(name_pairs(self.folders))
        &&& distinct_keys(id_pairs(self.folders))
        &&& forall|i: int|
            0 <= i < self.folders.len() ==> 1 <= (#[trigger] self.folders[i]).id
                <= self.last_folder_id
        &&& 0 <= self.last_folder_id
    }

    /// The identifiers of the folders, by root.
    pub open spec fn roots(self) -> Map<Seq<char>, i64> {
        as_map(root_pairs(self.folders))
    }

    /// Whether a folder with this name is registered.
    pub open spec fn name_taken(self, name: Seq<char>) -> bool {
        has_key(name_pairs(self.folders), name)
    }

    /// Whether a folder with this root is registered.
    pub open spec fn path_taken(self, path: Seq<char>) -> bool {
        has_key(root_pairs(self.folders), path)
    }

    /// Why a folder with this name and root cannot be added, if it cannot.
    pub open spec fn add_refused(self, name: Seq<char>, path: Seq<char>) -> Option<IndexError> {
        if self.name_taken(name) {
            Some(IndexError::NameTaken)
        } else if self.path_taken(path) {
            Some(IndexError::PathTaken)
        } else if self.last_folder_id == i64::MAX {
            Some(IndexError::IdsExhausted)
        } else {
            None
        }
    }

    /// The index with one more folder, which gets the next identifier.
    pub open spec fn with_folder(self, name: Seq<char>, path: Seq<char>) -> IndexView {
        let id = (self.last_folder_id + 1) as i64;
        IndexView {
            folders: self.folders.push(FolderRecordView { id, name, local_path: path }),
            last_folder_id: id,
            ..self
        }
    }

    /// The version that the next write of this record gets: 1 for a first
    /// record, else one more than it has.
    pub open spec fn next_version(self, folder_id: i64, relative_path: Seq<char>) -> int {
        if self.files.contains_key((folder_id, relative_path)) {
            self.files[(folder_id, relative_path)].version + 1
        } else {
            1
        }
    }

    /// The index after a file's record has been written: inserted at
    /// version 1, or replaced with its version one higher.
    pub open spec fn with_file(
        self,
        folder_id: i64,
        relative_path: Seq<char>,
        size_bytes: u64,
        sha256_hash: Seq<char>,
        modified_secs: u64,
    ) -> IndexView {
        IndexView {
            files: self.files.insert(
                (folder_id, relative_path),
                FileData {
                    last_modified_secs: modified_secs,
                    size_bytes,
                    sha256_hash: Some(sha256_hash),
                    version: self.next_version(folder_id, relative_path) as u64,
                },
            ),
            ..self
        }
    }

    /// The index without the record of a file.
    pub open spec fn without_file(self, folder_id: i64, relative_path: Seq<char>) -> IndexView {
        IndexView { files: self.files.remove((folder_id, relative_path)), ..self }
    }

    /// The index with a device identifier, which an index that has one
    /// keeps.
    pub open spec fn with_device_id(self, candidate: Seq<char>) -> IndexView {
        match self.device_id {
            Some(_) => self,
            None => IndexView { device_id: Some(candidate), ..self },
        }
    }

    /// The files recorded for a folder, by absolute path below `base`.
    pub open spec fn folder_files(self, folder_id: i64, base: Seq<char>) -> Map<
        Seq<char>,
        FileEntryView,
    > {
        files_below(self.files, folder_id, base)
    }
}

/// The entry that a record gives under an absolute path.
pub open spec fn file_entry(path: Seq<char>, data: FileData) -> FileEntryView {
    FileEntryView {
        path,
        last_modified: data.last_modified_secs,
        size: data.size_bytes,
        hash: data.sha256_hash,
        version: data.version,
    }
}

/// The largest identifier among `folders`; 0 where there is none.
pub open spec fn largest_id(folders: Seq<FolderRecordView>) -> int
    decreases folders.len(),
{
    if folders.len() == 0 {
        0
    } else if folders.last().id > largest_id(folders.drop_last()) {
        folders.last().id as int
    } else {
        largest_id(folders.drop_last())
    }
}

/// No identifier among `folders` is above the largest, which is not
/// negative.
pub proof fn lemma_largest_id(folders: Seq<FolderRecordView>)
    ensures
        0 <= largest_id(folders) <= i64::MAX,
        forall|i: int| 0 <= i < folders.len() ==> (#[trigger] folders[i]).id <= largest_id(folders),
    decreases folders.len(),
{
    if folders.len() > 0 {
        let head = folders.drop_last();
        lemma_largest_id(head);
        assert forall|i: int| 0 <= i < folders.len() implies (#[trigger] folders[i]).id
            <= largest_id(folders) by {
            if i < head.len() {
                assert(folders[i] == head[i]);
            }
        }
    }
}

/// Whether rows can be the tables of an index: no two folders share an
/// identifier, a name or a root, every identifier is at least 1, and no two
/// file records share their key.
pub open spec fn rows_are_valid(
    folders: Seq<FolderRecordView>,
    files: Seq<((i64, Seq<char>), FileData)>,
) -> bool {
    &&& distinct_keys(root_pairs(folders))
    &&& distinct_keys(name_pairs(folders))
    &&& distinct_keys(id_pairs(folders))
    &&& forall|i: int| 0 <= i < folders.len() ==> 1 <= (#[trigger] folders[i]).id
    &&& distinct_keys(files)
}

/// The index.
#[derive(Debug)]
pub struct Database {
    device_id: Option<String>,
    folders: Vec<FolderRecord>,
    files: Vec<FileRecord>,
    last_folder_id: i64,
}

impl View for Database {
    type V = IndexView;

    closed spec fn view(&self) -> IndexView {
        IndexView {
            device_id: text_of(self.device_id),
            folders: folder_views(self.folders@),
            files: as_map(file_pairs(self.files@)),
            last_folder_id: self.last_folder_id,
        }
    }
}

/// The files recorded in `files` for a folder, by absolute path below
/// `base`.
pub open spec fn files_below(
    files: Map<(i64, Seq<char>), FileData>,
    folder_id: i64,
    base: Seq<char>,
) -> Map<Seq<char>, FileEntryView> {
    Map::new(
        |path: Seq<char>|
            stripped(path, base) matches Some(rel) && files.contains_key((folder_id, rel)),
        |path: Seq<char>| file_entry(path, files[(folder_id, stripped(path, base)->0)]),
    )
}

/// A new record adds one file below its own folder and none below another.
pub proof fn lemma_files_below_insert(
    files: Map<(i64, Seq<char>), FileData>,
    key: (i64, Seq<char>),
    data: FileData,
    folder_id: i64,
    base: Seq<char>,
)
    ensures
        key.0 == folder_id ==> files_below(files.insert(key, data), folder_id, base)
            == files_below(files, folder_id, base).insert(
            joined(base, key.1),
            file_entry(joined(base, key.1), data),
        ),
        key.0 != folder_id ==> files_below(files.insert(key, data), folder_id, base)
            == files_below(files, folder_id, base),
{
    let after = files_below(files.insert(key, data), folder_id, base);
    let before = files_below(files, folder_id, base);
    let at = joined(base, key.1);
    lemma_joined_stripped(base, key.1);
    if key.0 == folder_id {
        let want = before.insert(at, file_entry(at, data));
        assert forall|path: Seq<char>| after.contains_key(path) <==> want.contains_key(path) by {
            lemma_stripped_joined(path, base);
        }
        assert forall|path: Seq<char>| after.contains_key(path) implies #[trigger] after[path]
            == want[path] by {
            lemma_stripped_joined(path, base);
        }
        assert(after =~= want);
    } else {
        assert(after =~= before);
    }
}

/// The leading part of a sequence with distinct keys has distinct keys, and
/// none of them is the key that follows.
proof fn lemma_prefix_distinct<K, V>(s: Seq<(K, V)>, n: int)
    requires
        distinct_keys(s),
        0 <= n < s.len(),
    ensures
        distinct_keys(s.subrange(0, n)),
        !as_map(s.subrange(0, n)).contains_key(s[n].0),
        s.subrange(0, n + 1) == s.subrange(0, n).push(s[n]),
{
    let head = s.subrange(0, n);
    assert forall|i: int, j: int| 0 <= i < j < head.len() implies (#[trigger] head[i]).0 != (
    #[trigger] head[j]).0 by {
        assert(head[i] == s[i] && head[j] == s[j]);
    }
    assert forall|i: int| 0 <= i < head.len() implies (#[trigger] head[i]).0 != s[n].0 by {
        assert(head[i] == s[i]);
        assert(s[i].0 != s[n].0);
    }
    lemma_as_map_absent(head, s[n].0);
    assert(s.subrange(0, n + 1) =~= head.push(s[n]));
}

/// `uuid::Uuid::new_v4` and the text of what it returns: a random version 4
/// identifier in its hyphenated form, which is 36 characters long. Which
/// identifier comes is left open; the call gives up where the operating
/// system hands out no random bytes.
#[verifier::external_body]
fn new_device_id() -> (id: String)
    ensures
        id@.len() == 36,
{
    uuid::Uuid::new_v4().to_string()
}

/// A record that has just been written is read back under its relative path
/// joined to the folder's root, with the size, the fingerprint and the time
/// that were written and with the version it was given.
pub proof fn lemma_upsert_round_trip(
    state: IndexView,
    folder_id: i64,
    base: Seq<char>,
    relative_path: Seq<char>,
    size_bytes: u64,
    sha256_hash: Seq<char>,
    modified_secs: u64,
)
    ensures
        ({
            let after = state.with_file(
                folder_id,
                relative_path,
                size_bytes,
                sha256_hash,
                modified_secs,
            );
            let files = after.folder_files(folder_id, base);
            let path = joined(base, relative_path);
            &&& files.contains_key(path)
            &&& stripped(path, base) == Some(relative_path)
            &&& files[path] == FileEntryView {
                path,
                last_modified: modified_secs,
                size: size_bytes,
                hash: Some(sha256_hash),
                version: state.next_version(folder_id, relative_path) as u64,
            }
        }),
{
    lemma_joined_stripped(base, relative_path);
}

/// Removing a record that is not there leaves the index as it is.
pub proof fn lemma_remove_absent(state: IndexView, folder_id: i64, relative_path: Seq<char>)
    requires
        !state.files.contains_key((folder_id, relative_path)),
    ensures
        state.without_file(folder_id, relative_path) == state,
{
    assert(state.files.remove((folder_id, relative_path)) =~= state.files);
}

/// The identifier of a tracked folder determines its root.
pub proof fn lemma_roots_injective(state: IndexView, a: Seq<char>, b: Seq<char>)
    requires
        state.well_formed(),
        state.roots().contains_key(a),
        state.roots().contains_key(b),
        state.roots()[a] == state.roots()[b],
    ensures
        a == b,
{
    let roots = root_pairs(state.folders);
    let ids = id_pairs(state.folders);
    let i = index_of(roots, a);
    let j = index_of(roots, b);
    assert(roots[i].0 == a && roots[j].0 == b);
    assert(ids[i].0 == roots[i].1 && ids[j].0 == roots[j].1);
    if i < j {
        assert(ids[i].0 != ids[j].0);
    } else if j < i {
        assert(ids[j].0 != ids[i].0);
    }
}

impl Database {
    /// What holds of every index: its tables are well formed, and no two
    /// file records share their key.
    #[verifier::type_invariant]
    pub closed spec fn tables_are_keyed(&self) -> bool {
        self@.well_formed() && distinct_keys(file_pairs(self.files@))
    }

    /// Every index is well formed.
    pub proof fn lemma_well_formed(self)
        requires
            self.tables_are_keyed(),
        ensures
            self@.well_formed(),
    {
    }

    /// An index that holds nothing.
    pub fn new() -> (db: Self)
        ensures
            db@ == IndexView::empty(),
            db@.well_formed(),
    {
        proof {
            lemma_as_map_empty::<(i64, Seq<char>), FileData>();
            assert(file_pairs(Seq::<FileRecord>::empty()) =~= Seq::empty());
            assert(folder_views(Seq::<FolderRecord>::empty()) =~= Seq::empty());
        }
        Database { device_id: None, folders: Vec::new(), files: Vec::new(), last_folder_id: 0 }
    }

    /// Whether the folder at `i` shares its identifier, its name or its root
    /// with none that stands behind it.
    fn folder_is_unlike_later(folders: &Vec<FolderRecord>, i: usize) -> (r: bool)
        requires
            i < folders@.len(),
        ensures
            r == forall|j: int|
                i < j < folders@.len() ==> {
                    &&& (#[trigger] folders@[j]).id != folders@[i as int].id
                    &&& folders@[j].name@ != folders@[i as int].name@
                    &&& folders@[j].local_path@ != folders@[i as int].local_path@
                },
    {
        let n: usize = folders.len();
        let mut j: usize = i + 1;
        while j < n
            invariant
                n == folders@.len(),
                i < j <= n,
                forall|k: int|
                    i < k < j ==> {
                        &&& (#[trigger] folders@[k]).id != folders@[i as int].id
                        &&& folders@[k].name@ != folders@[i as int].name@
                        &&& folders@[k].local_path@ != folders@[i as int].local_path@
                    },
            decreases folders@.len() - j,
        {
            if folders[j].id == folders[i].id || folders[j].name == folders[i].name
                || folders[j].local_path == folders[i].local_path {
                return false;
            }
            j = j + 1;
        }
        true
    }

    /// Whether the record at `i` shares its key with none that stands behind
    /// it.
    fn file_is_unlike_later(files: &Vec<FileRecord>, i: usize) -> (r: bool)
        requires
            i < files@.len(),
        ensures
            r == forall|j: int|
                i < j < files@.len() ==> (#[trigger] files@[j]).key() != files@[i as int].key(),
    {
        let n: usize = files.len();
        let mut j: usize = i + 1;
        while j < n
            invariant
                n == files@.len(),
                i < j <= n,
                forall|k: int| i < k < j ==> (#[trigger] files@[k]).key() != files@[i as int].key(),
            decreases files@.len() - j,
        {
            if files[j].folder_id == files[i].folder_id && files[j].relative_path
                == files[i].relative_path {
                return false;
            }
            j = j + 1;
        }
        true
    }

    /// An index that holds the given rows, as they were read from where
    /// they are kept. Rows that cannot be the tables of an index are
    /// refused. The last identifier issued is taken to be the largest among
    /// the folders.
    pub fn from_records(
        device_id: Option<String>,
        folders: Vec<FolderRecord>,
        files: Vec<FileRecord>,
    ) -> (r: Option<Self>)
        ensures
            r is Some <==> rows_are_valid(folder_views(folders@), file_pairs(files@)),
            r matches Some(db) ==> db@ == (IndexView {
                device_id: text_of(device_id),
                folders: folder_views(folders@),
                files: as_map(file_pairs(files@)),
                last_folder_id: largest_id(folder_views(folders@)) as i64,
            }) && db@.well_formed(),
    {
        let ghost rows = folder_views(folders@);
        let ghost pairs = file_pairs(files@);
        let mut last: i64 = 0;
        let mut i: usize = 0;
        assert(rows.subrange(0, 0) =~= Seq::empty());
        while i < folders.len()
            invariant
                i <= folders@.len(),
                rows == folder_views(folders@),
                last == largest_id(rows.subrange(0, i as int)),
                forall|a: int| 0 <= a < i ==> 1 <= (#[trigger] rows[a]).id,
                forall|a: int, b: int|
                    0 <= a < i && a < b < rows.len() ==> {
                        &&& (#[trigger] rows[a]).id != (#[trigger] rows[b]).id
                        &&& rows[a].name != rows[b].name
                        &&& rows[a].local_path != rows[b].local_path
                    },
            decreases folders@.len() - i,
        {
            proof {
                assert(rows.subrange(0, i + 1).drop_last() =~= rows.subrange(0, i as int));
                assert(rows.subrange(0, i + 1).last() == rows[i as int]);
            }
            if folders[i].id < 1 {
                proof {
                    assert(!(1 <= rows[i as int].id));
                }
                return None;
            }
            if !Self::folder_is_unlike_later(&folders, i) {
                proof {
                    let j = choose|j: int|
                        i < j < folders@.len() && !{
                            &&& (#[trigger] folders@[j]).id != folders@[i as int].id
                            &&& folders@[j].name@ != folders@[i as int].name@
                            &&& folders@[j].local_path@ != folders@[i as int].local_path@
                        };
                    assert(id_pairs(rows)[i as int].0 == rows[i as int].id && id_pairs(rows)[j].0
                        == rows[j].id);
                    assert(name_pairs(rows)[i as int].0 == rows[i as int].name && name_pairs(
                        rows,
                    )[j].0 == rows[j].name);
                    assert(root_pairs(rows)[i as int].0 == rows[i as int].local_path && root_pairs(
                        rows,
                    )[j].0 == rows[j].local_path);
                }
                return None;
            }
            if folders[i].id > last {
                last = folders[i].id;
            }
            i = i + 1;
        }
        let mut k: usize = 0;
        while k < files.len()
            invariant
                k <= files@.len(),
                pairs == file_pairs(files@),
                forall|a: int, b: int|
                    0 <= a < k && a < b < pairs.len() ==> (#[trigger] pairs[a]).0 != (
                    #[trigger] pairs[b]).0,
            decreases files@.len() - k,
        {
            if !Self::file_is_unlike_later(&files, k) {
                proof {
                    let j = choose|j: int|
                        k < j < files@.len() && (#[trigger] files@[j]).key() == files@[k as int].key();
                    assert(pairs[k as int].0 == pairs[j].0);
                }
                return None;
            }
            k = k + 1;
        }
        proof {
            assert(rows.subrange(0, folders@.len() as int) =~= rows);
            lemma_largest_id(rows);
            assert(distinct_keys(id_pairs(rows)));
            assert(distinct_keys(name_pairs(rows)));
            assert(distinct_keys(root_pairs(rows)));
        }
        Some(Database { device_id, folders, files, last_folder_id: last })
    }

    /// Where the folder with the root `path` stands.
    fn folder_position_by_path(&self, path: &str) -> (r: Option<usize>)
        ensures
            match r {
                Some(i) => i < self.folders@.len() && self.folders@[i as int].local_path@
                    == path@,
                None => forall|j: int|
                    0 <= j < self.folders@.len() ==> (#[trigger] self.folders@[j]).local_path@
                        != path@,
            },
    {
        let wanted: String = path.to_owned();
        let mut i: usize = 0;
        while i < self.folders.len()
            invariant
                i <= self.folders@.len(),
                wanted@ == path@,
                forall|j: int| 0 <= j < i ==> (#[trigger] self.folders@[j]).local_path@ != path@,
            decreases self.folders@.len() - i,
        {
            if self.folders[i].local_path == wanted {
                return Some(i);
            }
            i = i + 1;
        }
        None
    }

    /// Where the folder with the name `name` stands.
    fn folder_position_by_name(&self, name: &str) -> (r: Option<usize>)
        ensures
            match r {
                Some(i) => i < self.folders@.len() && self.folders@[i as int].name@ == name@,
                None => forall|j: int|
                    0 <= j < self.folders@.len() ==> (#[trigger] self.folders@[j]).name@ != name@,
            },
    {
        let wanted: String = name.to_owned();
        let mut i: usize = 0;
        while i < self.folders.len()
            invariant
                i <= self.folders@.len(),
                wanted@ == name@,
                forall|j: int| 0 <= j < i ==> (#[trigger] self.folders@[j]).name@ != name@,
            decreases self.folders@.len() - i,
        {
            if self.folders[i].name == wanted {
                return Some(i);
            }
            i = i + 1;
        }
        None
    }

    /// Where the record of a file stands.
    fn file_position(&self, folder_id: i64, relative_path: &str) -> (r: Option<usize>)
        ensures
            match r {
                Some(i) => i < self.files@.len() && self.files@[i as int].key() == (
                    folder_id,
                    relative_path@,
                ),
                None => forall|j: int|
                    0 <= j < self.files@.len() ==> (#[trigger] self.files@[j]).key() != (
                        folder_id,
                        relative_path@,
                    ),
            },
    {
        let wanted: String = relative_path.to_owned();
        let mut i: usize = 0;
        while i < self.files.len()
            invariant
                i <= self.files@.len(),
                wanted@ == relative_path@,
                forall|j: int|
                    0 <= j < i ==> (#[trigger] self.files@[j]).key() != (
                        folder_id,
                        relative_path@,
                    ),
            decreases self.files@.len() - i,
        {
            if self.files[i].folder_id == folder_id && self.files[i].relative_path == wanted {
                return Some(i);
            }
            i = i + 1;
        }
        None
    }

    /// Takes the file records out and leaves none behind.
    fn take_files(&mut self) -> (files: Vec<FileRecord>)
        ensures
            files == old(self).files,
            distinct_keys(file_pairs(files@)),
            final(self).device_id == old(self).device_id,
            final(self).folders == old(self).folders,
            final(self).last_folder_id == old(self).last_folder_id,
            final(self)@.well_formed(),
    {
        proof {
            use_type_invariant(&*self);
            assert(file_pairs(Seq::<FileRecord>::empty()) =~= Seq::empty());
        }
        let mut files: Vec<FileRecord> = Vec::new();
        core::mem::swap(&mut self.files, &mut files);
        files
    }

    /// The identifier of this device. An index that has none yet is given a
    /// fresh random one, which it keeps from then on.
    pub fn get_or_create_device_id(&mut self) -> (id: String)
        ensures
            final(self)@ == old(self)@.with_device_id(id@),
            final(self)@.device_id == Some(id@),
            old(self)@.device_id is None ==> id@.len() == 36,
            final(self)@.well_formed(),
    {
        proof {
            use_type_invariant(&*self);
        }
        match &self.device_id {
            Some(id) => id.clone(),
            None => {
                let fresh = new_device_id();
                self.device_id_or(fresh)
            },
        }
    }

    /// The identifier of this device. An index that has none yet is given
    /// `candidate`; an index that has one keeps it.
    pub fn device_id_or(&mut self, candidate: String) -> (id: String)
        ensures
            final(self)@ == old(self)@.with_device_id(candidate@),
            final(self)@.device_id == Some(id@),
            final(self)@.well_formed(),
    {
        proof {
            use_type_invariant(&*self);
        }
        match &self.device_id {
            Some(id) => id.clone(),
            None => {
                self.device_id = Some(candidate.clone());
                candidate
            },
        }
    }

    /// Registers a folder and issues its identifier, one more than the
    /// last. A name or a root that is registered already is refused, the
    /// name first.
    pub fn add_folder(&mut self, name: &str, path: &str) -> (r: Result<i64, IndexError>)
        ensures
            match old(self)@.add_refused(name@, path@) {
                Some(e) => r == Err::<i64, IndexError>(e) && final(self)@ == old(self)@,
                None => r == Ok::<i64, IndexError>((old(self)@.last_folder_id + 1) as i64)
                    && final(self)@ == old(self)@.with_folder(name@, path@),
            },
            final(self)@.well_formed(),
    {
        proof {
            use_type_invariant(&*self);
        }
        let ghost before = self@;
        match self.folder_position_by_name(name) {
            Some(i) => {
                proof {
                    assert(name_pairs(before.folders)[i as int].0 == name@);
                }
                return Err(IndexError::NameTaken);
            },
            None => {},
        }
        match self.folder_position_by_path(path) {
            Some(i) => {
                proof {
                    assert(root_pairs(before.folders)[i as int].0 == path@);
                }
                return Err(IndexError::PathTaken);
            },
            None => {},
        }
        if self.last_folder_id == i64::MAX {
            return Err(IndexError::IdsExhausted);
        }
        let id: i64 = self.last_folder_id + 1;
        let record = FolderRecord { id, name: name.to_owned(), local_path: path.to_owned() };
        proof {
            let roots = root_pairs(before.folders);
            let names = name_pairs(before.folders);
            let ids = id_pairs(before.folders);
            let grown = before.folders.push(record@);
            lemma_as_map_absent(roots, path@);
            lemma_as_map_push(roots, path@, id);
            assert(root_pairs(grown) =~= roots.push((path@, id)));
            lemma_as_map_absent(names, name@);
            lemma_as_map_push(names, name@, id);
            assert(name_pairs(grown) =~= names.push((name@, id)));
            assert forall|j: int| 0 <= j < ids.len() implies (#[trigger] ids[j]).0 != id by {
                assert(before.folders[j].id <= before.last_folder_id);
            }
            lemma_as_map_absent(ids, id);
            lemma_as_map_push(ids, id, path@);
            assert(id_pairs(grown) =~= ids.push((id, path@)));
            assert(folder_views(self.folders@.push(record)) =~= grown);
            assert forall|j: int| 0 <= j < grown.len() implies 1 <= (#[trigger] grown[j]).id
                <= id by {
                if j < before.folders.len() {
                    assert(grown[j] == before.folders[j]);
                }
            }
        }
        let mut folders: Vec<FolderRecord> = Vec::new();
        proof {
            assert(folder_views(Seq::<FolderRecord>::empty()) =~= Seq::empty());
            assert(root_pairs(Seq::<FolderRecordView>::empty()) =~= Seq::empty());
            assert(name_pairs(Seq::<FolderRecordView>::empty()) =~= Seq::empty());
            assert(id_pairs(Seq::<FolderRecordView>::empty()) =~= Seq::empty());
        }
        core::mem::swap(&mut self.folders, &mut folders);
        folders.push(record);
        self.last_folder_id = id;
        self.folders = folders;
        Ok(id)
    }

    /// The folder whose root is exactly `path_str`: its identifier and its
    /// root.
    pub fn get_folder_by_path(&self, path_str: &str) -> (r: Option<(i64, String)>)
        ensures
            match r {
                Some((id, root)) => self@.roots().contains_key(path_str@) && self@.roots()[path_str@]
                    == id && root@ == path_str@,
                None => !self@.roots().contains_key(path_str@),
            },
    {
        proof {
            use_type_invariant(self);
        }
        let ghost roots = root_pairs(self@.folders);
        match self.folder_position_by_path(path_str) {
            Some(i) => {
                proof {
                    lemma_as_map_at(roots, i as int);
                }
                Some((self.folders[i].id, self.folders[i].local_path.clone()))
            },
            None => {
                proof {
                    lemma_as_map_absent(roots, path_str@);
                }
                None
            },
        }
    }

    /// Every folder's identifier and root, in the order they were added.
    pub fn get_all_synced_folders(&self) -> (r: Vec<(i64, String)>)
        ensures
            r@.len() == self@.folders.len(),
            forall|i: int|
                0 <= i < r@.len() ==> (#[trigger] r@[i]).0 == self@.folders[i].id && r@[i].1@
                    == self@.folders[i].local_path,
            self@.well_formed(),
    {
        proof {
            use_type_invariant(self);
        }
        let mut out: Vec<(i64, String)> = Vec::new();
        let mut i: usize = 0;
        while i < self.folders.len()
            invariant
                i <= self.folders@.len(),
                out@.len() == i,
                forall|j: int|
                    0 <= j < i ==> (#[trigger] out@[j]).0 == self.folders@[j].id && out@[j].1@
                        == self.folders@[j].local_path@,
            decreases self.folders@.len() - i,
        {
            out.push((self.folders[i].id, self.folders[i].local_path.clone()));
            i = i + 1;
        }
        out
    }

    /// Writes the record of a file: a first record gets version 1, an
    /// existing one is replaced and its version goes up by one, whether or
    /// not anything else changed. A version that cannot go up further
    /// refuses the write.
    pub fn upsert_file_record(
        &mut self,
        folder_id: i64,
        relative_path: &str,
        size_bytes: u64,
        sha256_hash: &str,
        modified_secs: u64,
    ) -> (r: Result<(), IndexError>)
        ensures
            old(self)@.next_version(folder_id, relative_path@) > u64::MAX ==> r == Err::<
                (),
                IndexError,
            >(IndexError::VersionExhausted) && final(self)@ == old(self)@,
            old(self)@.next_version(folder_id, relative_path@) <= u64::MAX ==> r is Ok && final(self)@ == old(self)@.with_file(
                folder_id,
                relative_path@,
                size_bytes,
                sha256_hash@,
                modified_secs,
            ),
            final(self)@.well_formed(),
    {
        let found = self.file_position(folder_id, relative_path);
        let ghost start = self@;
        let mut files = self.take_files();
        let ghost before = file_pairs(files@);
        let ghost key = (folder_id, relative_path@);
        match found {
            Some(i) => {
                proof {
                    lemma_as_map_at(before, i as int);
                }
                if files[i].version == u64::MAX {
                    self.files = files;
                    return Err(IndexError::VersionExhausted);
                }
                let record = FileRecord {
                    folder_id,
                    relative_path: relative_path.to_owned(),
                    last_modified_secs: modified_secs,
                    size_bytes,
                    sha256_hash: Some(sha256_hash.to_owned()),
                    version: files[i].version + 1,
                };
                proof {
                    lemma_as_map_update(before, i as int, record.data());
                    assert(file_pairs(files@.update(i as int, record)) =~= before.update(
                        i as int,
                        (before[i as int].0, record.data()),
                    ));
                }
                files[i] = record;
            },
            None => {
                let record = FileRecord {
                    folder_id,
                    relative_path: relative_path.to_owned(),
                    last_modified_secs: modified_secs,
                    size_bytes,
                    sha256_hash: Some(sha256_hash.to_owned()),
                    version: 1,
                };
                proof {
                    lemma_as_map_absent(before, key);
                    lemma_as_map_push(before, key, record.data());
                    assert(file_pairs(files@.push(record)) =~= before.push((key, record.data())));
                }
                files.push(record);
            },
        }
        self.files = files;
        Ok(())
    }

    /// Drops the record of a file. Where there is none, nothing changes;
    /// this never fails.
    pub fn remove_file_entry(&mut self, folder_id: i64, file_name: &str) -> (r: Result<
        (),
        IndexError,
    >)
        ensures
            r is Ok,
            final(self)@ == old(self)@.without_file(folder_id, file_name@),
            !old(self)@.files.contains_key((folder_id, file_name@)) ==> final(self)@ == old(self)@,
            final(self)@.well_formed(),
    {
        let found = self.file_position(folder_id, file_name);
        let mut files = self.take_files();
        let ghost before = file_pairs(files@);
        let ghost key = (folder_id, file_name@);
        match found {
            Some(i) => {
                proof {
                    lemma_as_map_at(before, i as int);
                    lemma_as_map_remove(before, i as int);
                    assert(file_pairs(files@.remove(i as int)) =~= before.remove(i as int));
                }
                files.remove(i);
            },
            None => {
                proof {
                    lemma_as_map_absent(before, key);
                    assert(as_map(before).remove(key) =~= as_map(before));
                }
            },
        }
        proof {
            if !as_map(before).contains_key(key) {
                assert(as_map(before).remove(key) =~= as_map(before));
            }
        }
        self.files = files;
        Ok(())
    }

    /// The record of a file.
    pub fn get_file_record(&self, folder_id: i64, relative_path: &str) -> (r: Option<FileRecord>)
        ensures
            match r {
                Some(record) => self@.files.contains_key((folder_id, relative_path@))
                    && record.key() == (folder_id, relative_path@) && record.data()
                    == self@.files[(folder_id, relative_path@)],
                None => !self@.files.contains_key((folder_id, relative_path@)),
            },
    {
        proof {
            use_type_invariant(self);
        }
        let ghost pairs = file_pairs(self.files@);
        match self.file_position(folder_id, relative_path) {
            Some(i) => {
                proof {
                    lemma_as_map_at(pairs, i as int);
                }
                let found = &self.files[i];
                Some(
                    FileRecord {
                        folder_id: found.folder_id,
                        relative_path: found.relative_path.clone(),
                        last_modified_secs: found.last_modified_secs,
                        size_bytes: found.size_bytes,
                        sha256_hash: match &found.sha256_hash {
                            Some(h) => Some(h.clone()),
                            None => None,
                        },
                        version: found.version,
                    },
                )
            },
            None => {
                proof {
                    lemma_as_map_absent(pairs, (folder_id, relative_path@));
                }
                None
            },
        }
    }

    /// The files recorded for a folder, each under its relative path joined
    /// to `folder_base_path`.
    pub fn get_folders_and_files(&self, folder_id: i64, folder_base_path: &str) -> (r: FileMap)
        ensures
            r@ == self@.folder_files(folder_id, folder_base_path@),
    {
        proof {
            use_type_invariant(self);
        }
        let ghost pairs = file_pairs(self.files@);
        let mut files_map = FileMap::new();
        proof {
            assert(pairs.subrange(0, 0) =~= Seq::empty());
            lemma_as_map_empty::<(i64, Seq<char>), FileData>();
            assert(files_below(Map::empty(), folder_id, folder_base_path@) =~= Map::<
                Seq<char>,
                FileEntryView,
            >::empty());
        }
        let mut i: usize = 0;
        while i < self.files.len()
            invariant
                i <= self.files@.len(),
                pairs == file_pairs(self.files@),
                distinct_keys(pairs),
                files_map@ == files_below(
                    as_map(pairs.subrange(0, i as int)),
                    folder_id,
                    folder_base_path@,
                ),
            decreases self.files@.len() - i,
        {
            let record = &self.files[i];
            proof {
                lemma_prefix_distinct(pairs, i as int);
                lemma_as_map_push(pairs.subrange(0, i as int), pairs[i as int].0, pairs[i as int].1);
                lemma_files_below_insert(
                    as_map(pairs.subrange(0, i as int)),
                    pairs[i as int].0,
                    pairs[i as int].1,
                    folder_id,
                    folder_base_path@,
                );
            }
            if record.folder_id == folder_id {
                let absolute_path = join(folder_base_path, record.relative_path.as_str());
                files_map.insert(
                    FileEntry {
                        path: absolute_path,
                        last_modified: record.last_modified_secs,
                        size: record.size_bytes,
                        hash: match &record.sha256_hash {
                            Some(h) => Some(h.clone()),
                            None => None,
                        },
                        version: record.version,
                    },
                );
            }
            i = i + 1;
        }
        proof {
            assert(pairs.subrange(0, self.files@.len() as int) =~= pairs);
            assert(self@.folder_files(folder_id, folder_base_path@) =~= files_below(
                self@.files,
                folder_id,
                folder_base_path@,
            ));
        }
        files_map
    }
}

} // verus!

