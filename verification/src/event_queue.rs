//! The events that the index is fed with, and what the processor does with
//! each of them.
//!
//! The processor never touches the disk. Whoever feeds it looks at the file
//! that an event names and hands over what was seen together with the event;
//! after a folder has been added, the feeder walks its tree and `scan_events`
//! turns what the walk found into the events that enter its files.

use crate::database::{lemma_remove_absent, lemma_upsert_round_trip, Database, FileData, IndexError,
    IndexView};
use crate::paths::{ancestors, file_name, file_name_of, joined, lemma_ancestors_are_dir_prefixes,
    lemma_dir_prefix_strips, lemma_parent_shorter, lemma_stripped_joined, parent, parent_of,
    strip_prefix, stripped};
use crate::sync_engine::{FileProbe, FileProbeView, FileStatView, FsEventKind, FsEventKindView};
use vstd::prelude::*;

verus! {

/// One event in the queue.
#[derive(Debug)]
pub enum QueueEvent {
    /// A file was created, modified, removed or renamed.
    FileChanged { path: String, kind: FsEventKind },
    /// A folder is to be tracked from now on.
    FolderAdded { path: String },
    /// The processor is to stop.
    Shutdown,
}

/// A `QueueEvent` as text.
pub enum QueueEventView {
    FileChanged { path: Seq<char>, kind: FsEventKindView },
    FolderAdded { path: Seq<char> },
    Shutdown,
}

impl View for QueueEvent {
    type V = QueueEventView;

    open spec fn view(&self) -> QueueEventView {
        match *self {
            QueueEvent::FileChanged { path, kind } => QueueEventView::FileChanged {
                path: path@,
                kind: kind@,
            },
            QueueEvent::FolderAdded { path } => QueueEventView::FolderAdded { path: path@ },
            QueueEvent::Shutdown => QueueEventView::Shutdown,
        }
    }
}

/// The first of `candidates` that is the root of a tracked folder, with the
/// folder's identifier.
pub open spec fn first_tracked(roots: Map<Seq<char>, i64>, candidates: Seq<Seq<char>>) -> Option<
    (i64, Seq<char>),
>
    decreases candidates.len(),
{
    if candidates.len() == 0 {
        None
    } else if roots.contains_key(candidates[0]) {
        Some((roots[candidates[0]], candidates[0]))
    } else {
        first_tracked(roots, candidates.drop_first())
    }
}

/// The folder that owns `path`: the tracked folder whose root is the
/// nearest ancestor of `path` that is a root at all.
pub open spec fn owning_folder(state: IndexView, path: Seq<char>) -> Option<(i64, Seq<char>)> {
    first_tracked(state.roots(), ancestors(path))
}

/// The record that a change at `path` is about: the owning folder's
/// identifier and the path relative to its root.
pub open spec fn record_key(state: IndexView, path: Seq<char>) -> Option<(i64, Seq<char>)> {
    match owning_folder(state, path) {
        Some((folder_id, root)) => match stripped(path, root) {
            Some(rel) => Some((folder_id, rel)),
            None => None,
        },
        None => None,
    }
}

/// What the processor did with a change to a file.
#[derive(Debug)]
pub enum FileChangeOutcome {
    /// No tracked folder encloses the path; nothing was done.
    NoFolder,
    /// The path could not be written relative to its folder's root; nothing
    /// was done.
    NoRelativePath,
    /// A created or modified file was no regular file any more; nothing was
    /// done.
    NotAFile,
    /// A created or modified file could not be read; nothing was done.
    Unreadable,
    /// The file's record was written.
    Upserted { folder_id: i64, relative_path: String },
    /// The index refused to write the file's record.
    Refused { error: IndexError },
    /// The file's record was removed, if there was one.
    Removed { folder_id: i64, relative_path: String },
    /// A change of this kind is not acted on.
    Unhandled,
}

/// A `FileChangeOutcome` as text.
pub enum FileChangeOutcomeView {
    NoFolder,
    NoRelativePath,
    NotAFile,
    Unreadable,
    Upserted { folder_id: i64, relative_path: Seq<char> },
    Refused { error: IndexError },
    Removed { folder_id: i64, relative_path: Seq<char> },
    Unhandled,
}

impl View for FileChangeOutcome {
    type V = FileChangeOutcomeView;

    open spec fn view(&self) -> FileChangeOutcomeView {
        match *self {
            FileChangeOutcome::NoFolder => FileChangeOutcomeView::NoFolder,
            FileChangeOutcome::NoRelativePath => FileChangeOutcomeView::NoRelativePath,
            FileChangeOutcome::NotAFile => FileChangeOutcomeView::NotAFile,
            FileChangeOutcome::Unreadable => FileChangeOutcomeView::Unreadable,
            FileChangeOutcome::Upserted { folder_id, relative_path } => {
                FileChangeOutcomeView::Upserted { folder_id, relative_path: relative_path@ }
            },
            FileChangeOutcome::Refused { error } => FileChangeOutcomeView::Refused { error },
            FileChangeOutcome::Removed { folder_id, relative_path } => {
                FileChangeOutcomeView::Removed { folder_id, relative_path: relative_path@ }
            },
            FileChangeOutcome::Unhandled => FileChangeOutcomeView::Unhandled,
        }
    }
}

/// What the processor does with a change of `kind` at `path`, given what a
/// look at the file gave.
///
/// The owning folder is found first and the relative path second; a change
/// that fails there is dropped unseen. A created or modified file must be a
/// regular, readable file; its record is then written, unless its version
/// is exhausted. A removed file's record is removed. A rename is not acted
/// on.
pub open spec fn file_change_outcome(
    state: IndexView,
    path: Seq<char>,
    kind: FsEventKindView,
    probe: FileProbeView,
) -> FileChangeOutcomeView {
    match owning_folder(state, path) {
        None => FileChangeOutcomeView::NoFolder,
        Some((folder_id, root)) => match stripped(path, root) {
            None => FileChangeOutcomeView::NoRelativePath,
            Some(rel) => match kind {
                FsEventKindView::Create | FsEventKindView::Modify => match probe {
                    FileProbeView::NotAFile => FileChangeOutcomeView::NotAFile,
                    FileProbeView::Unreadable => FileChangeOutcomeView::Unreadable,
                    FileProbeView::Regular(_) => if state.next_version(folder_id, rel)
                        > u64::MAX {
                        FileChangeOutcomeView::Refused { error: IndexError::VersionExhausted }
                    } else {
                        FileChangeOutcomeView::Upserted { folder_id, relative_path: rel }
                    },
                },
                FsEventKindView::Remove => FileChangeOutcomeView::Removed {
                    folder_id,
                    relative_path: rel,
                },
                FsEventKindView::Rename { .. } => FileChangeOutcomeView::Unhandled,
            },
        },
    }
}

/// The index after the processor has dealt with a change to a file.
pub open spec fn after_file_change(
    state: IndexView,
    path: Seq<char>,
    kind: FsEventKindView,
    probe: FileProbeView,
) -> IndexView {
    match file_change_outcome(state, path, kind, probe) {
        FileChangeOutcomeView::Upserted { folder_id, relative_path } => state.with_file(
            folder_id,
            relative_path,
            probe->Regular_0.size,
            probe->Regular_0.hash,
            probe->Regular_0.modified_secs,
        ),
        FileChangeOutcomeView::Removed { folder_id, relative_path } => state.without_file(
            folder_id,
            relative_path,
        ),
        _ => state,
    }
}

/// Finds the folder that owns `path`: walks up from its parent and takes
/// the first ancestor that is the root of a tracked folder.
pub fn resolve_folder(db: &Database, path: &str) -> (r: Option<(i64, String)>)
    ensures
        match r {
            Some((id, root)) => owning_folder(db@, path@) == Some((id, root@)),
            None => owning_folder(db@, path@) is None,
        },
{
    let mut current: String = path.to_owned();
    loop
        invariant
            owning_folder(db@, path@) == first_tracked(db@.roots(), ancestors(current@)),
        decreases current@.len(),
    {
        proof {
            lemma_parent_shorter(current@);
        }
        match parent(current.as_str()) {
            None => {
                return None;
            },
            Some(p) => {
                proof {
                    assert(ancestors(current@) == seq![p@] + ancestors(p@));
                    assert(ancestors(current@)[0] == p@);
                    assert(ancestors(current@).drop_first() =~= ancestors(p@));
                }
                match db.get_folder_by_path(p.as_str()) {
                    Some(info) => {
                        return Some(info);
                    },
                    None => {
                        current = p;
                    },
                }
            },
        }
    }
}

/// Deals with a change of `kind` to the file at `path`. `probe` is what a
/// look at the file gave; it is read for a created or modified file only.
pub fn handle_file_changed_event(
    db: &mut Database,
    path: &str,
    kind: &FsEventKind,
    probe: &FileProbe,
) -> (outcome: FileChangeOutcome)
    ensures
        outcome@ == file_change_outcome(old(db)@, path@, kind@, probe@),
        final(db)@ == after_file_change(old(db)@, path@, kind@, probe@),
        final(db)@.well_formed(),
{
    proof {
        use_type_invariant(&*db);
        db.lemma_well_formed();
    }
    let (folder_id, base_path) = match resolve_folder(db, path) {
        Some(info) => info,
        None => {
            return FileChangeOutcome::NoFolder;
        },
    };
    let relative_path = match strip_prefix(path, base_path.as_str()) {
        Some(p) => p,
        None => {
            return FileChangeOutcome::NoRelativePath;
        },
    };
    match kind {
        FsEventKind::Create | FsEventKind::Modify => match probe {
            FileProbe::NotAFile => FileChangeOutcome::NotAFile,
            FileProbe::Unreadable => FileChangeOutcome::Unreadable,
            FileProbe::Regular(stat) => match db.upsert_file_record(
                folder_id,
                relative_path.as_str(),
                stat.size,
                stat.hash.as_str(),
                stat.modified_secs,
            ) {
                Ok(()) => FileChangeOutcome::Upserted { folder_id, relative_path },
                Err(error) => FileChangeOutcome::Refused { error },
            },
        },
        FsEventKind::Remove => {
            let _ = db.remove_file_entry(folder_id, relative_path.as_str());
            FileChangeOutcome::Removed { folder_id, relative_path }
        },
        FsEventKind::Rename { .. } => FileChangeOutcome::Unhandled,
    }
}

/// The name that a folder added at `path` is registered under: the path's
/// final component.
pub open spec fn folder_name(path: Seq<char>) -> Seq<char> {
    file_name_of(path)->0
}

/// The index after a folder has been added at `path`: registered under its
/// final component, unless the name or the root is taken.
pub open spec fn after_folder_added(state: IndexView, path: Seq<char>) -> IndexView {
    if state.add_refused(folder_name(path), path) is Some {
        state
    } else {
        state.with_folder(folder_name(path), path)
    }
}

/// Registers the folder at `path` under the name of its final component.
/// On success the caller walks the folder's tree and queues what
/// `scan_events` makes of it.
pub fn handle_folder_added_event(db: &mut Database, path: &str) -> (r: Result<i64, IndexError>)
    requires
        file_name_of(path@) is Some,
    ensures
        final(db)@ == after_folder_added(old(db)@, path@),
        match old(db)@.add_refused(folder_name(path@), path@) {
            Some(e) => r == Err::<i64, IndexError>(e),
            None => r == Ok::<i64, IndexError>((old(db)@.last_folder_id + 1) as i64),
        },
        final(db)@.well_formed(),
{
    let folder_name: String = file_name(path).unwrap();
    db.add_folder(folder_name.as_str(), path)
}

/// One thing that a walk through a directory tree came by.
#[derive(Debug)]
pub struct WalkEntry {
    pub path: String,
    /// Whether it is a regular file.
    pub is_file: bool,
}

/// A `WalkEntry` as text.
pub struct WalkEntryView {
    pub path: Seq<char>,
    pub is_file: bool,
}

impl View for WalkEntry {
    type V = WalkEntryView;

    open spec fn view(&self) -> WalkEntryView {
        WalkEntryView { path: self.path@, is_file: self.is_file }
    }
}

/// What a walk found, as text.
pub open spec fn walk_view(entries: Seq<WalkEntry>) -> Seq<WalkEntryView> {
    Seq::new(entries.len(), |i: int| entries[i]@)
}

/// Events as text.
pub open spec fn events_view(events: Seq<QueueEvent>) -> Seq<QueueEventView> {
    Seq::new(events.len(), |i: int| events[i]@)
}

/// The events that enter the files of a walk: a creation for each regular
/// file, in the order of the walk.
pub open spec fn created_events(entries: Seq<WalkEntryView>) -> Seq<QueueEventView>
    decreases entries.len(),
{
    if entries.len() == 0 {
        Seq::empty()
    } else if entries.last().is_file {
        created_events(entries.drop_last()).push(
            QueueEventView::FileChanged {
                path: entries.last().path,
                kind: FsEventKindView::Create,
            },
        )
    } else {
        created_events(entries.drop_last())
    }
}

/// Turns what a walk through a new folder found into the events to queue.
pub fn scan_events(entries: &Vec<WalkEntry>) -> (events: Vec<QueueEvent>)
    ensures
        events_view(events@) == created_events(walk_view(entries@)),
{
    let ghost found = walk_view(entries@);
    let mut events: Vec<QueueEvent> = Vec::new();
    let mut i: usize = 0;
    assert(found.subrange(0, 0) =~= Seq::empty());
    assert(events_view(events@) =~= Seq::empty());
    while i < entries.len()
        invariant
            i <= entries@.len(),
            found == walk_view(entries@),
            events_view(events@) == created_events(found.subrange(0, i as int)),
        decreases entries@.len() - i,
    {
        let entry = &entries[i];
        proof {
            assert(found.subrange(0, i + 1).drop_last() =~= found.subrange(0, i as int));
            assert(found.subrange(0, i + 1).last() == entry@);
        }
        if entry.is_file {
            let event = QueueEvent::FileChanged {
                path: entry.path.clone(),
                kind: FsEventKind::Create,
            };
            proof {
                assert(events_view(events@.push(event)) =~= events_view(events@).push(event@));
            }
            events.push(event);
        }
        i = i + 1;
    }
    assert(found.subrange(0, entries@.len() as int) =~= found);
    events
}

/// An event together with what a look at the file it names gave. The probe
/// counts for a created or modified file only.
#[derive(Debug)]
pub struct QueuedEvent {
    pub event: QueueEvent,
    pub probe: FileProbe,
}

/// The events of a batch as text, each with its probe.
pub open spec fn batch_view(batch: Seq<QueuedEvent>) -> Seq<(QueueEventView, FileProbeView)> {
    Seq::new(batch.len(), |i: int| (batch[i].event@, batch[i].probe@))
}

/// What the processor did with one event.
#[derive(Debug)]
pub enum EventOutcome {
    /// A change to a file was dealt with.
    FileChange(FileChangeOutcome),
    /// A folder was registered. Its tree is to be walked now, and what
    /// `scan_events` makes of the walk is to be queued.
    FolderRegistered { folder_id: i64 },
    /// The index refused to register a folder.
    FolderRefused { error: IndexError },
    /// The processor was told to stop: it takes no further event.
    Stopped,
}

/// An `EventOutcome` as text.
pub enum EventOutcomeView {
    FileChange(FileChangeOutcomeView),
    FolderRegistered { folder_id: i64 },
    FolderRefused { error: IndexError },
    Stopped,
}

impl View for EventOutcome {
    type V = EventOutcomeView;

    open spec fn view(&self) -> EventOutcomeView {
        match *self {
            EventOutcome::FileChange(outcome) => EventOutcomeView::FileChange(outcome@),
            EventOutcome::FolderRegistered { folder_id } => EventOutcomeView::FolderRegistered {
                folder_id,
            },
            EventOutcome::FolderRefused { error } => EventOutcomeView::FolderRefused { error },
            EventOutcome::Stopped => EventOutcomeView::Stopped,
        }
    }
}

/// An added folder must have a final component to be named by.
pub open spec fn can_process(event: QueueEventView) -> bool {
    event matches QueueEventView::FolderAdded { path } ==> file_name_of(path) is Some
}

/// The index after the processor has dealt with one event.
pub open spec fn apply_event(state: IndexView, event: QueueEventView, probe: FileProbeView)
    -> IndexView {
    match event {
        QueueEventView::FileChanged { path, kind } => after_file_change(state, path, kind, probe),
        QueueEventView::FolderAdded { path } => after_folder_added(state, path),
        QueueEventView::Shutdown => state,
    }
}

/// What the processor reports of one event.
pub open spec fn event_outcome(state: IndexView, event: QueueEventView, probe: FileProbeView)
    -> EventOutcomeView {
    match event {
        QueueEventView::FileChanged { path, kind } => EventOutcomeView::FileChange(
            file_change_outcome(state, path, kind, probe),
        ),
        QueueEventView::FolderAdded { path } => match state.add_refused(folder_name(path), path) {
            Some(error) => EventOutcomeView::FolderRefused { error },
            None => EventOutcomeView::FolderRegistered {
                folder_id: (state.last_folder_id + 1) as i64,
            },
        },
        QueueEventView::Shutdown => EventOutcomeView::Stopped,
    }
}

/// The index after the first `n` events of `events` have been dealt with,
/// one after the other in the order they stand in.
pub open spec fn state_after(
    state: IndexView,
    events: Seq<(QueueEventView, FileProbeView)>,
    n: int,
) -> IndexView
    decreases n,
{
    if n <= 0 {
        state
    } else {
        apply_event(state_after(state, events, n - 1), events[n - 1].0, events[n - 1].1)
    }
}

/// Deals with one event.
pub fn process_event(db: &mut Database, event: &QueueEvent, probe: &FileProbe) -> (outcome:
    EventOutcome)
    requires
        can_process(event@),
    ensures
        final(db)@ == apply_event(old(db)@, event@, probe@),
        outcome@ == event_outcome(old(db)@, event@, probe@),
        final(db)@.well_formed(),
{
    proof {
        use_type_invariant(&*db);
        db.lemma_well_formed();
    }
    match event {
        QueueEvent::FileChanged { path, kind } => EventOutcome::FileChange(
            handle_file_changed_event(db, path.as_str(), kind, probe),
        ),
        QueueEvent::FolderAdded { path } => match handle_folder_added_event(db, path.as_str()) {
            Ok(folder_id) => EventOutcome::FolderRegistered { folder_id },
            Err(error) => EventOutcome::FolderRefused { error },
        },
        QueueEvent::Shutdown => EventOutcome::Stopped,
    }
}

/// Deals with the events of a batch, one at a time and in the order they
/// stand in, up to and including the first `Shutdown`. Reports what was done
/// with each event that was taken.
pub fn process_events(db: &mut Database, batch: &Vec<QueuedEvent>) -> (outcomes: Vec<EventOutcome>)
    requires
        forall|i: int| 0 <= i < batch@.len() ==> can_process((#[trigger] batch@[i]).event@),
    ensures
        outcomes@.len() <= batch@.len(),
        forall|i: int|
            0 <= i < outcomes@.len() - 1 ==> !((#[trigger] batch@[i]).event@ is Shutdown),
        outcomes@.len() < batch@.len() ==> outcomes@.len() > 0 && batch@[outcomes@.len()
            - 1].event@ is Shutdown,
        final(db)@ == state_after(old(db)@, batch_view(batch@), outcomes@.len() as int),
        forall|i: int|
            0 <= i < outcomes@.len() ==> (#[trigger] outcomes@[i])@ == event_outcome(
                state_after(old(db)@, batch_view(batch@), i),
                batch@[i].event@,
                batch@[i].probe@,
            ),
        final(db)@.well_formed(),
{
    proof {
        use_type_invariant(&*db);
        db.lemma_well_formed();
    }
    let ghost events = batch_view(batch@);
    let mut outcomes: Vec<EventOutcome> = Vec::new();
    let mut i: usize = 0;
    while i < batch.len()
        invariant
            i <= batch@.len(),
            outcomes@.len() == i,
            events == batch_view(batch@),
            forall|j: int| 0 <= j < batch@.len() ==> can_process((#[trigger] batch@[j]).event@),
            forall|j: int| 0 <= j < i ==> !((#[trigger] batch@[j]).event@ is Shutdown),
            db@ == state_after(old(db)@, events, i as int),
            db@.well_formed(),
            forall|j: int|
                0 <= j < i ==> (#[trigger] outcomes@[j])@ == event_outcome(
                    state_after(old(db)@, events, j),
                    batch@[j].event@,
                    batch@[j].probe@,
                ),
        decreases batch@.len() - i,
    {
        let queued = &batch[i];
        let outcome = process_event(db, &queued.event, &queued.probe);
        let stop = match outcome {
            EventOutcome::Stopped => true,
            _ => false,
        };
        outcomes.push(outcome);
        i = i + 1;
        if stop {
            return outcomes;
        }
    }
    outcomes
}

/// Among candidates, `first_tracked` finds the first that is a root, and
/// none where none is.
pub proof fn lemma_first_tracked(roots: Map<Seq<char>, i64>, candidates: Seq<Seq<char>>)
    ensures
        match first_tracked(roots, candidates) {
            Some((id, root)) => exists|k: int|
                {
                    &&& 0 <= k < candidates.len()
                    &&& #[trigger] candidates[k] == root
                    &&& roots.contains_key(root)
                    &&& roots[root] == id
                    &&& forall|j: int| 0 <= j < k ==> !roots.contains_key(#[trigger] candidates[j])
                },
            None => forall|j: int|
                0 <= j < candidates.len() ==> !roots.contains_key(#[trigger] candidates[j]),
        },
    decreases candidates.len(),
{
    if candidates.len() > 0 && !roots.contains_key(candidates[0]) {
        let rest = candidates.drop_first();
        lemma_first_tracked(roots, rest);
        match first_tracked(roots, rest) {
            Some((id, root)) => {
                let k = choose|k: int|
                    {
                        &&& 0 <= k < rest.len()
                        &&& #[trigger] rest[k] == root
                        &&& roots.contains_key(root)
                        &&& roots[root] == id
                        &&& forall|j: int| 0 <= j < k ==> !roots.contains_key(#[trigger] rest[j])
                    };
                assert(candidates[k + 1] == rest[k]);
                assert forall|j: int| 0 <= j < k + 1 implies !roots.contains_key(
                    #[trigger] candidates[j],
                ) by {
                    if j > 0 {
                        assert(candidates[j] == rest[j - 1]);
                    }
                }
            },
            None => {
                assert forall|j: int| 0 <= j < candidates.len() implies !roots.contains_key(
                    #[trigger] candidates[j],
                ) by {
                    if j > 0 {
                        assert(candidates[j] == rest[j - 1]);
                    }
                }
            },
        }
    } else if candidates.len() > 0 {
        assert(candidates[0] == candidates[0]);
    }
}

/// The farther an ancestor, the shorter it is.
pub proof fn lemma_ancestors_shrink(path: Seq<char>, i: int, j: int)
    requires
        0 <= i < j < ancestors(path).len(),
    ensures
        ancestors(path)[j].len() < ancestors(path)[i].len(),
    decreases path.len(),
{
    lemma_parent_shorter(path);
    let p = parent_of(path)->0;
    assert(ancestors(path)[j] == ancestors(p)[j - 1]);
    if i == 0 {
        lemma_ancestor_shorter(p, j - 1);
    } else {
        assert(ancestors(path)[i] == ancestors(p)[i - 1]);
        lemma_ancestors_shrink(p, i - 1, j - 1);
    }
}

/// Every ancestor of a path is shorter than the path.
pub proof fn lemma_ancestor_shorter(path: Seq<char>, i: int)
    requires
        0 <= i < ancestors(path).len(),
    ensures
        ancestors(path)[i].len() < path.len(),
    decreases path.len(),
{
    lemma_parent_shorter(path);
    let p = parent_of(path)->0;
    if i > 0 {
        assert(ancestors(path)[i] == ancestors(p)[i - 1]);
        lemma_ancestor_shorter(p, i - 1);
    }
}

/// The owning folder is the nearest enclosing one: its root is an ancestor
/// of the path, and every ancestor that is the root of a tracked folder is
/// this root or a shorter one farther up. A path has no owning folder only
/// where none of its ancestors is a root.
pub proof fn lemma_owner_is_nearest(state: IndexView, path: Seq<char>)
    ensures
        match owning_folder(state, path) {
            Some((id, root)) => {
                &&& ancestors(path).contains(root)
                &&& state.roots().contains_key(root)
                &&& state.roots()[root] == id
                &&& forall|j: int|
                    0 <= j < ancestors(path).len() && state.roots().contains_key(
                        #[trigger] ancestors(path)[j],
                    ) ==> ancestors(path)[j].len() <= root.len()
            },
            None => forall|j: int|
                0 <= j < ancestors(path).len() ==> !state.roots().contains_key(
                    #[trigger] ancestors(path)[j],
                ),
        },
{
    let roots = state.roots();
    let up = ancestors(path);
    lemma_first_tracked(roots, up);
    match owning_folder(state, path) {
        Some((id, root)) => {
            let k = choose|k: int|
                {
                    &&& 0 <= k < up.len()
                    &&& #[trigger] up[k] == root
                    &&& roots.contains_key(root)
                    &&& roots[root] == id
                    &&& forall|j: int| 0 <= j < k ==> !roots.contains_key(#[trigger] up[j])
                };
            assert forall|j: int| 0 <= j < up.len() && roots.contains_key(#[trigger] up[j]) implies up[j].len() <= root.len() by {
                if j > k {
                    lemma_ancestors_shrink(path, k, j);
                }
            }
        },
        None => {},
    }
}

/// A file below a tracked folder always has a record to go to: a path that
/// names a file and has an owning folder has a path relative to that
/// folder's root, and the root joined with it is the path again.
pub proof fn lemma_owned_file_has_relative_path(state: IndexView, path: Seq<char>)
    requires
        owning_folder(state, path) is Some,
        file_name_of(path) is Some,
    ensures
        ({
            let (folder_id, root) = owning_folder(state, path)->0;
            &&& record_key(state, path) matches Some((id, rel))
            &&& id == folder_id
            &&& joined(root, rel) == path
        }),
{
    let up = ancestors(path);
    lemma_first_tracked(state.roots(), up);
    let (id, root) = owning_folder(state, path)->0;
    let k = choose|k: int|
        {
            &&& 0 <= k < up.len()
            &&& #[trigger] up[k] == root
            &&& state.roots().contains_key(root)
            &&& state.roots()[root] == id
            &&& forall|j: int| 0 <= j < k ==> !state.roots().contains_key(#[trigger] up[j])
        };
    lemma_ancestors_are_dir_prefixes(path, k);
    lemma_dir_prefix_strips(root, path);
}

/// A removal at a path of which the index holds no record leaves the index
/// as it is.
pub proof fn lemma_remove_unknown_file(state: IndexView, path: Seq<char>, probe: FileProbeView)
    requires
        record_key(state, path) matches Some(key) ==> !state.files.contains_key(key),
    ensures
        after_file_change(state, path, FsEventKindView::Remove, probe) == state,
        !(file_change_outcome(state, path, FsEventKindView::Remove, probe) is Refused),
{
    match record_key(state, path) {
        Some(key) => {
            lemma_remove_absent(state, key.0, key.1);
        },
        None => {},
    }
}

/// A file whose record was written on a change is read back from its
/// folder under the very path of the change, with the size, the fingerprint
/// and the time that the look at the file gave.
pub proof fn lemma_written_file_reads_back(
    state: IndexView,
    path: Seq<char>,
    kind: FsEventKindView,
    probe: FileProbeView,
)
    requires
        file_change_outcome(state, path, kind, probe) is Upserted,
    ensures
        ({
            let (folder_id, root) = owning_folder(state, path)->0;
            let files = after_file_change(state, path, kind, probe).folder_files(folder_id, root);
            &&& probe is Regular
            &&& files.contains_key(path)
            &&& files[path].path == path
            &&& files[path].size == probe->Regular_0.size
            &&& files[path].hash == Some(probe->Regular_0.hash)
            &&& files[path].last_modified == probe->Regular_0.modified_secs
        }),
{
    let (folder_id, root) = owning_folder(state, path)->0;
    let rel = stripped(path, root)->0;
    lemma_stripped_joined(path, root);
    lemma_upsert_round_trip(
        state,
        folder_id,
        root,
        rel,
        probe->Regular_0.size,
        probe->Regular_0.hash,
        probe->Regular_0.modified_secs,
    );
}

/// The version that a file's record has: 0 where there is none.
pub open spec fn version_of(state: IndexView, key: (i64, Seq<char>)) -> int {
    if state.files.contains_key(key) {
        state.files[key].version as int
    } else {
        0
    }
}

/// Two changes to one file, dealt with one after the other, leave its
/// record with what the second look gave and with its version two higher
/// than before; no other record and no folder is touched.
pub proof fn lemma_two_changes_count_twice(
    state: IndexView,
    path: Seq<char>,
    first_kind: FsEventKindView,
    first: FileStatView,
    second_kind: FsEventKindView,
    second: FileStatView,
)
    requires
        first_kind is Create || first_kind is Modify,
        second_kind is Create || second_kind is Modify,
        record_key(state, path) is Some,
        version_of(state, record_key(state, path)->0) + 2 <= u64::MAX,
    ensures
        ({
            let key = record_key(state, path)->0;
            let between = after_file_change(state, path, first_kind, FileProbeView::Regular(first));
            let after = after_file_change(between, path, second_kind, FileProbeView::Regular(second));
            &&& after.files.contains_key(key)
            &&& after.files[key] == FileData {
                last_modified_secs: second.modified_secs,
                size_bytes: second.size,
                sha256_hash: Some(second.hash),
                version: (version_of(state, key) + 2) as u64,
            }
            &&& after.files.remove(key) == state.files.remove(key)
            &&& after.folders == state.folders
            &&& after.device_id == state.device_id
        }),
{
    let key = record_key(state, path)->0;
    let between = after_file_change(state, path, first_kind, FileProbeView::Regular(first));
    assert(between.roots() == state.roots());
    assert(record_key(between, path) == Some(key));
    let after = after_file_change(between, path, second_kind, FileProbeView::Regular(second));
    assert(after.files.remove(key) =~= state.files.remove(key));
}

} // verus!


