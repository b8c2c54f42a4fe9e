//! From what the operating system reports of a watched tree to the events
//! that the queue carries.

use crate::event_queue::{events_view, QueueEvent, QueueEventView};
use crate::sync_engine::{FsEventKind, FsEventKindView};
use vstd::prelude::*;

verus! {

/// `notify::EventKind`, the kind of a notification, taken as a value of
/// which nothing is known.
#[verifier::external_type_specification]
#[verifier::external_body]
pub struct ExEventKind(notify::EventKind);

/// The top-level kinds of a notification.
#[derive(Debug, Clone, Copy, PartialEq, Eq, Structural)]
pub enum WatchKind {
    /// The kind is not known.
    Any,
    /// The file was opened, read or closed.
    Access,
    Create,
    Modify,
    Remove,
    /// Something that fits none of the others.
    Other,
}

/// The top-level kind of a notification: the `WatchKind` that has the name
/// of the variant of `notify::EventKind` that `kind` is.
pub uninterp spec fn kind_class(kind: notify::EventKind) -> WatchKind;

/// Tells the variants of `notify::EventKind` apart: each goes to the
/// `WatchKind` of its name, and what a variant holds of finer detail is
/// dropped. The result depends on the variant alone.
#[verifier::external_body]
fn watch_kind(kind: &notify::EventKind) -> (r: WatchKind)
    ensures
        r == kind_class(*kind),
{
    match kind {
        notify::EventKind::Any => WatchKind::Any,
        notify::EventKind::Access(_) => WatchKind::Access,
        notify::EventKind::Create(_) => WatchKind::Create,
        notify::EventKind::Modify(_) => WatchKind::Modify,
        notify::EventKind::Remove(_) => WatchKind::Remove,
        notify::EventKind::Other => WatchKind::Other,
    }
}

/// The event that a notification of `kind` at `path` is queued as: a change
/// to the file for a creation, a modification or a removal, and nothing for
/// any other kind.
pub open spec fn watched_event(path: Seq<char>, kind: WatchKind) -> Option<QueueEventView> {
    match kind {
        WatchKind::Modify => Some(
            QueueEventView::FileChanged { path, kind: FsEventKindView::Modify },
        ),
        WatchKind::Create => Some(
            QueueEventView::FileChanged { path, kind: FsEventKindView::Create },
        ),
        WatchKind::Remove => Some(
            QueueEventView::FileChanged { path, kind: FsEventKindView::Remove },
        ),
        _ => None,
    }
}

/// An optional event as text.
pub open spec fn event_view(event: Option<QueueEvent>) -> Option<QueueEventView> {
    match event {
        Some(e) => Some(e@),
        None => None,
    }
}

/// The event to queue for a notification of `kind` at `path`.
pub fn map_watch_kind(path: String, kind: WatchKind) -> (event: Option<QueueEvent>)
    ensures
        event_view(event) == watched_event(path@, kind),
{
    match kind {
        WatchKind::Modify => Some(QueueEvent::FileChanged { path, kind: FsEventKind::Modify }),
        WatchKind::Create => Some(QueueEvent::FileChanged { path, kind: FsEventKind::Create }),
        WatchKind::Remove => Some(QueueEvent::FileChanged { path, kind: FsEventKind::Remove }),
        _ => None,
    }
}

/// The event to queue for a notification of `kind` at `path`.
pub fn map_notify_event(path: String, kind: &notify::EventKind) -> (event: Option<QueueEvent>)
    ensures
        event_view(event) == watched_event(path@, kind_class(*kind)),
{
    map_watch_kind(path, watch_kind(kind))
}

/// Paths as text.
pub open spec fn paths_view(paths: Seq<String>) -> Seq<Seq<char>> {
    Seq::new(paths.len(), |i: int| paths[i]@)
}

/// The events to queue for one notification of `kind` that names `paths`:
/// for a creation, a modification or a removal one change for each path, in
/// the order of the paths, and nothing for any other kind.
pub open spec fn notified_events(paths: Seq<Seq<char>>, kind: WatchKind) -> Seq<QueueEventView>
    decreases paths.len(),
{
    if paths.len() == 0 {
        Seq::empty()
    } else {
        match watched_event(paths.last(), kind) {
            Some(event) => notified_events(paths.drop_last(), kind).push(event),
            None => notified_events(paths.drop_last(), kind),
        }
    }
}

/// The events to queue for one notification, which may name several paths.
pub fn events_for_notification(paths: &Vec<String>, kind: &notify::EventKind) -> (events: Vec<
    QueueEvent,
>)
    ensures
        events_view(events@) == notified_events(paths_view(paths@), kind_class(*kind)),
{
    let class = watch_kind(kind);
    let ghost named = paths_view(paths@);
    let mut events: Vec<QueueEvent> = Vec::new();
    let mut i: usize = 0;
    assert(named.subrange(0, 0) =~= Seq::empty());
    assert(events_view(events@) =~= Seq::empty());
    while i < paths.len()
        invariant
            i <= paths@.len(),
            named == paths_view(paths@),
            class == kind_class(*kind),
            events_view(events@) == notified_events(named.subrange(0, i as int), class),
        decreases paths@.len() - i,
    {
        proof {
            assert(named.subrange(0, i + 1).drop_last() =~= named.subrange(0, i as int));
            assert(named.subrange(0, i + 1).last() == paths@[i as int]@);
        }
        match map_watch_kind(paths[i].clone(), class) {
            Some(event) => {
                proof {
                    assert(events_view(events@.push(event)) =~= events_view(events@).push(event@));
                }
                events.push(event);
            },
            None => {},
        }
        i = i + 1;
    }
    assert(named.subrange(0, paths@.len() as int) =~= named);
    events
}

} // verus!
