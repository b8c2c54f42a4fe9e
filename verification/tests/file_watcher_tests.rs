use notify::event::{AccessKind, CreateKind, DataChange, ModifyKind, RemoveKind, RenameMode};
use notify::EventKind;
use sync_rs::event_queue::QueueEvent;
use sync_rs::file_watcher::{events_for_notification, map_notify_event, map_watch_kind, WatchKind};
use sync_rs::sync_engine::FsEventKind;

fn path_and_kind(event: Option<QueueEvent>) -> Option<(String, FsEventKind)> {
    match event {
        Some(QueueEvent::FileChanged { path, kind }) => Some((path, kind)),
        Some(_) => panic!("a notification is queued as a change to a file"),
        None => None,
    }
}

#[test]
fn a_modification_is_queued_as_modify() {
    for kind in [
        EventKind::Modify(ModifyKind::Any),
        EventKind::Modify(ModifyKind::Data(DataChange::Content)),
        EventKind::Modify(ModifyKind::Name(RenameMode::Both)),
    ] {
        let (path, kind) = path_and_kind(map_notify_event("/sync/a".to_string(), &kind)).unwrap();
        assert_eq!(path, "/sync/a");
        assert!(matches!(kind, FsEventKind::Modify));
    }
}

#[test]
fn a_creation_is_queued_as_create() {
    for kind in [EventKind::Create(CreateKind::File), EventKind::Create(CreateKind::Folder)] {
        let (path, kind) = path_and_kind(map_notify_event("/sync/b".to_string(), &kind)).unwrap();
        assert_eq!(path, "/sync/b");
        assert!(matches!(kind, FsEventKind::Create));
    }
}

#[test]
fn a_removal_is_queued_as_remove() {
    let kind = EventKind::Remove(RemoveKind::File);
    let (path, kind) = path_and_kind(map_notify_event("/sync/c".to_string(), &kind)).unwrap();
    assert_eq!(path, "/sync/c");
    assert!(matches!(kind, FsEventKind::Remove));
}

#[test]
fn other_notifications_are_dropped() {
    for kind in [EventKind::Any, EventKind::Access(AccessKind::Read), EventKind::Other] {
        assert!(map_notify_event("/sync/d".to_string(), &kind).is_none());
    }
}

#[test]
fn each_watch_kind_has_its_event() {
    let queued = |kind| path_and_kind(map_watch_kind("/p".to_string(), kind));
    assert!(matches!(queued(WatchKind::Create), Some((_, FsEventKind::Create))));
    assert!(matches!(queued(WatchKind::Modify), Some((_, FsEventKind::Modify))));
    assert!(matches!(queued(WatchKind::Remove), Some((_, FsEventKind::Remove))));
    assert!(queued(WatchKind::Any).is_none());
    assert!(queued(WatchKind::Access).is_none());
    assert!(queued(WatchKind::Other).is_none());
    assert_eq!(queued(WatchKind::Create).unwrap().0, "/p");
}

#[test]
fn a_notification_gives_one_event_for_each_path_in_order() {
    let paths = vec!["/sync/from".to_string(), "/sync/to".to_string(), "/sync/from".to_string()];
    let events = events_for_notification(&paths, &EventKind::Modify(ModifyKind::Any));
    assert_eq!(events.len(), 3);
    let mut seen = Vec::new();
    for event in events {
        let (path, kind) = path_and_kind(Some(event)).unwrap();
        assert!(matches!(kind, FsEventKind::Modify));
        seen.push(path);
    }
    assert_eq!(seen, paths);
}

#[test]
fn a_notification_keeps_its_kind_for_every_path() {
    let paths = vec!["/a".to_string(), "/b".to_string()];
    for event in events_for_notification(&paths, &EventKind::Remove(RemoveKind::Any)) {
        assert!(matches!(path_and_kind(Some(event)), Some((_, FsEventKind::Remove))));
    }
    for event in events_for_notification(&paths, &EventKind::Create(CreateKind::Any)) {
        assert!(matches!(path_and_kind(Some(event)), Some((_, FsEventKind::Create))));
    }
}

#[test]
fn a_notification_of_another_kind_gives_no_event() {
    let paths = vec!["/a".to_string(), "/b".to_string()];
    for kind in [EventKind::Any, EventKind::Access(AccessKind::Any), EventKind::Other] {
        assert_eq!(events_for_notification(&paths, &kind).len(), 0);
    }
}

#[test]
fn a_notification_without_paths_gives_no_event() {
    assert_eq!(events_for_notification(&vec![], &EventKind::Create(CreateKind::File)).len(), 0);
}
