use sync_rs::database::{Database, FileRecord, FolderRecord, IndexError};

fn folder(id: i64, name: &str, path: &str) -> FolderRecord {
    FolderRecord { id, name: name.to_string(), local_path: path.to_string() }
}

fn record(folder_id: i64, rel: &str, version: u64) -> FileRecord {
    FileRecord {
        folder_id,
        relative_path: rel.to_string(),
        last_modified_secs: 10,
        size_bytes: 20,
        sha256_hash: Some("h".to_string()),
        version,
    }
}

#[test]
fn new_index_is_empty() {
    let db = Database::new();
    assert_eq!(db.get_all_synced_folders(), vec![]);
    assert_eq!(db.get_folder_by_path("/sync"), None);
    assert!(db.get_file_record(1, "a.txt").is_none());
    assert_eq!(db.get_folders_and_files(1, "/sync").len(), 0);
}

#[test]
fn folder_ids_count_up_from_one() {
    let mut db = Database::new();
    assert_eq!(db.add_folder("a", "/a"), Ok(1));
    assert_eq!(db.add_folder("b", "/b"), Ok(2));
    assert_eq!(db.add_folder("c", "/a/c"), Ok(3));
    assert_eq!(
        db.get_all_synced_folders(),
        vec![(1, "/a".to_string()), (2, "/b".to_string()), (3, "/a/c".to_string())]
    );
}

#[test]
fn a_taken_name_is_refused() {
    let mut db = Database::new();
    assert_eq!(db.add_folder("sync", "/sync"), Ok(1));
    assert_eq!(db.add_folder("sync", "/elsewhere"), Err(IndexError::NameTaken));
    assert_eq!(db.get_all_synced_folders().len(), 1);
    assert_eq!(db.get_folder_by_path("/elsewhere"), None);
}

#[test]
fn a_taken_root_is_refused() {
    let mut db = Database::new();
    assert_eq!(db.add_folder("sync", "/sync"), Ok(1));
    assert_eq!(db.add_folder("again", "/sync"), Err(IndexError::PathTaken));
    assert_eq!(db.get_all_synced_folders(), vec![(1, "/sync".to_string())]);
}

#[test]
fn a_taken_name_is_reported_before_a_taken_root() {
    let mut db = Database::new();
    assert_eq!(db.add_folder("sync", "/sync"), Ok(1));
    assert_eq!(db.add_folder("sync", "/sync"), Err(IndexError::NameTaken));
}

#[test]
fn a_refused_folder_uses_up_no_identifier() {
    let mut db = Database::new();
    assert_eq!(db.add_folder("a", "/a"), Ok(1));
    assert_eq!(db.add_folder("a", "/x"), Err(IndexError::NameTaken));
    assert_eq!(db.add_folder("b", "/b"), Ok(2));
}

#[test]
fn identifiers_run_out_at_the_largest() {
    let db = Database::from_records(None, vec![folder(i64::MAX, "last", "/last")], vec![]);
    let mut db = db.unwrap();
    assert_eq!(db.add_folder("more", "/more"), Err(IndexError::IdsExhausted));
    assert_eq!(db.get_all_synced_folders().len(), 1);
}

#[test]
fn folder_is_found_by_its_exact_root() {
    let mut db = Database::new();
    assert_eq!(db.add_folder("a", "/a"), Ok(1));
    assert_eq!(db.add_folder("b", "/a/b"), Ok(2));
    assert_eq!(db.get_folder_by_path("/a"), Some((1, "/a".to_string())));
    assert_eq!(db.get_folder_by_path("/a/b"), Some((2, "/a/b".to_string())));
    assert_eq!(db.get_folder_by_path("/a/"), None);
    assert_eq!(db.get_folder_by_path("/a/b/c"), None);
    assert_eq!(db.get_folder_by_path(""), None);
}

#[test]
fn first_write_of_a_record_gets_version_one() {
    let mut db = Database::new();
    assert_eq!(db.upsert_file_record(1, "a.txt", 2, "hash", 99), Ok(()));
    let r = db.get_file_record(1, "a.txt").unwrap();
    assert_eq!(r.folder_id, 1);
    assert_eq!(r.relative_path, "a.txt");
    assert_eq!(r.size_bytes, 2);
    assert_eq!(r.last_modified_secs, 99);
    assert_eq!(r.sha256_hash, Some("hash".to_string()));
    assert_eq!(r.version, 1);
}

#[test]
fn every_further_write_raises_the_version_by_one() {
    let mut db = Database::new();
    for expected in 1..=5u64 {
        assert_eq!(db.upsert_file_record(1, "a.txt", 2, "same", 99), Ok(()));
        assert_eq!(db.get_file_record(1, "a.txt").unwrap().version, expected);
    }
}

#[test]
fn a_write_replaces_size_time_and_hash() {
    let mut db = Database::new();
    assert_eq!(db.upsert_file_record(1, "a.txt", 2, "one", 10), Ok(()));
    assert_eq!(db.upsert_file_record(1, "a.txt", 3, "two", 11), Ok(()));
    let r = db.get_file_record(1, "a.txt").unwrap();
    assert_eq!((r.size_bytes, r.last_modified_secs, r.version), (3, 11, 2));
    assert_eq!(r.sha256_hash, Some("two".to_string()));
}

#[test]
fn records_are_kept_apart_by_folder_and_path() {
    let mut db = Database::new();
    assert_eq!(db.upsert_file_record(1, "a.txt", 1, "x", 1), Ok(()));
    assert_eq!(db.upsert_file_record(2, "a.txt", 2, "y", 2), Ok(()));
    assert_eq!(db.upsert_file_record(1, "b.txt", 3, "z", 3), Ok(()));
    assert_eq!(db.upsert_file_record(1, "a.txt", 4, "w", 4), Ok(()));
    assert_eq!(db.get_file_record(1, "a.txt").unwrap().version, 2);
    assert_eq!(db.get_file_record(2, "a.txt").unwrap().version, 1);
    assert_eq!(db.get_file_record(2, "a.txt").unwrap().size_bytes, 2);
    assert_eq!(db.get_file_record(1, "b.txt").unwrap().version, 1);
}

#[test]
fn an_exhausted_version_refuses_the_write() {
    let db = Database::from_records(None, vec![], vec![record(1, "a.txt", u64::MAX)]);
    let mut db = db.unwrap();
    assert_eq!(db.upsert_file_record(1, "a.txt", 9, "new", 9), Err(IndexError::VersionExhausted));
    let r = db.get_file_record(1, "a.txt").unwrap();
    assert_eq!((r.size_bytes, r.version), (20, u64::MAX));
    assert_eq!(r.sha256_hash, Some("h".to_string()));
}

#[test]
fn the_last_version_can_still_be_reached() {
    let db = Database::from_records(None, vec![], vec![record(1, "a.txt", u64::MAX - 1)]);
    let mut db = db.unwrap();
    assert_eq!(db.upsert_file_record(1, "a.txt", 9, "new", 9), Ok(()));
    assert_eq!(db.get_file_record(1, "a.txt").unwrap().version, u64::MAX);
}

#[test]
fn remove_drops_the_record() {
    let mut db = Database::new();
    assert_eq!(db.upsert_file_record(1, "a.txt", 1, "x", 1), Ok(()));
    assert_eq!(db.upsert_file_record(1, "b.txt", 1, "x", 1), Ok(()));
    assert_eq!(db.remove_file_entry(1, "a.txt"), Ok(()));
    assert!(db.get_file_record(1, "a.txt").is_none());
    assert!(db.get_file_record(1, "b.txt").is_some());
}

#[test]
fn remove_of_a_path_never_indexed_changes_nothing() {
    let mut db = Database::new();
    assert_eq!(db.add_folder("sync", "/sync"), Ok(1));
    assert_eq!(db.upsert_file_record(1, "a.txt", 1, "x", 1), Ok(()));
    assert_eq!(db.remove_file_entry(1, "never.txt"), Ok(()));
    assert_eq!(db.remove_file_entry(7, "a.txt"), Ok(()));
    assert_eq!(db.get_folders_and_files(1, "/sync").len(), 1);
    assert_eq!(db.get_file_record(1, "a.txt").unwrap().version, 1);
    assert_eq!(db.get_all_synced_folders(), vec![(1, "/sync".to_string())]);
}

#[test]
fn a_record_written_again_after_removal_starts_at_one() {
    let mut db = Database::new();
    assert_eq!(db.upsert_file_record(1, "a.txt", 1, "x", 1), Ok(()));
    assert_eq!(db.upsert_file_record(1, "a.txt", 1, "x", 1), Ok(()));
    assert_eq!(db.remove_file_entry(1, "a.txt"), Ok(()));
    assert_eq!(db.upsert_file_record(1, "a.txt", 1, "x", 1), Ok(()));
    assert_eq!(db.get_file_record(1, "a.txt").unwrap().version, 1);
}

#[test]
fn a_written_record_reads_back_under_its_absolute_path() {
    let mut db = Database::new();
    assert_eq!(db.add_folder("sync", "/sync"), Ok(1));
    assert_eq!(db.upsert_file_record(1, "dir/a.txt", 42, "fingerprint", 1234), Ok(()));
    let files = db.get_folders_and_files(1, "/sync");
    assert_eq!(files.len(), 1);
    let entry = files.get("/sync/dir/a.txt").unwrap();
    assert_eq!(entry.path, "/sync/dir/a.txt");
    assert_eq!(entry.size, 42);
    assert_eq!(entry.last_modified, 1234);
    assert_eq!(entry.hash, Some("fingerprint".to_string()));
    assert_eq!(entry.version, 1);
}

#[test]
fn files_are_read_for_one_folder_only() {
    let mut db = Database::new();
    assert_eq!(db.upsert_file_record(1, "a", 1, "x", 1), Ok(()));
    assert_eq!(db.upsert_file_record(2, "b", 2, "y", 2), Ok(()));
    assert_eq!(db.upsert_file_record(1, "c", 3, "z", 3), Ok(()));
    let files = db.get_folders_and_files(1, "/one");
    assert_eq!(files.len(), 2);
    assert!(files.contains_key("/one/a"));
    assert!(files.contains_key("/one/c"));
    assert!(!files.contains_key("/one/b"));
    assert_eq!(db.get_folders_and_files(3, "/none").len(), 0);
}

#[test]
fn files_below_the_root_folder_get_one_separator() {
    let mut db = Database::new();
    assert_eq!(db.upsert_file_record(1, "a", 1, "x", 1), Ok(()));
    let files = db.get_folders_and_files(1, "/");
    assert!(files.contains_key("/a"));
}

#[test]
fn a_record_without_hash_reads_back_without() {
    let mut row = record(1, "a", 1);
    row.sha256_hash = None;
    let db = Database::from_records(None, vec![], vec![row]).unwrap();
    assert_eq!(db.get_file_record(1, "a").unwrap().sha256_hash, None);
    assert_eq!(db.get_folders_and_files(1, "/r").get("/r/a").unwrap().hash, None);
}

#[test]
fn device_id_is_created_once() {
    let mut db = Database::new();
    let first = db.get_or_create_device_id();
    let second = db.get_or_create_device_id();
    assert_eq!(first, second);
}

#[test]
fn device_id_is_a_hyphenated_uuid() {
    let mut db = Database::new();
    let id = db.get_or_create_device_id();
    assert_eq!(id.len(), 36);
    for (i, c) in id.chars().enumerate() {
        if i == 8 || i == 13 || i == 18 || i == 23 {
            assert_eq!(c, '-');
        } else {
            assert!(c.is_ascii_digit() || ('a'..='f').contains(&c));
        }
    }
    assert_eq!(id.chars().nth(14), Some('4'));
}

#[test]
fn two_indexes_get_different_device_ids() {
    let a = Database::new().get_or_create_device_id();
    let b = Database::new().get_or_create_device_id();
    assert_ne!(a, b);
}

#[test]
fn device_id_or_takes_the_candidate_only_when_none_is_there() {
    let mut db = Database::new();
    assert_eq!(db.device_id_or("first".to_string()), "first");
    assert_eq!(db.device_id_or("second".to_string()), "first");
    assert_eq!(db.get_or_create_device_id(), "first");
}

#[test]
fn a_stored_device_id_is_kept() {
    let mut db = Database::from_records(Some("stored".to_string()), vec![], vec![]).unwrap();
    assert_eq!(db.get_or_create_device_id(), "stored");
}

#[test]
fn from_records_holds_what_it_was_given() {
    let db = Database::from_records(
        None,
        vec![folder(3, "c", "/c"), folder(1, "a", "/a")],
        vec![record(3, "x", 7), record(1, "x", 2)],
    );
    let mut db = db.unwrap();
    assert_eq!(db.get_all_synced_folders(), vec![(3, "/c".to_string()), (1, "/a".to_string())]);
    assert_eq!(db.get_folder_by_path("/a"), Some((1, "/a".to_string())));
    assert_eq!(db.get_file_record(3, "x").unwrap().version, 7);
    assert_eq!(db.get_file_record(1, "x").unwrap().version, 2);
    assert_eq!(db.add_folder("d", "/d"), Ok(4));
}

#[test]
fn from_records_refuses_rows_that_share_a_key() {
    assert!(Database::from_records(None, vec![folder(1, "a", "/a"), folder(1, "b", "/b")], vec![])
        .is_none());
    assert!(Database::from_records(None, vec![folder(1, "a", "/a"), folder(2, "a", "/b")], vec![])
        .is_none());
    assert!(Database::from_records(None, vec![folder(1, "a", "/a"), folder(2, "b", "/a")], vec![])
        .is_none());
    assert!(Database::from_records(None, vec![], vec![record(1, "x", 1), record(1, "x", 2)])
        .is_none());
    assert!(Database::from_records(
        None,
        vec![folder(1, "a", "/a"), folder(2, "b", "/b"), folder(3, "c", "/a")],
        vec![]
    )
    .is_none());
}

#[test]
fn from_records_refuses_an_identifier_below_one() {
    assert!(Database::from_records(None, vec![folder(0, "a", "/a")], vec![]).is_none());
    assert!(Database::from_records(None, vec![folder(-5, "a", "/a")], vec![]).is_none());
}

#[test]
fn from_records_accepts_records_of_unknown_folders() {
    let db = Database::from_records(None, vec![], vec![record(9, "x", 1), record(9, "y", 1)]);
    assert_eq!(db.unwrap().get_folders_and_files(9, "/r").len(), 2);
}
