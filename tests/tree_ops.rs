use godata::error::GodataErrorType;
use godata::fsystem::FileSystem;
use godata::path::split_path;
use godata::records::{Batch, FolderRecord};
use godata::storage::StorageMapping;

fn fresh() -> FileSystem {
    FileSystem::new("demo".to_string(), false).ok().unwrap()
}

fn kind<T>(r: Result<T, godata::error::GodataError>) -> GodataErrorType {
    match r {
        Ok(_) => panic!("expected an error"),
        Err(e) => e.kind(),
    }
}

fn meta(k: &str, v: &str) -> Vec<(String, String)> {
    vec![(k.to_string(), v.to_string())]
}

#[test]
fn split_path_segments() {
    assert_eq!(split_path("a/b/c"), vec!["a", "b", "c"]);
    assert_eq!(split_path(""), vec![""]);
    assert_eq!(split_path("a//b"), vec!["a", "", "b"]);
    assert_eq!(split_path("x/"), vec!["x", ""]);
}

#[test]
fn new_tree_refused_when_root_exists() {
    assert_eq!(kind(FileSystem::new("p".to_string(), true)), GodataErrorType::AlreadyExists);
    let t = fresh();
    assert_eq!(t.root.id, "root");
    assert!(t.root.children.is_empty());
}

#[test]
fn insert_creates_intermediate_folders() {
    let mut t = fresh();
    let r = t.insert("a/b/c/file.txt", "data/file.txt".to_string(), meta("k", "v"), false);
    assert!(r.ok().unwrap().is_none());
    assert!(t.path_exists("a"));
    assert!(t.path_exists("a/b/c"));
    let f = t.get("a/b/c/file.txt").ok().unwrap();
    assert_eq!(f.real_path, "data/file.txt");
    assert_eq!(f.name, "file.txt");
    assert_eq!(f.metadata, meta("k", "v"));
    let l = t.list(Some("a/b")).ok().unwrap();
    assert_eq!(l.folders, vec!["c"]);
    assert!(l.files.is_empty());
    let top = t.list(None).ok().unwrap();
    assert_eq!(top.folders, vec!["a"]);
}

#[test]
fn insert_duplicate_without_overwrite_is_refused() {
    let mut t = fresh();
    t.insert("a/x", "one".to_string(), vec![], false).ok().unwrap();
    let r = t.insert("a/x", "two".to_string(), vec![], false);
    assert_eq!(kind(r), GodataErrorType::AlreadyExists);
    assert_eq!(t.get("a/x").ok().unwrap().real_path, "one");
    let r = t.insert("a", "three".to_string(), vec![], false);
    assert_eq!(kind(r), GodataErrorType::AlreadyExists);
    assert!(t.path_exists("a/x"));
}

#[test]
fn insert_through_a_file_is_invalid() {
    let mut t = fresh();
    t.insert("f", "one".to_string(), vec![], false).ok().unwrap();
    assert_eq!(kind(t.insert("f/g", "two".to_string(), vec![], false)), GodataErrorType::InvalidPath);
    assert_eq!(kind(t.insert("f/g/h", "two".to_string(), vec![], true)), GodataErrorType::InvalidPath);
}

#[test]
fn overwrite_replaces_a_file() {
    let mut t = fresh();
    t.insert("a/x", "one".to_string(), vec![], false).ok().unwrap();
    let prev = t.insert("a/x", "two".to_string(), vec![], true).ok().unwrap().unwrap();
    assert_eq!(prev.len(), 1);
    assert_eq!(prev[0].real_path, "one");
    assert_eq!(t.get("a/x").ok().unwrap().real_path, "two");
}

#[test]
fn overwrite_drains_a_folder() {
    let mut t = fresh();
    t.insert("d/one", "r1".to_string(), vec![], false).ok().unwrap();
    t.insert("d/sub/two", "r2".to_string(), vec![], false).ok().unwrap();
    t.insert("d/sub/deeper/three", "r3".to_string(), vec![], false).ok().unwrap();
    let prev = t.insert("d", "new".to_string(), vec![], true).ok().unwrap().unwrap();
    let mut paths: Vec<String> = prev.iter().map(|f| f.real_path.clone()).collect();
    paths.sort();
    assert_eq!(paths, vec!["r1", "r2", "r3"]);
    assert!(!t.path_exists("d/one"));
    assert!(!t.path_exists("d/sub/two"));
    assert_eq!(t.get("d").ok().unwrap().real_path, "new");
}

#[test]
fn remove_collapses_empty_folders() {
    let mut t = fresh();
    t.insert("a/b/c/file.txt", "r".to_string(), vec![], false).ok().unwrap();
    let removed = t.remove("a/b/c/file.txt").ok().unwrap();
    assert_eq!(removed.len(), 1);
    assert_eq!(removed[0].real_path, "r");
    assert!(!t.path_exists("a"));
    assert!(t.root.children.is_empty());
}

#[test]
fn remove_collapses_up_to_a_shared_folder() {
    let mut t = fresh();
    t.insert("a/keep", "k".to_string(), vec![], false).ok().unwrap();
    t.insert("a/b/c/file.txt", "r".to_string(), vec![], false).ok().unwrap();
    t.remove("a/b/c/file.txt").ok().unwrap();
    assert!(t.path_exists("a"));
    assert!(!t.path_exists("a/b"));
    assert!(t.path_exists("a/keep"));
}

#[test]
fn remove_one_of_two_keeps_the_folder() {
    let mut t = fresh();
    t.insert("a/x.txt", "x".to_string(), vec![], false).ok().unwrap();
    t.insert("a/y.txt", "y".to_string(), vec![], false).ok().unwrap();
    let removed = t.remove("a/x.txt").ok().unwrap();
    assert_eq!(removed.len(), 1);
    assert!(t.path_exists("a"));
    assert!(t.path_exists("a/y.txt"));
    assert!(!t.path_exists("a/x.txt"));
}

#[test]
fn remove_a_folder_returns_all_its_files() {
    let mut t = fresh();
    t.insert("a/keep", "k".to_string(), vec![], false).ok().unwrap();
    t.insert("a/f/one", "1".to_string(), vec![], false).ok().unwrap();
    t.insert("a/f/g/two", "2".to_string(), vec![], false).ok().unwrap();
    let removed = t.remove("a/f").ok().unwrap();
    assert_eq!(removed.len(), 2);
    assert_eq!(t.removed.len(), 2);
    assert!(t.path_exists("a/keep"));
}

#[test]
fn remove_errors() {
    let mut t = fresh();
    t.insert("a/x", "x".to_string(), vec![], false).ok().unwrap();
    assert_eq!(kind(t.remove("")), GodataErrorType::InvalidPath);
    assert_eq!(kind(t.remove("nope")), GodataErrorType::NotFound);
    assert_eq!(kind(t.remove("a/nope")), GodataErrorType::NotFound);
    assert_eq!(kind(t.remove("a/x/y")), GodataErrorType::InvalidPath);
    assert!(t.path_exists("a/x"));
}

#[test]
fn get_and_list_errors() {
    let mut t = fresh();
    t.insert("a/x", "x".to_string(), vec![], false).ok().unwrap();
    assert_eq!(kind(t.get("a")), GodataErrorType::InvalidPath);
    assert_eq!(kind(t.get("a/y")), GodataErrorType::NotFound);
    assert_eq!(kind(t.get("a/x/y")), GodataErrorType::NotFound);
    assert_eq!(kind(t.list(Some("a/x"))), GodataErrorType::InvalidPath);
    assert_eq!(kind(t.list(Some("b"))), GodataErrorType::NotFound);
    assert!(!t.path_exists(""));
    assert!(!t.path_exists("a/x/y"));
}

#[test]
fn move_keeps_identity() {
    let mut t = fresh();
    t.insert("a/x", "rx".to_string(), meta("color", "red"), false).ok().unwrap();
    t.insert("a/other", "ro".to_string(), vec![], false).ok().unwrap();
    let before_id = t.get("a/x").ok().unwrap().id.clone();
    let r = t.move_("a/x", "b/x", false).ok().unwrap();
    assert!(r.is_none());
    let moved = t.get("b/x").ok().unwrap();
    assert_eq!(moved.id, before_id);
    assert_eq!(moved.metadata, meta("color", "red"));
    assert_eq!(moved.real_path, "rx");
    assert!(!t.path_exists("a/x"));
    assert!(t.path_exists("a/other"));
}

#[test]
fn move_renames_and_collapses_source() {
    let mut t = fresh();
    t.insert("src/deep/f", "rf".to_string(), vec![], false).ok().unwrap();
    t.move_("src/deep", "dst/renamed", false).ok().unwrap();
    assert!(!t.path_exists("src"));
    assert_eq!(t.get("dst/renamed/f").ok().unwrap().real_path, "rf");
}

#[test]
fn move_errors_and_overwrite() {
    let mut t = fresh();
    t.insert("a", "ra".to_string(), vec![], false).ok().unwrap();
    t.insert("b", "rb".to_string(), vec![], false).ok().unwrap();
    assert_eq!(kind(t.move_("nope", "c", false)), GodataErrorType::NotFound);
    assert_eq!(kind(t.move_("a", "b", false)), GodataErrorType::AlreadyExists);
    assert_eq!(kind(t.move_("a", "b/c", true)), GodataErrorType::InvalidPath);
    let prev = t.move_("a", "b", true).ok().unwrap().unwrap();
    assert_eq!(prev.len(), 1);
    assert_eq!(prev[0].real_path, "rb");
    assert_eq!(t.get("b").ok().unwrap().real_path, "ra");
    assert!(!t.path_exists("a"));
}

#[test]
fn insert_many_fills_a_folder() {
    let mut t = fresh();
    let entries = vec![
        ("/d/one.txt".to_string(), "one.txt".to_string()),
        ("/d/two.txt".to_string(), "two.txt".to_string()),
        ("/e/one.txt".to_string(), "one.txt".to_string()),
    ];
    t.insert_many(entries, "docs/new").ok().unwrap();
    assert_eq!(t.get("docs/new/one.txt").ok().unwrap().real_path, "/e/one.txt");
    assert_eq!(t.get("docs/new/two.txt").ok().unwrap().real_path, "/d/two.txt");
    let l = t.list(Some("docs/new")).ok().unwrap();
    assert_eq!(l.files.len(), 2);
    t.insert("f", "rf".to_string(), vec![], false).ok().unwrap();
    let r = t.insert_many(vec![("/x".to_string(), "x".to_string())], "f/g");
    assert_eq!(kind(r), GodataErrorType::InvalidPath);
    t.insert_many(vec![("/top".to_string(), "top".to_string())], "").ok().unwrap();
    assert_eq!(t.get("top").ok().unwrap().real_path, "/top");
}

fn flush(t: &mut FileSystem) -> Batch {
    let b = t.flush_batch();
    t.mark_flushed();
    b
}

fn apply(store: &mut Vec<(String, FolderRecord)>, batch: Batch) {
    for id in batch.removals {
        store.retain(|(k, _)| *k != id);
    }
    for (id, rec) in batch.writes {
        store.retain(|(k, _)| *k != id);
        store.push((id, rec));
    }
}

#[test]
fn flush_writes_only_dirty_folders() {
    let mut t = fresh();
    let first = flush(&mut t);
    assert_eq!(first.writes.len(), 1);
    assert_eq!(first.writes[0].0, "root");
    assert!(first.writes[0].1.is_empty());
    let again = flush(&mut t);
    assert!(again.writes.is_empty());
    t.insert("a/b", "rb".to_string(), vec![], false).ok().unwrap();
    let batch = flush(&mut t);
    assert_eq!(batch.writes.len(), 2);
    t.insert("c", "rc".to_string(), vec![], false).ok().unwrap();
    let batch = flush(&mut t);
    assert_eq!(batch.writes.len(), 1);
    assert_eq!(batch.writes[0].0, "root");
    assert_eq!(batch.writes[0].1.files.len(), 1);
    assert_eq!(batch.writes[0].1.folder_ids.len(), 1);
}

#[test]
fn reopen_yields_the_same_files() {
    let mut store: Vec<(String, FolderRecord)> = Vec::new();
    let mut t = fresh();
    t.insert("a/b/one", "r1".to_string(), meta("m", "1"), false).ok().unwrap();
    t.insert("a/two", "r2".to_string(), vec![], false).ok().unwrap();
    t.insert("c/d/three", "r3".to_string(), vec![], false).ok().unwrap();
    apply(&mut store, flush(&mut t));
    t.remove("c/d/three").ok().unwrap();
    t.insert("a/b/four", "r4".to_string(), vec![], false).ok().unwrap();
    t.move_("a/two", "e/two", false).ok().unwrap();
    apply(&mut store, flush(&mut t));
    let back = FileSystem::load("demo".to_string(), &store).ok().unwrap();
    for p in ["a/b/one", "a/b/four", "e/two"] {
        let x = t.get(p).ok().unwrap();
        let y = back.get(p).ok().unwrap();
        assert_eq!(x.real_path, y.real_path);
        assert_eq!(x.metadata, y.metadata);
        assert_eq!(x.id, y.id);
    }
    assert!(!back.path_exists("c"));
    assert!(!back.path_exists("a/two"));
    assert_eq!(store.len(), 4);
}

#[test]
fn load_without_root_is_not_found() {
    let store: Vec<(String, FolderRecord)> = Vec::new();
    assert_eq!(kind(FileSystem::load("p".to_string(), &store)), GodataErrorType::NotFound);
    let dangling = vec![(
        "root".to_string(),
        FolderRecord {
            name: "root".to_string(),
            folder_ids: vec!["gone".to_string()],
            files: vec![],
            metadata: vec![],
        },
    )];
    assert_eq!(kind(FileSystem::load("p".to_string(), &dangling)), GodataErrorType::NotFound);
    let cyclic = vec![(
        "root".to_string(),
        FolderRecord {
            name: "root".to_string(),
            folder_ids: vec!["root".to_string()],
            files: vec![],
            metadata: vec![],
        },
    )];
    assert_eq!(kind(FileSystem::load("p".to_string(), &cyclic)), GodataErrorType::InternalError);
}

#[test]
fn reopen_after_moving_a_folder() {
    let mut store: Vec<(String, FolderRecord)> = Vec::new();
    let mut t = fresh();
    t.insert("a/sub/deep/f", "rf".to_string(), vec![], false).ok().unwrap();
    t.insert("a/g", "rg".to_string(), vec![], false).ok().unwrap();
    apply(&mut store, flush(&mut t));
    t.move_("a/sub", "b/moved", false).ok().unwrap();
    apply(&mut store, flush(&mut t));
    let back = FileSystem::load("demo".to_string(), &store).ok().unwrap();
    assert_eq!(back.get("b/moved/deep/f").ok().unwrap().real_path, "rf");
    assert_eq!(back.get("a/g").ok().unwrap().real_path, "rg");
    assert!(!back.path_exists("a/sub"));
}

#[test]
fn export_then_load_round_trips() {
    let mut t = fresh();
    t.insert("a/b/one", "r1".to_string(), meta("m", "1"), false).ok().unwrap();
    t.insert("a/two", "r2".to_string(), vec![], false).ok().unwrap();
    t.insert("c", "r3".to_string(), vec![], false).ok().unwrap();
    let store = t.export();
    assert_eq!(store.len(), 3);
    let back = FileSystem::load("copy".to_string(), &store).ok().unwrap();
    for p in ["a/b/one", "a/two", "c"] {
        let x = t.get(p).ok().unwrap();
        let y = back.get(p).ok().unwrap();
        assert_eq!(x.real_path, y.real_path);
        assert_eq!(x.metadata, y.metadata);
        assert_eq!(x.id, y.id);
    }
    assert_eq!(back.list(None).ok().unwrap().folders, vec!["a"]);
}

#[test]
fn new_nodes_get_distinct_identifiers() {
    let mut t = fresh();
    t.insert("a/x", "rx".to_string(), vec![], false).ok().unwrap();
    t.insert("a/y", "ry".to_string(), vec![], false).ok().unwrap();
    let x = t.get("a/x").ok().unwrap().id.clone();
    let y = t.get("a/y").ok().unwrap().id.clone();
    assert!(!x.is_empty());
    assert_ne!(x, y);
    assert_ne!(x, "root");
}

#[test]
fn storage_mapping_text() {
    let m = StorageMapping::new("local".to_string(), "/data/p:x".to_string());
    assert_eq!(m.encode(), "local:/data/p:x");
    let back = StorageMapping::decode("local:/data/p:x").unwrap();
    assert_eq!(back.endpoint_kind, "local");
    assert_eq!(back.root_path, "/data/p:x");
    assert!(StorageMapping::decode("no colon").is_none());
}

#[test]
fn batch_leaves_the_tree_dirty_until_marked() {
    let mut t = fresh();
    t.insert("a/b", "rb".to_string(), vec![], false).ok().unwrap();
    let first = t.flush_batch();
    let again = t.flush_batch();
    assert_eq!(first.writes.len(), again.writes.len());
    t.mark_flushed();
    assert!(t.flush_batch().writes.is_empty());
}

#[test]
fn move_within_a_folder_keeps_its_other_files() {
    let mut t = fresh();
    t.insert("a/x", "r/x".to_string(), vec![], false).ok().unwrap();
    t.insert("a/z", "r/z".to_string(), vec![], false).ok().unwrap();
    assert!(t.move_("a/x", "a/y", false).ok().unwrap().is_none());
    let y = t.get("a/y").ok().unwrap();
    assert_eq!(y.name, "y");
    assert_eq!(y.real_path, "r/x");
    assert!(!t.path_exists("a/x"));
    assert!(t.path_exists("a/z"));
}

#[test]
fn reload_after_collapse_to_the_root() {
    let mut store: Vec<(String, FolderRecord)> = Vec::new();
    let mut t = fresh();
    t.insert("a/b/c/file.txt", "r/file.txt".to_string(), vec![], false).ok().unwrap();
    apply(&mut store, flush(&mut t));
    t.remove("a/b/c/file.txt").ok().unwrap();
    apply(&mut store, flush(&mut t));
    let back = FileSystem::load("demo".to_string(), &store).ok().unwrap();
    let l = back.list(None).ok().unwrap();
    assert!(l.folders.is_empty());
    assert!(l.files.is_empty());
    assert_eq!(store.len(), 1);
}

#[test]
fn move_into_its_own_subtree_removes_the_source() {
    let mut t = fresh();
    t.insert("a/f", "rf".to_string(), vec![], false).ok().unwrap();
    t.insert("k", "rk".to_string(), vec![], false).ok().unwrap();
    assert!(t.move_("a", "a/b", false).ok().unwrap().is_none());
    assert!(!t.path_exists("a"));
    assert!(t.path_exists("k"));
}

#[test]
fn move_onto_an_ancestor_or_from_the_root_is_refused() {
    let mut t = fresh();
    t.insert("a/b/x", "rx".to_string(), vec![], false).ok().unwrap();
    assert_eq!(kind(t.move_("a/b/x", "a", true)), GodataErrorType::InvalidPath);
    assert_eq!(kind(t.move_("a/b", "a", true)), GodataErrorType::InvalidPath);
    assert!(t.path_exists("a/b/x"));
    assert_eq!(kind(t.move_("", "c", true)), GodataErrorType::NotFound);
}

#[test]
fn insert_and_remove_mark_folders_dirty() {
    let mut t = fresh();
    t.insert("keep", "rk".to_string(), vec![], false).ok().unwrap();
    t.insert("a/b/c/f", "rf".to_string(), vec![], false).ok().unwrap();
    t.insert("a/z", "rz".to_string(), vec![], false).ok().unwrap();
    let _ = flush(&mut t);
    t.remove("a/b/c/f").ok().unwrap();
    let batch = t.flush_batch();
    let ids: Vec<&String> = batch.writes.iter().map(|(id, _)| id).collect();
    assert_eq!(ids.len(), 1);
    assert_eq!(batch.writes[0].1.name, "a");
    assert_eq!(batch.removals.len(), 2);
}

#[test]
fn removal_leaves_no_empty_folder() {
    let mut t = fresh();
    t.insert("a/b/c/f", "rf".to_string(), vec![], false).ok().unwrap();
    t.insert("z", "rz".to_string(), vec![], false).ok().unwrap();
    t.remove("a/b/c/f").ok().unwrap();
    assert!(!t.path_exists("a"));
    let l = t.list(None).ok().unwrap();
    assert!(l.folders.is_empty());
    assert_eq!(l.files, vec!["z"]);
}
