use godata::api::{delete_project, list_collections, list_projects, DirEntry};
use godata::error::{GodataError, GodataErrorType};
use godata::fsystem::FileSystem;
use godata::manager::{project_key, ProjectManager};
use godata::project::Project;
use godata::storage::LocalEndpoint;

fn kind<T>(r: Result<T, GodataError>) -> GodataErrorType {
    match r {
        Ok(_) => panic!("expected an error"),
        Err(e) => e.kind(),
    }
}

fn project(root: &str) -> Project {
    let tree = FileSystem::new("p".to_string(), false).ok().unwrap();
    Project::new(tree, "p".to_string(), "c".to_string(), LocalEndpoint::new(root.to_string()))
}

#[test]
fn error_carries_kind_and_message() {
    let e = GodataError::new(GodataErrorType::NotPermitted, "no".to_string());
    assert_eq!(e.kind(), GodataErrorType::NotPermitted);
    assert_eq!(e.message, "no");
}

#[test]
fn endpoint_paths() {
    let ep = LocalEndpoint::new("/data/root".to_string());
    assert_eq!(ep.generate_path("a/b.txt"), "/data/root/a/b.txt");
    assert_eq!(ep.resolve("x/y"), "/data/root/x/y");
    assert_eq!(ep.resolve("/elsewhere/z"), "/elsewhere/z");
    assert!(ep.is_internal("/data/root/x"));
    assert!(!ep.is_internal("/data/rootx/x"));
    assert!(!ep.is_internal("/other/x"));
    assert_eq!(ep.get_relative_path("/data/root/a/b").ok().unwrap(), "a/b");
    assert_eq!(kind(ep.get_relative_path("/other/a")), GodataErrorType::InvalidPath);
}

#[test]
fn add_file_stores_relative_paths() {
    let mut p = project("/data/p");
    assert!(p.add_file("a", "/data/p/a.txt", vec![], false).ok().unwrap().is_none());
    assert_eq!(p.tree.get("a").ok().unwrap().real_path, "a.txt");
    assert_eq!(kind(p.add_file("b", "/elsewhere/b.txt", vec![], false)), GodataErrorType::InvalidPath);
    assert!(!p.path_exists("b"));
    assert_eq!(kind(p.add_file("a", "/data/p/c.txt", vec![], false)), GodataErrorType::AlreadyExists);
}

#[test]
fn add_file_overwrite_reports_owned_files_only() {
    let mut p = project("/data/p");
    p.add_file("d/in", "/data/p/in.txt", vec![], false).ok().unwrap();
    p.add_folder("d", vec![("/elsewhere/out.txt".to_string(), "out".to_string())]).ok().unwrap();
    let prev = p.add_file("d", "/data/p/new.txt", vec![], true).ok().unwrap().unwrap();
    assert_eq!(prev, vec!["/data/p/in.txt"]);
    let prev = p.add_file("e", "/data/p/e.txt", vec![], true).ok().unwrap();
    assert!(prev.is_none());
}

#[test]
fn remove_file_filters_external_files() {
    let mut p = project("/data/p");
    p.add_file("a", "/data/p/a.txt", vec![], false).ok().unwrap();
    p.add_folder("", vec![("/elsewhere/b.txt".to_string(), "b".to_string())]).ok().unwrap();
    assert_eq!(p.remove_file("a").ok().unwrap(), vec!["/data/p/a.txt"]);
    assert!(p.remove_file("b").ok().unwrap().is_empty());
    assert_eq!(kind(p.remove_file("b")), GodataErrorType::NotFound);
    assert_eq!(kind(p.remove_file("")), GodataErrorType::InvalidPath);
}

#[test]
fn get_file_adds_the_real_path() {
    let mut p = project("/data/p");
    let meta = vec![
        ("real_path".to_string(), "stale".to_string()),
        ("kind".to_string(), "table".to_string()),
    ];
    p.add_file("t", "/data/p/t.csv", meta, false).ok().unwrap();
    let m = p.get_file("t").ok().unwrap();
    assert_eq!(
        m,
        vec![
            ("kind".to_string(), "table".to_string()),
            ("real_path".to_string(), "/data/p/t.csv".to_string()),
        ]
    );
    assert_eq!(kind(p.get_file("nope")), GodataErrorType::NotFound);
}

#[test]
fn project_move_and_queries() {
    let mut p = project("/data/p");
    p.add_file("a/x", "/data/p/x", vec![], false).ok().unwrap();
    p.add_file("b/y", "/data/p/y", vec![], false).ok().unwrap();
    let prev = p.move_("a/x", "b/y", true).ok().unwrap().unwrap();
    assert_eq!(prev, vec!["/data/p/y"]);
    assert!(!p.path_exists("a/x"));
    assert!(p.path_exists("b/y"));
    assert_eq!(p.list(Some("b")).ok().unwrap().files, vec!["y"]);
    assert_eq!(p.generate_path("b/z.bin"), "/data/p/b/z.bin");
    p.add_folder("imported", vec![("/src/f1".to_string(), "f1".to_string())]).ok().unwrap();
    assert_eq!(p.tree.get("imported/f1").ok().unwrap().real_path, "/src/f1");
}

#[test]
fn project_key_joins_collection_and_name() {
    assert_eq!(project_key("proj", "coll"), "coll/proj");
}

#[test]
fn reference_counting() {
    let mut m: ProjectManager<u32> = ProjectManager::new();
    assert!(m.load_project("p", "c").is_none());
    m.cache_project("p", "c", 7).ok().unwrap();
    assert_eq!(m.load_project("p", "c"), Some(&7));
    assert_eq!(m.ref_count("p", "c"), 2);
    assert!(m.drop_project("p", "c").ok().unwrap().is_none());
    assert_eq!(m.ref_count("p", "c"), 1);
    assert_eq!(m.load_project("p", "c"), Some(&7));
    assert!(m.drop_project("p", "c").ok().unwrap().is_none());
    assert_eq!(m.drop_project("p", "c").ok().unwrap(), Some(7));
    assert_eq!(m.ref_count("p", "c"), 0);
    assert_eq!(kind(m.drop_project("p", "c")), GodataErrorType::NotFound);
}

#[test]
fn cache_refuses_a_second_open() {
    let mut m: ProjectManager<u32> = ProjectManager::new();
    m.cache_project("p", "c", 1).ok().unwrap();
    assert_eq!(kind(m.cache_project("p", "c", 2)), GodataErrorType::AlreadyExists);
    m.cache_project("q", "c", 3).ok().unwrap();
    assert_eq!(m.evict("p", "c"), Some(1));
    assert_eq!(m.evict("p", "c"), None);
    assert_eq!(m.ref_count("q", "c"), 1);
}

fn entries() -> Vec<DirEntry> {
    vec![
        DirEntry { name: "alpha".to_string(), is_dir: true },
        DirEntry { name: ".hidden".to_string(), is_dir: true },
        DirEntry { name: "file.txt".to_string(), is_dir: false },
        DirEntry { name: "beta".to_string(), is_dir: true },
    ]
}

#[test]
fn listing_skips_hidden_and_files() {
    assert_eq!(list_collections(false, &entries()), vec!["alpha", "beta"]);
    assert_eq!(list_collections(true, &entries()), vec!["alpha", ".hidden", "beta"]);
    assert_eq!(list_projects(false, &entries()), vec!["alpha", "beta"]);
}

#[test]
fn deletion_guard() {
    assert!(delete_project(true, true, false).is_ok());
    assert!(delete_project(false, true, true).is_ok());
    assert_eq!(kind(delete_project(false, true, false)), GodataErrorType::NotPermitted);
    assert_eq!(kind(delete_project(true, false, false)), GodataErrorType::NotPermitted);
}

#[test]
fn move_onto_an_empty_folder_reports_an_empty_list() {
    let mut p = project("/data/p");
    p.add_file("a/x", "/data/p/x", vec![], false).ok().unwrap();
    p.add_folder("e", vec![]).ok().unwrap();
    let prev = p.move_("a/x", "e", true).ok().unwrap();
    assert_eq!(prev, Some(vec![]));
    assert_eq!(p.tree.get("e").ok().unwrap().real_path, "x");
}

#[test]
fn move_results_pass_through_the_project() {
    let mut p = project("/data/p");
    p.add_file("a/x", "/data/p/x", vec![], false).ok().unwrap();
    assert_eq!(kind(p.move_("a/x", "a", true)), GodataErrorType::InvalidPath);
    assert!(p.move_("a", "a/sub", false).ok().unwrap().is_none());
    assert!(!p.path_exists("a"));
}
