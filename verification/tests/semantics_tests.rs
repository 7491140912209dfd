use memfs::{FileSystem, FsError};

#[test]
fn overwrite_replaces_content() {
    let mut fs = FileSystem::new();
    fs.create_file("/a.txt", "first").unwrap();
    fs.create_file("/a.txt", "second").unwrap();
    assert_eq!(fs.read_file("/a.txt"), Some("second".to_string()));
}

#[test]
fn leading_slash_is_optional() {
    let mut fs = FileSystem::new();
    fs.create_file("dir/a.txt", "Hello").unwrap();
    assert_eq!(fs.read_file("/dir/a.txt"), Some("Hello".to_string()));
    assert_eq!(fs.read_file("dir/a.txt"), Some("Hello".to_string()));
}

#[test]
fn empty_path_is_invalid() {
    let mut fs = FileSystem::new();
    assert_eq!(fs.create_file("", "x"), Err(FsError::InvalidPath));
    assert_eq!(fs.read_file(""), None);
    assert_eq!(fs.read_file("/"), None);
}

#[test]
fn empty_segments_are_invalid() {
    let mut fs = FileSystem::new();
    assert_eq!(fs.create_file("//a.txt", "x"), Err(FsError::InvalidPath));
    assert_eq!(fs.create_file("/a//b.txt", "x"), Err(FsError::InvalidPath));
    assert_eq!(fs.create_file("/a/", "x"), Err(FsError::InvalidPath));
    assert_eq!(fs.move_file("", "/b.txt"), Err(FsError::InvalidPath));
    assert_eq!(fs.copy_file("/a.txt", "//"), Err(FsError::InvalidPath));
}

#[test]
fn create_through_file_conflicts() {
    let mut fs = FileSystem::new();
    fs.create_file("/f.txt", "leaf").unwrap();
    assert_eq!(fs.create_file("/f.txt/inner.txt", "x"), Err(FsError::Conflict));
    assert_eq!(fs.read_file("/f.txt"), Some("leaf".to_string()));
    assert_eq!(fs.read_file("/f.txt/inner.txt"), None);
}

#[test]
fn conflicting_copy_reports_and_leaves_store() {
    let mut fs = FileSystem::new();
    fs.create_file("/src.txt", "data").unwrap();
    fs.create_file("/blocker.txt", "wall").unwrap();
    assert_eq!(fs.copy_file("/src.txt", "/blocker.txt/deep.txt"), Err(FsError::Conflict));
    assert_eq!(fs.read_file("/src.txt"), Some("data".to_string()));
    assert_eq!(fs.read_file("/blocker.txt"), Some("wall".to_string()));
}

#[test]
fn conflicting_move_keeps_source() {
    let mut fs = FileSystem::new();
    fs.create_file("/src.txt", "data").unwrap();
    fs.create_file("/blocker.txt", "wall").unwrap();
    assert_eq!(fs.move_file("/src.txt", "/blocker.txt/deep.txt"), Err(FsError::Conflict));
    assert_eq!(fs.read_file("/src.txt"), Some("data".to_string()));
}

#[test]
fn delete_nonexistent_is_noop() {
    let mut fs = FileSystem::new();
    fs.create_file("/keep.txt", "kept").unwrap();
    fs.delete_file("/missing.txt");
    fs.delete_file("/no/such/dir.txt");
    fs.delete_file("");
    assert_eq!(fs.read_file("/keep.txt"), Some("kept".to_string()));
    let names = fs.list_files_and_directories("");
    assert_eq!(names, vec!["keep.txt".to_string()]);
}

#[test]
fn delete_removes_whole_subtree() {
    let mut fs = FileSystem::new();
    fs.create_file("/d/x.txt", "x").unwrap();
    fs.create_file("/d/sub/y.txt", "y").unwrap();
    fs.delete_file("/d");
    assert_eq!(fs.read_file("/d/x.txt"), None);
    assert_eq!(fs.read_file("/d/sub/y.txt"), None);
    assert_eq!(fs.list_files_and_directories(""), Vec::<String>::new());
}

#[test]
fn move_of_missing_source_is_noop() {
    let mut fs = FileSystem::new();
    fs.create_file("/other.txt", "o").unwrap();
    assert_eq!(fs.move_file("/missing.txt", "/dest.txt"), Ok(()));
    assert_eq!(fs.read_file("/dest.txt"), None);
    assert_eq!(fs.read_file("/other.txt"), Some("o".to_string()));
}

#[test]
fn listing_reflects_exact_children() {
    let mut fs = FileSystem::new();
    fs.create_file("/dir/a.txt", "Hello").unwrap();
    fs.create_file("/dir/b.txt", "World").unwrap();
    let entries = fs.list_files_and_directories("dir");
    assert_eq!(entries.len(), 2);
    assert!(entries.contains(&"a.txt".to_string()));
    assert!(entries.contains(&"b.txt".to_string()));
}

#[test]
fn listing_the_root() {
    let mut fs = FileSystem::new();
    fs.create_file("/a.txt", "x").unwrap();
    fs.create_file("/dir/b.txt", "y").unwrap();
    let by_empty = fs.list_files_and_directories("");
    let by_slash = fs.list_files_and_directories("/");
    assert_eq!(by_empty, by_slash);
    assert_eq!(by_empty.len(), 2);
    assert!(by_empty.contains(&"a.txt".to_string()));
    assert!(by_empty.contains(&"dir".to_string()));
}

#[test]
fn listing_a_file_path_is_empty() {
    let mut fs = FileSystem::new();
    fs.create_file("/a.txt", "x").unwrap();
    assert_eq!(fs.list_files_and_directories("/a.txt"), Vec::<String>::new());
    assert_eq!(fs.list_files_and_directories("/no/where"), Vec::<String>::new());
}

#[test]
fn nested_auto_creation() {
    let mut fs = FileSystem::new();
    fs.create_file("a/b/c.txt", "x").unwrap();
    assert_eq!(fs.read_file("a/b/c.txt"), Some("x".to_string()));
    assert_eq!(fs.list_files_and_directories("a"), vec!["b".to_string()]);
    assert_eq!(fs.list_files_and_directories("a/b"), vec!["c.txt".to_string()]);
}

#[test]
fn search_excludes_directories() {
    let mut fs = FileSystem::new();
    fs.create_file("/q.txt/inner.txt", "v").unwrap();
    fs.create_file("/d/q.txt", "file").unwrap();
    assert_eq!(fs.search_file("q.txt"), vec!["d/q.txt".to_string()]);
}

#[test]
fn search_empty_store_finds_nothing() {
    let fs = FileSystem::new();
    assert_eq!(fs.search_file("a.txt"), Vec::<String>::new());
}

#[test]
fn search_finds_same_name_at_many_depths() {
    let mut fs = FileSystem::new();
    fs.create_file("/n.txt", "one").unwrap();
    fs.create_file("/d/n.txt", "two").unwrap();
    fs.create_file("/d/e/n.txt", "three").unwrap();
    let found = fs.search_file("n.txt");
    assert_eq!(found.len(), 3);
    assert!(found.contains(&"n.txt".to_string()));
    assert!(found.contains(&"d/n.txt".to_string()));
    assert!(found.contains(&"d/e/n.txt".to_string()));
}

#[test]
fn overwriting_a_directory_cuts_its_subtree() {
    let mut fs = FileSystem::new();
    fs.create_file("/d/x.txt", "x").unwrap();
    fs.create_file("/d", "now a file").unwrap();
    assert_eq!(fs.read_file("/d"), Some("now a file".to_string()));
    assert_eq!(fs.read_file("/d/x.txt"), None);
}

#[test]
fn move_onto_itself_drops_the_file() {
    let mut fs = FileSystem::new();
    fs.create_file("/m.txt", "gone").unwrap();
    fs.move_file("/m.txt", "/m.txt").unwrap();
    assert_eq!(fs.read_file("/m.txt"), None);
}

#[test]
fn unicode_names_and_content() {
    let mut fs = FileSystem::new();
    fs.create_file("/données/été.txt", "héllo wörld").unwrap();
    assert_eq!(fs.read_file("/données/été.txt"), Some("héllo wörld".to_string()));
    assert_eq!(fs.search_file("été.txt"), vec!["données/été.txt".to_string()]);
}
