use memfs::FileSystem;

#[test]
fn test_create_and_read_file() {
    let mut fs = FileSystem::new();
    fs.create_file("/a.txt", "Hello").unwrap();
    assert_eq!(fs.read_file("/a.txt"), Some("Hello".to_string()));
}

#[test]
fn test_read_non_existent_file() {
    let fs = FileSystem::new();
    assert_eq!(fs.read_file("/b.txt"), None);
}

#[test]
fn test_create_nested_file() {
    let mut fs = FileSystem::new();
    fs.create_file("/dir/a.txt", "Hello").unwrap();
    assert_eq!(fs.read_file("/dir/a.txt"), Some("Hello".to_string()));
}

#[test]
fn test_list_files_and_directories() {
    let mut fs = FileSystem::new();
    fs.create_file("/dir/a.txt", "Hello").unwrap();
    fs.create_file("/dir/b.txt", "World").unwrap();
    let entries = fs.list_files_and_directories("/dir");
    assert!(entries.contains(&"a.txt".to_string()));
    assert!(entries.contains(&"b.txt".to_string()));
}

#[test]
fn test_delete_file() {
    let mut fs = FileSystem::new();
    fs.create_file("/a.txt", "Hello").unwrap();
    fs.delete_file("/a.txt");
    assert_eq!(fs.read_file("/a.txt"), None);

    fs.create_file("/dir1/dir2/a.txt", "Hello").unwrap();
    fs.delete_file("/dir1/dir2/a.txt");
    assert_eq!(fs.read_file("/dir1/dir2/a.txt"), None);
}

#[test]
fn test_rename_file() {
    let mut fs = FileSystem::new();
    fs.create_file("/a.txt", "Hello").unwrap();
    fs.rename_file("/a.txt", "/b.txt").unwrap();
    assert_eq!(fs.read_file("/a.txt"), None);
    assert_eq!(fs.read_file("/b.txt"), Some("Hello".to_string()));
}

#[test]
fn test_copy_file() {
    let mut fs = FileSystem::new();
    fs.create_file("/a.txt", "Hello").unwrap();
    fs.copy_file("/a.txt", "/b.txt").unwrap();
    assert_eq!(fs.read_file("/a.txt"), Some("Hello".to_string()));
    assert_eq!(fs.read_file("/b.txt"), Some("Hello".to_string()));
}

#[test]
fn test_move_file() {
    let mut fs = FileSystem::new();
    fs.create_file("/a.txt", "Hello").unwrap();
    fs.move_file("/a.txt", "/b.txt").unwrap();
    assert_eq!(fs.read_file("/a.txt"), None);
    assert_eq!(fs.read_file("/b.txt"), Some("Hello".to_string()));
}

#[test]
fn test_search_file() {
    let mut fs = FileSystem::new();
    fs.create_file("/dir/a.txt", "Hello").unwrap();
    fs.create_file("/dir/subdir/b.txt", "World").unwrap();
    let search_results = fs.search_file("a.txt");
    assert_eq!(search_results, vec!["dir/a.txt".to_string()]);
    let search_results = fs.search_file("b.txt");
    assert_eq!(search_results, vec!["dir/subdir/b.txt".to_string()]);
}
