use grinta::fs_search::{
    build_mdfind_predicate, create_fs_item, escape_query, fs_items_from_paths, get_path_priority,
    is_dir_heuristic, sort_paths, DEBOUNCE_MS, MDFIND_TIMEOUT_MS,
};
use grinta::model::Handler;

#[test]
fn test_get_path_priority() {
    // Highest priority: Desktop, Documents, Downloads
    assert_eq!(get_path_priority("/Users/test/Desktop/file.txt"), 1);
    assert_eq!(get_path_priority("/Users/test/Documents/doc.pdf"), 1);
    assert_eq!(get_path_priority("/Users/test/Downloads/download.zip"), 1);

    // High priority: Home directory root files
    assert_eq!(get_path_priority("/Users/test/file.txt"), 2);

    // Medium priority: Development directories
    assert_eq!(get_path_priority("/Users/test/Developer/project/file.js"), 3);
    assert_eq!(get_path_priority("/Users/test/Projects/app/main.py"), 3);
    assert_eq!(get_path_priority("/Users/test/Code/script.sh"), 3);

    // Lower priority: Library and hidden files
    assert_eq!(get_path_priority("/Users/test/Library/cache.db"), 5);
    assert_eq!(get_path_priority("/Users/test/.hidden/config"), 5);

    // Default priority
    assert_eq!(get_path_priority("/Users/test/Other/random/file.txt"), 4);
}

#[test]
fn test_path_priority_ordering() {
    let paths = vec![
        "/Users/test/Library/file.txt",  // Priority 5
        "/Users/test/Documents/doc.pdf", // Priority 1
        "/Users/test/Other/file.txt",    // Priority 4
        "/Users/test/Developer/app.js",  // Priority 3
        "/Users/test/root.txt",          // Priority 2
    ];

    let mut sorted_paths = paths.clone();
    sorted_paths.sort_by(|a, b| get_path_priority(a).cmp(&get_path_priority(b)));

    assert_eq!(sorted_paths[0], "/Users/test/Documents/doc.pdf"); // Priority 1
    assert_eq!(sorted_paths[1], "/Users/test/root.txt"); // Priority 2
    assert_eq!(sorted_paths[2], "/Users/test/Developer/app.js"); // Priority 3
    assert_eq!(sorted_paths[3], "/Users/test/Other/file.txt"); // Priority 4
    assert_eq!(sorted_paths[4], "/Users/test/Library/file.txt"); // Priority 5
}

#[test]
fn test_debounce_constants() {
    assert!(DEBOUNCE_MS > 0);
    assert!(DEBOUNCE_MS < 1000); // Should be less than 1 second

    assert!(MDFIND_TIMEOUT_MS > 0);
    assert!(MDFIND_TIMEOUT_MS >= 1000); // Should be at least 1 second
}

#[test]
fn test_query_escaping() {
    let query = "test's file";
    let escaped = query.replace("'", "\\'");
    assert_eq!(escaped, "test\\'s file");
}

#[test]
fn test_case_sensitivity_in_priorities() {
    assert_eq!(get_path_priority("/Users/test/DESKTOP/file.txt"), 1);
    assert_eq!(get_path_priority("/Users/test/desktop/file.txt"), 1);
    assert_eq!(get_path_priority("/Users/test/Desktop/file.txt"), 1);

    assert_eq!(get_path_priority("/Users/test/DEVELOPER/file.txt"), 3);
    assert_eq!(get_path_priority("/Users/test/developer/file.txt"), 3);
}

#[test]
fn test_file_vs_folder_heuristic() {
    let file_path = "/path/to/document.pdf";
    let folder_path = "/path/to/folder/";
    let no_extension = "/path/to/README";

    // File with extension
    assert!(file_path.contains('.'));
    assert!(!file_path.ends_with('/'));

    // Folder with trailing slash
    assert!(folder_path.ends_with('/'));

    // File without extension (ambiguous case)
    assert!(!no_extension.contains('.') && !no_extension.ends_with('/'));

    let is_dir_file = is_dir_heuristic(file_path);
    let is_dir_folder = is_dir_heuristic(folder_path);
    let is_dir_no_ext = is_dir_heuristic(no_extension);

    assert!(!is_dir_file); // Should be detected as file
    assert!(is_dir_folder); // Should be detected as folder
    assert!(is_dir_no_ext); // Should be detected as folder (no extension)
}

#[test]
fn escape_query_matches_std_replace() {
    assert_eq!(escape_query("test's file"), "test\\'s file");
    assert_eq!(escape_query("plain"), "plain");
    assert_eq!(escape_query("''"), "\\'\\'");
}

#[test]
fn predicate_mentions_escaped_query_three_times() {
    let p = build_mdfind_predicate("it's");
    assert_eq!(
        p,
        "(kMDItemDisplayName == 'it\\'s'cd || kMDItemDisplayName == 'it\\'s*'cd || kMDItemFSName == 'it\\'s*'cd)"
    );
}

#[test]
fn fs_item_from_path_builds_file_and_folder() {
    let file = create_fs_item("/Users/me/notes.txt").unwrap();
    assert_eq!(file.label, "notes.txt");
    assert_eq!(file.handler, Handler::File);
    assert_eq!(file.value, "/Users/me/notes.txt");
    assert_eq!(file.get_metadata("type"), Some(&"file".to_string()));

    let folder = create_fs_item("/Users/me/Projects/").unwrap();
    assert_eq!(folder.label, "Projects");
    assert_eq!(folder.handler, Handler::Folder);
    assert_eq!(folder.get_metadata("type"), Some(&"folder".to_string()));

    assert!(create_fs_item("/").is_none());
}

#[test]
fn fs_items_respect_result_limit() {
    let paths = vec![
        "/a/one.txt".to_string(),
        "/a/two.txt".to_string(),
        "/a/three.txt".to_string(),
    ];
    let items = fs_items_from_paths(&paths, 2);
    assert_eq!(items.len(), 2);
    assert_eq!(items[0].label, "one.txt");
    assert_eq!(items[1].label, "two.txt");
}

#[test]
fn sort_paths_orders_by_depth_then_priority_then_name() {
    let home = "/Users/test";
    let paths = vec![
        "/Users/test/Other/deep/file.txt".to_string(),
        "/Users/test/b.txt".to_string(),
        "/Users/test/a.txt".to_string(),
        "/Users/test/Library/x.txt".to_string(),
        "/Users/test/Documents/x.txt".to_string(),
    ];
    let sorted = sort_paths(home, paths);
    // Shallow home-root files first, ordered by name.
    assert_eq!(sorted[0], "/Users/test/a.txt");
    assert_eq!(sorted[1], "/Users/test/b.txt");
    // At equal depth, the priority class decides.
    assert_eq!(sorted[2], "/Users/test/Documents/x.txt");
    assert_eq!(sorted[3], "/Users/test/Library/x.txt");
    // Deeper paths come last.
    assert_eq!(sorted[4], "/Users/test/Other/deep/file.txt");
}

#[test]
fn checked_fs_item_falls_back_to_the_whole_path() {
    let root = grinta::fs_search::create_fs_item_with_dir("/", true);
    assert_eq!(root.label, "/");
    assert_eq!(root.handler, Handler::Folder);
    assert_eq!(root.value, "/");
    assert_eq!(root.get_metadata("type"), Some(&"folder".to_string()));

    let file = grinta::fs_search::create_fs_item_with_dir("/Users/me/notes.txt", false);
    assert_eq!(file.label, "notes.txt");
    assert_eq!(file.handler, Handler::File);
    assert_eq!(file.get_metadata("type"), Some(&"file".to_string()));
}
