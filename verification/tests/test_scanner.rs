use dup_check::duplicates::DuplicateSet;
use dup_check::scanner::{DirEntry, HiddenRule, Metadata, RootStatus, ScanError, Scanner};
use dup_check::utils;

const MODIFIED: u64 = 1_700_000_000;

/// A file of a directory tree held in memory.
struct TestFile {
    path: String,
    content: Vec<u8>,
    hidden_attribute: bool,
}

/// A directory tree held in memory, rooted at a temporary directory.
struct TestDir {
    root: String,
    files: Vec<TestFile>,
    subdirs: Vec<String>,
}

impl TestDir {
    fn new() -> Self {
        TestDir { root: "/tmp/.tmpQ7x2Lm".to_string(), files: Vec::new(), subdirs: Vec::new() }
    }

    fn path(&self, name: &str) -> String {
        format!("{}/{}", self.root, name)
    }

    fn create_dir(&mut self, name: &str) {
        let path = self.path(name);
        self.subdirs.push(path);
    }

    fn entries(&self) -> Vec<DirEntry> {
        let mut entries = vec![DirEntry {
            path: self.root.clone(),
            is_file: false,
            hidden_attribute: false,
            metadata: Some(Metadata { size: 4096, modified: MODIFIED }),
        }];
        for dir in &self.subdirs {
            entries.push(DirEntry {
                path: dir.clone(),
                is_file: false,
                hidden_attribute: false,
                metadata: Some(Metadata { size: 4096, modified: MODIFIED }),
            });
        }
        for file in &self.files {
            entries.push(DirEntry {
                path: file.path.clone(),
                is_file: true,
                hidden_attribute: file.hidden_attribute,
                metadata: Some(Metadata { size: file.content.len() as u64, modified: MODIFIED }),
            });
        }
        entries
    }

    fn content_of(&self, path: &str) -> Option<&[u8]> {
        self.files.iter().find(|f| f.path == path).map(|f| f.content.as_slice())
    }
}

/// Helper function to create a file with specific content
fn create_temp_file(dir: &mut TestDir, name: &str, content: &[u8]) -> String {
    let file_path = dir.path(name);
    dir.files.push(TestFile {
        path: file_path.clone(),
        content: content.to_vec(),
        hidden_attribute: false,
    });
    file_path
}

/// Helper function to create a directory structure with test files
fn create_test_directory() -> TestDir {
    let mut temp_dir = TestDir::new();

    // Create some duplicate files
    let content1 = b"Hello, World!";
    create_temp_file(&mut temp_dir, "file1.txt", content1);
    create_temp_file(&mut temp_dir, "file2.txt", content1);

    // Create a unique file
    create_temp_file(&mut temp_dir, "unique.txt", b"Unique content");

    // Create a subdirectory with duplicates
    temp_dir.create_dir("subdir");
    create_temp_file(&mut temp_dir, "subdir/file3.txt", content1);

    // Create empty files
    create_temp_file(&mut temp_dir, "empty1.txt", b"");
    create_temp_file(&mut temp_dir, "empty2.txt", b"");

    temp_dir
}

/// Scans a tree as a program would: list, hash what is asked for, group.
fn find_duplicates(scanner: &mut Scanner, dir: &TestDir) -> Result<DuplicateSet, ScanError> {
    let entries = dir.entries();
    let mut digests: Vec<Option<String>> = entries.iter().map(|_| None).collect();
    for i in scanner.hash_requests(&entries) {
        digests[i] = dir.content_of(&entries[i].path).map(utils::calculate_hash);
    }
    scanner.find_duplicates(RootStatus::Present, &entries, &digests)
}

#[test]
fn test_scanner_find_duplicates() {
    let temp_dir = create_test_directory();

    let mut scanner = Scanner::new(false, None, None).unwrap();
    let duplicates = find_duplicates(&mut scanner, &temp_dir).unwrap();

    // Should find two groups of duplicates (non-empty and empty files)
    assert_eq!(duplicates.groups.len(), 2, "Should find two groups of duplicates");

    // Verify duplicate groups
    for group in duplicates.groups.iter() {
        let files = &group.files;
        match files[0].size {
            0 => assert_eq!(files.len(), 2, "Should find 2 empty files"),
            13 => assert_eq!(files.len(), 3, "Should find 3 duplicate 'Hello, World!' files"),
            _ => panic!("Unexpected file size in duplicates"),
        }
    }
}

#[test]
fn test_scanner_with_size_filter() {
    let temp_dir = create_test_directory();

    // Test minimum size filter (exclude empty files)
    let mut scanner = Scanner::new(false, Some(1), None).unwrap();
    let duplicates = find_duplicates(&mut scanner, &temp_dir).unwrap();
    assert_eq!(duplicates.groups.len(), 1, "Should only find non-empty duplicates");

    // Test maximum size filter (exclude non-empty files)
    let mut scanner = Scanner::new(false, None, Some(1)).unwrap();
    let duplicates = find_duplicates(&mut scanner, &temp_dir).unwrap();
    assert_eq!(duplicates.groups.len(), 1, "Should only find empty duplicates");
}

#[test]
fn test_scanner_empty_directory() {
    let temp_dir = TestDir::new();

    let mut scanner = Scanner::new(false, None, None).unwrap();
    let duplicates = find_duplicates(&mut scanner, &temp_dir).unwrap();
    assert!(duplicates.groups.is_empty(), "Empty directory should have no duplicates");
}

#[test]
fn test_scanner_single_files() {
    let mut temp_dir = TestDir::new();

    // Create several unique files
    create_temp_file(&mut temp_dir, "file1.txt", b"Content 1");
    create_temp_file(&mut temp_dir, "file2.txt", b"Content 2");
    create_temp_file(&mut temp_dir, "file3.txt", b"Content 3");

    let mut scanner = Scanner::new(false, None, None).unwrap();
    let duplicates = find_duplicates(&mut scanner, &temp_dir).unwrap();
    assert!(duplicates.groups.is_empty(), "No duplicates should be found");
}

#[test]
fn test_scanner_with_hidden_files() {
    let mut temp_dir = TestDir::new();

    // Create duplicate content in both hidden and non-hidden files
    let content = b"Duplicate content";
    create_temp_file(&mut temp_dir, "visible1.txt", content);
    create_temp_file(&mut temp_dir, "visible2.txt", content);

    // Create hidden files with the hidden attribute of the file system
    let hidden1 = create_temp_file(&mut temp_dir, "hidden1.txt", content);
    let hidden2 = create_temp_file(&mut temp_dir, "hidden2.txt", content);
    for file in temp_dir.files.iter_mut() {
        if file.path == hidden1 || file.path == hidden2 {
            file.hidden_attribute = true;
        }
    }

    let mut scanner = Scanner::new(false, None, None).unwrap();
    scanner.filter.hidden_rule = HiddenRule::AttributeBit;
    let duplicates = find_duplicates(&mut scanner, &temp_dir).unwrap();

    // Should only find the visible duplicates
    assert_eq!(duplicates.groups.len(), 1, "Should find one group of duplicates");
    for group in duplicates.groups {
        assert_eq!(group.files.len(), 2, "Should only find visible duplicate files");
        for file in group.files {
            assert!(!utils::is_hidden(&file.path), "Hidden files should be excluded");
        }
    }
}

#[test]
fn test_scanner_large_files() {
    let mut temp_dir = TestDir::new();

    // Create large duplicate files (1MB each)
    let mut large_content = Vec::with_capacity(1024 * 1024);
    for _ in 0..(1024 * 1024 / 4) {
        large_content.extend_from_slice(b"test");
    }

    create_temp_file(&mut temp_dir, "large1.txt", &large_content);
    create_temp_file(&mut temp_dir, "large2.txt", &large_content);

    let mut scanner = Scanner::new(false, None, None).unwrap();
    let duplicates = find_duplicates(&mut scanner, &temp_dir).unwrap();

    assert_eq!(duplicates.groups.len(), 1, "Should find one group of duplicates");
    for group in duplicates.groups {
        assert_eq!(group.files.len(), 2, "Should find two duplicate large files");
        assert_eq!(group.files[0].size, 1024 * 1024, "Files should be 1MB in size");
    }
}

#[test]
fn dot_files_are_left_out_by_the_dot_prefix_rule() {
    let mut temp_dir = TestDir::new();
    let content = b"Duplicate content";
    create_temp_file(&mut temp_dir, "visible1.txt", content);
    create_temp_file(&mut temp_dir, "visible2.txt", content);
    create_temp_file(&mut temp_dir, ".hidden1", content);
    create_temp_file(&mut temp_dir, "sub/.hidden2", content);

    let mut scanner = Scanner::new(false, None, None).unwrap();
    assert_eq!(scanner.filter.hidden_rule, HiddenRule::DotPrefix);
    let duplicates = find_duplicates(&mut scanner, &temp_dir).unwrap();

    assert_eq!(duplicates.groups.len(), 1);
    let paths: Vec<&str> = duplicates.groups[0].files.iter().map(|f| f.path.as_str()).collect();
    assert_eq!(paths, vec![temp_dir.path("visible1.txt"), temp_dir.path("visible2.txt")]);
}

#[test]
fn nothing_is_hidden_on_other_platforms() {
    let mut temp_dir = TestDir::new();
    let content = b"Duplicate content";
    create_temp_file(&mut temp_dir, "visible.txt", content);
    create_temp_file(&mut temp_dir, ".hidden", content);
    temp_dir.files[1].hidden_attribute = true;

    let mut scanner = Scanner::new(false, None, None).unwrap();
    scanner.filter.hidden_rule = HiddenRule::Nothing;
    let duplicates = find_duplicates(&mut scanner, &temp_dir).unwrap();

    assert_eq!(duplicates.groups.len(), 1);
    assert_eq!(duplicates.groups[0].files.len(), 2);
}

#[test]
fn should_process_file_keeps_regular_visible_files_within_bounds() {
    let scanner = Scanner::new(false, Some(100), Some(200)).unwrap();
    let entry = |path: &str, is_file: bool, size: Option<u64>| DirEntry {
        path: path.to_string(),
        is_file,
        hidden_attribute: false,
        metadata: size.map(|size| Metadata { size, modified: MODIFIED }),
    };

    assert!(scanner.should_process_file(&entry("/d/a", true, Some(100))));
    assert!(scanner.should_process_file(&entry("/d/a", true, Some(150))));
    assert!(scanner.should_process_file(&entry("/d/a", true, Some(200))));
    assert!(!scanner.should_process_file(&entry("/d/a", true, Some(99))));
    assert!(!scanner.should_process_file(&entry("/d/a", true, Some(201))));
    assert!(!scanner.should_process_file(&entry("/d/a", false, Some(150))));
    assert!(!scanner.should_process_file(&entry("/d/.a", true, Some(150))));
    assert!(!scanner.should_process_file(&entry("/d/a", true, None)));
}

#[test]
fn scanner_refuses_bounds_in_the_wrong_order() {
    assert_eq!(Scanner::new(false, Some(2), Some(1)).err(), Some(ScanError::InvalidSizeBounds));
    assert_eq!(Scanner::new(true, Some(10), Some(9)).err(), Some(ScanError::InvalidSizeBounds));
    assert!(Scanner::new(false, Some(1), Some(1)).is_ok());
    assert!(Scanner::new(false, Some(0), None).is_ok());
    assert!(Scanner::new(false, None, Some(0)).is_ok());
}

#[test]
fn scanner_has_a_cache_only_when_asked() {
    assert!(Scanner::new(true, None, None).unwrap().cache.is_some());
    assert!(Scanner::new(false, None, None).unwrap().cache.is_none());
}

#[test]
fn files_of_unique_size_are_never_read() {
    let mut temp_dir = TestDir::new();
    create_temp_file(&mut temp_dir, "a.txt", b"12345");
    create_temp_file(&mut temp_dir, "b.txt", b"123456");
    create_temp_file(&mut temp_dir, "c.txt", b"abcde");
    create_temp_file(&mut temp_dir, "d.txt", b"1234567");

    let scanner = Scanner::new(false, None, None).unwrap();
    let entries = temp_dir.entries();
    let requests = scanner.hash_requests(&entries);

    let requested: Vec<&str> = requests.iter().map(|i| entries[*i].path.as_str()).collect();
    assert_eq!(requested, vec![temp_dir.path("a.txt"), temp_dir.path("c.txt")]);
}

#[test]
fn same_size_and_different_content_is_no_duplicate() {
    let mut temp_dir = TestDir::new();
    create_temp_file(&mut temp_dir, "a.txt", b"Content 1");
    create_temp_file(&mut temp_dir, "b.txt", b"Content 2");
    create_temp_file(&mut temp_dir, "c.txt", b"Content 1");

    let mut scanner = Scanner::new(false, None, None).unwrap();
    let duplicates = find_duplicates(&mut scanner, &temp_dir).unwrap();

    assert_eq!(duplicates.groups.len(), 1);
    let group = &duplicates.groups[0];
    assert_eq!(group.hash, utils::calculate_hash(b"Content 1"));
    assert_eq!(group.size, 9);
    let paths: Vec<&str> = group.files.iter().map(|f| f.path.as_str()).collect();
    assert_eq!(paths, vec![temp_dir.path("a.txt"), temp_dir.path("c.txt")]);
    for file in &group.files {
        assert_eq!(file.hash.as_deref(), Some(group.hash.as_str()));
        assert_eq!(file.size, group.size);
    }
}

#[test]
fn a_file_that_cannot_be_read_is_left_out() {
    let mut temp_dir = TestDir::new();
    create_temp_file(&mut temp_dir, "a.txt", b"same");
    create_temp_file(&mut temp_dir, "b.txt", b"same");
    create_temp_file(&mut temp_dir, "c.txt", b"same");

    let mut scanner = Scanner::new(false, None, None).unwrap();
    let entries = temp_dir.entries();
    let mut digests: Vec<Option<String>> = entries.iter().map(|_| None).collect();
    for i in scanner.hash_requests(&entries) {
        if entries[i].path != temp_dir.path("b.txt") {
            digests[i] = Some(utils::calculate_hash(b"same"));
        }
    }
    let duplicates = scanner.find_duplicates(RootStatus::Present, &entries, &digests).unwrap();

    assert_eq!(duplicates.groups.len(), 1);
    let paths: Vec<&str> = duplicates.groups[0].files.iter().map(|f| f.path.as_str()).collect();
    assert_eq!(paths, vec![temp_dir.path("a.txt"), temp_dir.path("c.txt")]);
}

#[test]
fn missing_digests_count_as_unreadable() {
    let mut temp_dir = TestDir::new();
    create_temp_file(&mut temp_dir, "a.txt", b"same");
    create_temp_file(&mut temp_dir, "b.txt", b"same");

    let mut scanner = Scanner::new(false, None, None).unwrap();
    let entries = temp_dir.entries();
    let duplicates = scanner.find_duplicates(RootStatus::Present, &entries, &Vec::new()).unwrap();

    assert!(duplicates.groups.is_empty());
}

#[test]
fn groups_come_in_the_order_of_their_first_members() {
    let mut temp_dir = TestDir::new();
    create_temp_file(&mut temp_dir, "a1", b"aaaa");
    create_temp_file(&mut temp_dir, "b1", b"bb");
    create_temp_file(&mut temp_dir, "c1", b"cccc");
    create_temp_file(&mut temp_dir, "b2", b"bb");
    create_temp_file(&mut temp_dir, "c2", b"cccc");
    create_temp_file(&mut temp_dir, "a2", b"aaaa");
    create_temp_file(&mut temp_dir, "a3", b"aaaa");

    let mut scanner = Scanner::new(false, None, None).unwrap();
    let duplicates = find_duplicates(&mut scanner, &temp_dir).unwrap();

    let listed: Vec<Vec<String>> = duplicates
        .groups
        .iter()
        .map(|g| g.files.iter().map(|f| f.path.clone()).collect())
        .collect();
    assert_eq!(
        listed,
        vec![
            vec![temp_dir.path("a1"), temp_dir.path("a2"), temp_dir.path("a3")],
            vec![temp_dir.path("b1"), temp_dir.path("b2")],
            vec![temp_dir.path("c1"), temp_dir.path("c2")],
        ]
    );
}
