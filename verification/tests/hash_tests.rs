use yeth::config::ExcludePattern;
use yeth::fstree::FsSnapshot;
use yeth::hash::compute_final_hash;
use yeth::hash::hash_directory;
use yeth::hash::hash_file;
use yeth::hash::hash_path;
use yeth::hash::should_exclude;
use yeth::error::YethError;

fn is_hex(s: &str) -> bool {
    s.chars().all(|c| c.is_ascii_hexdigit())
}

#[test]
fn test_hash_file() {
    let file_path = "/tmp-test/test_file.txt";
    let mut fs = FsSnapshot::new();
    fs.add_file(file_path.to_string(), b"Hello, World!".to_vec());

    let hash_result = hash_file(&fs, file_path);
    assert!(hash_result.is_ok(), "Failed to hash file: {:?}", hash_result.err());
    let hash = hash_result.unwrap();

    // Verify the hash is a valid SHA256 hash (64 hex characters)
    assert_eq!(hash.len(), 64, "Hash should be 64 characters long");
    assert!(is_hex(&hash), "Hash should contain only hex characters");

    // The digest is the SHA-256 of the file's bytes
    assert_eq!(hash, "dffd6021bb2bd5b0af676290809ec3a53191dd81c7f70a4b28688a362182986f");

    // Test that the same file produces the same hash
    let hash2 = hash_file(&fs, file_path).unwrap();
    assert_eq!(hash, hash2, "Same file should produce the same hash");

    // Test that different content produces different hashes
    let mut fs2 = FsSnapshot::new();
    fs2.add_file(file_path.to_string(), b"Hello, Different World!".to_vec());
    let hash3 = hash_file(&fs2, file_path).unwrap();
    assert_ne!(hash, hash3, "Different content should produce different hashes");

    // Test with a larger file to test the buffering
    let large_content = vec![0u8; 10000];
    let mut fs3 = FsSnapshot::new();
    fs3.add_file(file_path.to_string(), large_content);
    let hash4 = hash_file(&fs3, file_path).unwrap();
    assert_eq!(hash4.len(), 64, "Hash of large file should be 64 characters long");
}

#[test]
fn test_hash_file_missing() {
    let fs = FsSnapshot::new();
    let result = hash_file(&fs, "/nowhere/file.txt");
    assert!(matches!(result, Err(YethError::IoError(_))));
}

#[test]
fn test_hash_directory() {
    let dir = "/work/proj";
    let mut fs = FsSnapshot::new();
    fs.add_dir(dir.to_string());
    fs.add_file(format!("{}/file1.txt", dir), b"Hello, World!".to_vec());
    fs.add_file(format!("{}/file2.txt", dir), b"Another file".to_vec());
    fs.add_dir(format!("{}/subdir", dir));
    fs.add_file(format!("{}/subdir/file3.txt", dir), b"Nested file".to_vec());

    let hash = hash_directory(&fs, dir, &vec![]);

    // Verify the hash is a valid SHA256 hash (64 hex characters)
    assert_eq!(hash.len(), 64, "Hash should be 64 characters long");
    assert!(is_hex(&hash), "Hash should contain only hex characters");

    // The digest runs over the files' bytes in sorted path order
    assert_eq!(hash, "be745b41d8bb71a88793040a112b23c21ffe5838d08f03e30dec78c575e8906c");

    // Test that the same directory produces the same hash
    let hash2 = hash_directory(&fs, dir, &vec![]);
    assert_eq!(hash, hash2, "Same directory should produce the same hash");

    // Test that modifying a file changes the hash
    let mut fs2 = FsSnapshot::new();
    fs2.add_dir(dir.to_string());
    fs2.add_file(format!("{}/file1.txt", dir), b"Modified content".to_vec());
    fs2.add_file(format!("{}/file2.txt", dir), b"Another file".to_vec());
    fs2.add_dir(format!("{}/subdir", dir));
    fs2.add_file(format!("{}/subdir/file3.txt", dir), b"Nested file".to_vec());
    let hash3 = hash_directory(&fs2, dir, &vec![]);
    assert_ne!(hash, hash3, "Modified directory should produce different hash");
}

#[test]
fn test_hash_directory_enumeration_order_irrelevant() {
    // the same entries recorded in a different order digest identically
    let dir = "/work/proj";
    let mut fs1 = FsSnapshot::new();
    fs1.add_file(format!("{}/a.txt", dir), b"alpha".to_vec());
    fs1.add_file(format!("{}/b.txt", dir), b"beta".to_vec());
    fs1.add_file(format!("{}/c/d.txt", dir), b"delta".to_vec());

    let mut fs2 = FsSnapshot::new();
    fs2.add_file(format!("{}/c/d.txt", dir), b"delta".to_vec());
    fs2.add_file(format!("{}/a.txt", dir), b"alpha".to_vec());
    fs2.add_file(format!("{}/b.txt", dir), b"beta".to_vec());

    assert_eq!(hash_directory(&fs1, dir, &vec![]), hash_directory(&fs2, dir, &vec![]));
}

#[test]
fn test_hash_directory_with_exclusions() {
    let dir = "/work/proj";
    let mut fs = FsSnapshot::new();
    fs.add_file(format!("{}/file1.txt", dir), b"Hello, World!".to_vec());
    fs.add_file(format!("{}/file2.txt", dir), b"Another file".to_vec());
    fs.add_dir(format!("{}/node_modules", dir));
    fs.add_file(format!("{}/node_modules/lib.js", dir), b"Library code".to_vec());

    // Hash without exclusions
    let hash_all = hash_directory(&fs, dir, &vec![]);

    // Hash with name exclusion
    let exclude_patterns = vec![ExcludePattern::Name("node_modules".to_string())];
    let hash_excluded = hash_directory(&fs, dir, &exclude_patterns);

    // Hashes should be different when excluding files
    assert_ne!(hash_all, hash_excluded, "Hashes should be different when excluding files");

    // Test with absolute path exclusion
    let abs_exclude_patterns =
        vec![ExcludePattern::AbsolutePath(format!("{}/node_modules", dir))];
    let hash_abs_excluded = hash_directory(&fs, dir, &abs_exclude_patterns);

    // Should be the same as name exclusion
    assert_eq!(
        hash_excluded, hash_abs_excluded,
        "Name and absolute path exclusion should produce same result"
    );
}

#[test]
fn test_hash_directory_exclusion_matches_removal() {
    // excluding a subtree digests the same bytes as a tree without it
    let dir = "/work/proj";
    let mut with_tree = FsSnapshot::new();
    with_tree.add_file(format!("{}/file1.txt", dir), b"Hello, World!".to_vec());
    with_tree.add_file(format!("{}/node_modules/lib.js", dir), b"Library code".to_vec());

    let mut without_tree = FsSnapshot::new();
    without_tree.add_file(format!("{}/file1.txt", dir), b"Hello, World!".to_vec());

    let exclude_patterns = vec![ExcludePattern::Name("node_modules".to_string())];
    assert_eq!(
        hash_directory(&with_tree, dir, &exclude_patterns),
        hash_directory(&without_tree, dir, &vec![]),
    );
}

#[test]
fn test_hash_directory_ignores_special_files() {
    let dir = "/work/proj";
    let mut fs = FsSnapshot::new();
    fs.add_file(format!("{}/file1.txt", dir), b"Hello, World!".to_vec());
    fs.add_file(format!("{}/.git", dir), b"Git file".to_vec());
    fs.add_file(format!("{}/.DS_Store", dir), b"DS Store".to_vec());
    fs.add_file(format!("{}/yeth.version", dir), b"1.0.0".to_vec());

    let hash_with = hash_directory(&fs, dir, &vec![]);

    let mut fs2 = FsSnapshot::new();
    fs2.add_file(format!("{}/file1.txt", dir), b"Hello, World!".to_vec());
    let hash_without = hash_directory(&fs2, dir, &vec![]);

    assert_eq!(
        hash_with, hash_without,
        "Hashes should be the same since special files are ignored"
    );
}

#[test]
fn test_hash_path_dispatch() {
    let mut fs = FsSnapshot::new();
    fs.add_file("/p/file.txt".to_string(), b"data".to_vec());
    fs.add_dir("/p/dir".to_string());
    fs.add_file("/p/dir/inner.txt".to_string(), b"inner".to_vec());

    let file_hash = hash_path(&fs, "/p/file.txt", &vec![]).unwrap();
    assert_eq!(file_hash, hash_file(&fs, "/p/file.txt").unwrap());

    let dir_hash = hash_path(&fs, "/p/dir", &vec![]).unwrap();
    assert_eq!(dir_hash, hash_directory(&fs, "/p/dir", &vec![]));

    let missing = hash_path(&fs, "/p/absent", &vec![]);
    match missing {
        Err(YethError::NorFileOrDirectory(p)) => assert_eq!(p, "/p/absent"),
        other => panic!("expected NorFileOrDirectory, got {:?}", other),
    }
}

#[test]
fn test_compute_final_hash() {
    // Test with empty dependencies
    let own_hash = "a1b2c3d4e5f6";
    let dep_hashes: Vec<&str> = vec![];
    let result = compute_final_hash(own_hash, &dep_hashes);

    // The result should be different from the own hash when no dependencies
    assert_ne!(result, own_hash);
    assert_eq!(result.len(), 64); // SHA256 hex length

    // The digest runs over the own hash's bytes
    assert_eq!(result, "bde81e9384b7848e57951ec32c7344459233235bfa519d7396ae3406014a06f4");

    // Test with single dependency
    let dep_hash1 = "f6e5d4c3b2a1";
    let dep_hashes: Vec<&str> = vec![dep_hash1];
    let result = compute_final_hash(own_hash, &dep_hashes);

    // The result should be different from both inputs
    assert_ne!(result, own_hash);
    assert_ne!(result, dep_hash1);
    assert_eq!(result.len(), 64);

    // Test with multiple dependencies
    let dep_hash2 = "z9y8x7w6v5u4";
    let dep_hashes: Vec<&str> = vec![dep_hash1, dep_hash2];
    let result = compute_final_hash(own_hash, &dep_hashes);

    // The result should be different from all inputs
    assert_ne!(result, own_hash);
    assert_ne!(result, dep_hash1);
    assert_ne!(result, dep_hash2);
    assert_eq!(result.len(), 64);

    // The digest runs over the concatenation, in declaration order
    assert_eq!(result, "76449bedc9de233e96c3bd139d3ad83f84653fe64e6892f5eda1c678fbf59cbe");

    // Test that the same inputs always produce the same output
    let result1 = compute_final_hash(own_hash, &dep_hashes);
    let result2 = compute_final_hash(own_hash, &dep_hashes);
    assert_eq!(result1, result2);

    // Test that different dependency order produces different results
    let dep_hashes_reordered: Vec<&str> = vec![dep_hash2, dep_hash1];
    let result_reordered = compute_final_hash(own_hash, &dep_hashes_reordered);
    assert_ne!(result, result_reordered);
}

#[test]
fn test_compute_final_hash_order_sensitive() {
    // two distinct digests of equal length, swapped: the composition differs
    let own = "0000000000000000000000000000000000000000000000000000000000000000";
    let d1 = "1111111111111111111111111111111111111111111111111111111111111111";
    let d2 = "2222222222222222222222222222222222222222222222222222222222222222";
    let forward = compute_final_hash(own, &vec![d1, d2]);
    let swapped = compute_final_hash(own, &vec![d2, d1]);
    assert_ne!(forward, swapped);
}

#[test]
fn test_should_exclude_component_and_relative() {
    let base = "/work/proj";
    let pats = vec![ExcludePattern::Name("node_modules".to_string())];
    // component match anywhere in the tree
    assert!(should_exclude("/work/proj/node_modules/lib.js", base, &pats));
    // relative prefix match
    let rel_pats = vec![ExcludePattern::Name("build".to_string())];
    assert!(should_exclude("/work/proj/build-cache/x", base, &rel_pats));
    // no match
    assert!(!should_exclude("/work/proj/src/main.rs", base, &pats));
    // absolute pattern covers the subtree
    let abs_pats = vec![ExcludePattern::AbsolutePath("/work/proj/out".to_string())];
    assert!(should_exclude("/work/proj/out", base, &abs_pats));
    assert!(should_exclude("/work/proj/out/deep/file", base, &abs_pats));
    assert!(!should_exclude("/work/proj/output", base, &abs_pats));
    // empty pattern list never excludes
    assert!(!should_exclude("/work/proj/src/main.rs", base, &vec![]));
}
