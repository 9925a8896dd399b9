use missing_files::checksum::{create_checksums, FileDigest};
use missing_files::generator::ChecksumGenerator;
use missing_files::reconcile::{build_new_index, build_old_index, find_missing_files, reconcile};

fn file(path: &str, digest: &str) -> FileDigest {
    FileDigest { path: path.to_string(), digest: digest.to_string() }
}

fn hashed(files: &[(&str, &[u8])], generator: &ChecksumGenerator) -> Vec<FileDigest> {
    let contents: Vec<Vec<u8>> = files.iter().map(|f| f.1.to_vec()).collect();
    let digests = create_checksums(&contents, generator);
    let mut records = Vec::new();
    for i in 0..files.len() {
        records.push(FileDigest { path: files[i].0.to_string(), digest: digests[i].clone() });
    }
    records
}

fn all_generators() -> Vec<ChecksumGenerator> {
    vec![
        ChecksumGenerator::CRC32,
        ChecksumGenerator::Sha256,
        ChecksumGenerator::Adler32,
        ChecksumGenerator::MD5,
    ]
}

#[test]
fn copy_under_another_name_is_not_missing() {
    for generator in all_generators() {
        let old = hashed(&[("old/a.txt", b"hello"), ("old/b.txt", b"world")], &generator);
        let new = hashed(&[("new/copy_of_a.txt", b"hello")], &generator);
        assert_eq!(find_missing_files(&old, &new), vec!["old/b.txt"]);
    }
}

#[test]
fn identical_trees_miss_nothing() {
    for generator in all_generators() {
        let files: [(&str, &[u8]); 3] =
            [("tree/a.txt", b"hello"), ("tree/sub/b.txt", b"world"), ("tree/empty", b"")];
        let old = hashed(&files, &generator);
        let new = hashed(&files, &generator);
        assert!(find_missing_files(&old, &new).is_empty());
    }
}

#[test]
fn moved_file_is_not_missing() {
    let old = hashed(&[("old/deep/down/report.txt", b"figures")], &ChecksumGenerator::Sha256);
    let new = hashed(&[("new/report.txt", b"figures")], &ChecksumGenerator::Sha256);
    assert!(find_missing_files(&old, &new).is_empty());
}

#[test]
fn changed_file_is_missing() {
    let old = hashed(&[("old/a.txt", b"hello")], &ChecksumGenerator::CRC32);
    let new = hashed(&[("new/a.txt", b"hello!")], &ChecksumGenerator::CRC32);
    assert_eq!(find_missing_files(&old, &new), vec!["old/a.txt"]);
}

#[test]
fn files_only_in_the_new_tree_are_never_listed() {
    let old = hashed(&[("old/a.txt", b"hello")], &ChecksumGenerator::MD5);
    let new = hashed(
        &[("new/a.txt", b"hello"), ("new/extra.txt", b"more"), ("new/z.txt", b"z")],
        &ChecksumGenerator::MD5,
    );
    assert!(find_missing_files(&old, &new).is_empty());
}

#[test]
fn empty_new_tree_misses_everything() {
    let old = vec![file("c", "3"), file("a", "1"), file("b", "2")];
    let new: Vec<FileDigest> = Vec::new();
    assert_eq!(find_missing_files(&old, &new), vec!["a", "b", "c"]);
}

#[test]
fn empty_old_tree_misses_nothing() {
    let old: Vec<FileDigest> = Vec::new();
    let new = vec![file("x", "1")];
    assert!(find_missing_files(&old, &new).is_empty());
}

#[test]
fn missing_files_come_in_ascending_order_of_path() {
    let old = vec![
        file("old/zeta", "d1"),
        file("old/alpha", "d2"),
        file("old/Beta", "d3"),
        file("old/alpha/inner", "d4"),
        file("old/kept", "d5"),
    ];
    let new = vec![file("new/kept", "d5")];
    assert_eq!(
        find_missing_files(&old, &new),
        vec!["old/Beta", "old/alpha", "old/alpha/inner", "old/zeta"]
    );
}

#[test]
fn each_missing_path_is_listed_once() {
    let old = vec![file("old/a", "d1"), file("old/b", "d1"), file("old/c", "d1")];
    let new = vec![file("new/a", "d2")];
    assert_eq!(find_missing_files(&old, &new), vec!["old/a", "old/b", "old/c"]);
}

#[test]
fn one_copy_in_the_new_tree_covers_all_old_duplicates() {
    let old = vec![file("old/a", "same"), file("old/b", "same"), file("old/c", "other")];
    let new = vec![file("new/only", "same")];
    assert_eq!(find_missing_files(&old, &new), vec!["old/c"]);
}

#[test]
fn shared_digest_in_the_new_tree_keeps_the_last_path() {
    let new = vec![file("new/first", "d"), file("new/second", "d"), file("new/third", "e")];
    let index = build_new_index(&new);
    assert_eq!(index.len(), 2);
    assert_eq!(index.key_at(0), "d");
    assert_eq!(index.value_at(0), "new/second");
    assert_eq!(index.key_at(1), "e");
    assert_eq!(index.value_at(1), "new/third");
}

#[test]
fn old_index_maps_path_to_digest() {
    let old = vec![file("old/b", "2"), file("old/a", "1")];
    let index = build_old_index(&old);
    assert_eq!(index.len(), 2);
    assert_eq!(index.key_at(0), "old/a");
    assert_eq!(index.value_at(0), "1");
    assert_eq!(index.key_at(1), "old/b");
    assert_eq!(index.value_at(1), "2");
    assert!(index.contains_key("old/a"));
    assert!(!index.contains_key("1"));
}

#[test]
fn path_listed_twice_keeps_its_last_digest() {
    let old = vec![file("old/a", "gone"), file("old/a", "kept")];
    let new = vec![file("new/a", "kept")];
    assert!(find_missing_files(&old, &new).is_empty());
    let new = vec![file("new/a", "gone")];
    assert_eq!(find_missing_files(&old, &new), vec!["old/a"]);
}

#[test]
fn reconcile_works_on_the_indexes() {
    let old = build_old_index(&vec![file("p", "1"), file("q", "2"), file("r", "3")]);
    let new = build_new_index(&vec![file("x", "2")]);
    assert_eq!(reconcile(&old, &new), vec!["p", "r"]);
}

#[test]
fn comparing_twice_gives_the_same_list() {
    let old = hashed(
        &[("old/3", b"three"), ("old/1", b"one"), ("old/2", b"two"), ("old/4", b"four")],
        &ChecksumGenerator::Adler32,
    );
    let new = hashed(&[("new/2", b"two")], &ChecksumGenerator::Adler32);
    let first = find_missing_files(&old, &new);
    let second = find_missing_files(&old, &new);
    assert_eq!(first, second);
    assert_eq!(first, vec!["old/1", "old/3", "old/4"]);
}

#[test]
fn order_in_which_files_were_found_does_not_matter() {
    let old = hashed(
        &[("old/3", b"three"), ("old/1", b"one"), ("old/2", b"two"), ("old/4", b"four")],
        &ChecksumGenerator::CRC32,
    );
    let new = hashed(&[("new/2", b"two"), ("new/9", b"nine")], &ChecksumGenerator::CRC32);
    let mut old_reversed = old.clone();
    old_reversed.reverse();
    let mut new_reversed = new.clone();
    new_reversed.reverse();
    assert_eq!(find_missing_files(&old, &new), find_missing_files(&old_reversed, &new_reversed));
}

#[test]
fn different_contents_with_the_same_digest_count_as_present() {
    // The two words have the same CRC-32, and no other digest in common.
    let old = hashed(&[("old/a.txt", b"plumless")], &ChecksumGenerator::CRC32);
    let new = hashed(&[("new/b.txt", b"buckeroo")], &ChecksumGenerator::CRC32);
    assert_eq!(old[0].digest, "1306201125");
    assert_eq!(new[0].digest, "1306201125");
    assert!(find_missing_files(&old, &new).is_empty());
    let old = hashed(&[("old/a.txt", b"plumless")], &ChecksumGenerator::Sha256);
    let new = hashed(&[("new/b.txt", b"buckeroo")], &ChecksumGenerator::Sha256);
    assert_eq!(find_missing_files(&old, &new), vec!["old/a.txt"]);
}
