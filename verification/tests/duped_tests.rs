use duped::db::{cached_hash, Entry, HashDb};
use duped::digest::hash_bytes;
use duped::removal::{
    file_name, interactive_removal_plan, paranoid_removal_plan, parse_choice,
    same_filename_removal_plan, str_eq, PairCursor, RemovalChoice, RemovalKind, same_content,
};
use duped::{ContentLimit, Deduper, DeduperResult, FileEntry, NoopFindHook, SourceFile, StopWalk};

fn build_tree(files: &[(&str, &[u8])]) -> Vec<SourceFile> {
    let mut v = Vec::new();
    for (path, data) in files {
        v.push(SourceFile::new(path.to_string(), data.to_vec(), 0));
    }
    v
}

fn discover(files: &Vec<SourceFile>) -> DeduperResult {
    let deduper = Deduper::builder(vec![]).build();
    deduper.find(files, &ContentLimit::no_limit(), &NoopFindHook)
}

/// The paths of every duplicate group, each group sorted.
fn duplicate_groups(result: &DeduperResult) -> Vec<Vec<String>> {
    let mut out = Vec::new();
    for idx in result.duplicates() {
        let mut paths = result.hashes()[idx].entries.iter();
        paths.sort();
        out.push(paths);
    }
    out.sort();
    out
}

#[test]
fn scenario_two_identical_files_form_one_group() {
    let files = build_tree(&[("a", b"a"), ("a2", b"a")]);
    let result = discover(&files);
    let groups = duplicate_groups(&result);
    assert_eq!(groups, vec![vec!["a".to_string(), "a2".to_string()]]);
    assert!(!result.is_partial());
}

#[test]
fn scenario_nested_tree_forms_two_groups() {
    let files = build_tree(&[
        ("dir1/a1", b"a1"),
        ("dir1/b", b"b"),
        ("dir2/a2", b"a1"),
        ("dir2/b", b"b"),
    ]);
    let result = discover(&files);
    let groups = duplicate_groups(&result);
    assert_eq!(
        groups,
        vec![
            vec!["dir1/a1".to_string(), "dir2/a2".to_string()],
            vec!["dir1/b".to_string(), "dir2/b".to_string()],
        ]
    );
    // exactly two groups in all, and each file listed exactly once
    assert_eq!(result.hashes().len(), 2);
    let mut all_paths: Vec<String> = Vec::new();
    for g in result.hashes() {
        all_paths.extend(g.entries.iter());
    }
    all_paths.sort();
    assert_eq!(
        all_paths,
        vec![
            "dir1/a1".to_string(),
            "dir1/b".to_string(),
            "dir2/a2".to_string(),
            "dir2/b".to_string(),
        ]
    );
}

#[test]
fn group_sizes_agree_with_contents() {
    let files = build_tree(&[("x", b"abc"), ("y", b"abc"), ("z", b"d")]);
    let result = discover(&files);
    for g in result.hashes() {
        assert_eq!(g.entries.file_size(), g.size);
        assert!(g.digest.len() == 32);
    }
    let groups = duplicate_groups(&result);
    assert_eq!(groups, vec![vec!["x".to_string(), "y".to_string()]]);
    let gi = result.duplicates()[0];
    assert_eq!(result.hashes()[gi].size, 3);
}

#[test]
fn filter_excludes_small_files() {
    let files = build_tree(&[("a", b"a"), ("a2", b"a"), ("big", b"bbbb"), ("big2", b"bbbb")]);
    let deduper = Deduper::builder(vec![]).build();
    let limit = ContentLimit::no_limit().with_lower_limit(2);
    let result = deduper.find(&files, &limit, &NoopFindHook);
    let groups = duplicate_groups(&result);
    // the one-byte files are excluded; no excluded path appears anywhere
    assert_eq!(groups, vec![vec!["big".to_string(), "big2".to_string()]]);
    for g in result.hashes() {
        for p in g.entries.iter() {
            assert!(p != "a" && p != "a2");
        }
    }
}

#[test]
fn upper_limit_excludes_large_files() {
    let files = build_tree(&[("a", b"aa"), ("b", b"aa"), ("c", b"cccc"), ("d", b"cccc")]);
    let deduper = Deduper::builder(vec![]).build();
    let limit = ContentLimit::no_limit().with_upper_limit(3);
    let result = deduper.find(&files, &limit, &NoopFindHook);
    let groups = duplicate_groups(&result);
    assert_eq!(groups, vec![vec!["a".to_string(), "b".to_string()]]);
}

#[test]
fn stopping_filter_marks_result_partial() {
    let files = build_tree(&[("a", b"a"), ("a2", b"a")]);
    let deduper = Deduper::builder(vec![]).build();
    let result = deduper.find(&files, &StopWalk, &NoopFindHook);
    assert!(result.is_partial());
    assert_eq!(result.hashes().len(), 0);
    let full = deduper.find(&files, &ContentLimit::no_limit(), &NoopFindHook);
    assert!(!full.is_partial());
}

#[test]
fn reported_digest_matches_blake3_of_content() {
    let d = hash_bytes(b"a");
    assert_eq!(d.as_slice(), blake3::hash(b"a").as_bytes());
    assert_ne!(d.as_slice(), b"a".as_slice());
    let files = build_tree(&[("a", b"a"), ("a2", b"a")]);
    let result = discover(&files);
    let gi = result.duplicates()[0];
    assert_eq!(result.hashes()[gi].digest.as_slice(), blake3::hash(b"a").as_bytes());
}

#[test]
fn empty_tree_gives_empty_result() {
    let files = build_tree(&[]);
    let result = discover(&files);
    assert_eq!(result.hashes().len(), 0);
    assert!(!result.is_partial());
}

fn removal_db(paths: &[(&str, &[u8])]) -> HashDb {
    let mut db = HashDb::try_new(":memory:").unwrap();
    for (p, data) in paths {
        let (_, _, hashed) = cached_hash(&mut db, p, 0, &data.to_vec()).unwrap();
        assert!(hashed);
    }
    db
}

fn do_removal(choice: &str) -> (Vec<String>, HashDb) {
    let files = build_tree(&[("a", b"a"), ("a2", b"a")]);
    let mut db = removal_db(&[("a", b"a"), ("a2", b"a")]);
    let result = discover(&files);
    let gi = result.duplicates()[0];
    let mut paths = result.hashes()[gi].entries.iter();
    paths.sort();
    let mut choices = Vec::new();
    choices.push(parse_choice(choice).unwrap());
    let plan = interactive_removal_plan(paths.len(), &choices);
    let mut removed = Vec::new();
    for idx in plan {
        removed.push(paths[idx].clone());
        db.remove(paths[idx].as_str()).unwrap();
    }
    (removed, db)
}

#[test]
fn remove_file_1() {
    let (removed, db) = do_removal("1");
    assert_eq!(removed, vec!["a".to_string()]);
    assert!(db.select("a").unwrap().is_none());
    assert!(db.select("a2").unwrap().is_some());
}

#[test]
fn remove_file_2() {
    let (removed, db) = do_removal("2");
    assert_eq!(removed, vec!["a2".to_string()]);
    assert!(db.select("a").unwrap().is_some());
    assert!(db.select("a2").unwrap().is_none());
}

#[test]
fn remove_none() {
    let (removed, db) = do_removal("s");
    assert!(removed.is_empty());
    assert!(db.select("a").unwrap().is_some());
    assert!(db.select("a2").unwrap().is_some());
}

#[test]
fn main_remove_file_1() {
    let (removed, _) = do_removal("1");
    assert_eq!(removed, vec!["a".to_string()]);
}

#[test]
fn main_remove_file_2() {
    let (removed, _) = do_removal("2");
    assert_eq!(removed, vec!["a2".to_string()]);
}

#[test]
fn main_remove_none() {
    let (removed, _) = do_removal("s");
    assert!(removed.is_empty());
}

#[test]
fn same_filenames_deleted() {
    let files = build_tree(&[
        ("a/a1", b"a1"),
        ("a/b", b"b"),
        ("b/a2", b"a1"),
        ("b/b", b"b"),
    ]);
    let result = discover(&files);
    let mut kept: Vec<String> = files.iter().map(|f| f.path.clone()).collect();
    for gi in result.duplicates() {
        let mut paths = result.hashes()[gi].entries.iter();
        paths.sort();
        let plan = same_filename_removal_plan(&paths);
        for idx in plan {
            kept.retain(|p| *p != paths[idx]);
        }
    }
    kept.sort();
    assert_eq!(
        kept,
        vec!["a/a1".to_string(), "a/b".to_string(), "b/a2".to_string()]
    );
}

#[test]
fn paranoid_removal_removes_duplicates() {
    let files = build_tree(&[
        ("a/a1", b"a1"),
        ("a/b", b"b"),
        ("b/a2", b"a1"),
        ("b/b", b"b"),
    ]);
    let result = discover(&files);
    let mut kept: Vec<String> = files.iter().map(|f| f.path.clone()).collect();
    for gi in result.duplicates() {
        let mut paths = result.hashes()[gi].entries.iter();
        paths.sort();
        let mut contents = Vec::new();
        for p in &paths {
            let f = files.iter().find(|f| f.path == *p).unwrap();
            contents.push(f.bytes.clone());
        }
        let plan = paranoid_removal_plan(&contents);
        for idx in plan {
            kept.retain(|p| *p != paths[idx]);
        }
    }
    kept.sort();
    assert_eq!(kept, vec!["a/a1".to_string(), "a/b".to_string()]);
}

#[test]
fn paranoid_keeps_forced_collision_with_different_content() {
    // a forced hash collision: two entries put under one key although their
    // contents differ; the byte-comparator must refuse to remove the second
    let mut result = DeduperResult::new();
    let digest = hash_bytes(b"a1");
    result.add_entry(digest.clone(), FileEntry::new("dir1/a1".to_string(), 2));
    result.add_entry(digest, FileEntry::new("dir2/a2".to_string(), 2));
    let gi = result.duplicates()[0];
    let mut paths = result.hashes()[gi].entries.iter();
    paths.sort();
    assert_eq!(paths, vec!["dir1/a1".to_string(), "dir2/a2".to_string()]);
    let contents = vec![b"a1".to_vec(), b"xy".to_vec()];
    let plan = paranoid_removal_plan(&contents);
    assert!(plan.is_empty());
}

#[test]
fn same_content_works() {
    let a: &[u8] = b"a";
    let a2: &[u8] = b"a";
    let a3: &[u8] = b"b";
    assert!(same_content(a, a2));
    assert!(!same_content(a, a3));
    assert!(!same_content(a2, a3));
    assert!(same_content(a3, a3));
}

#[test]
fn main_same_content_works() {
    assert!(same_content(b"", b""));
    assert!(!same_content(b"ab", b"a"));
    assert!(same_content(b"abc", b"abc"));
    assert!(!same_content(b"abc", b"abd"));
}

#[test]
fn insert_and_remove() {
    let mut db = HashDb::try_new(":memory:").unwrap();
    let path = "/home/foo".to_string();
    let mut entry = Entry { path: path.clone(), mtime: 2, hash: vec![0u8; 32], size: 10 };

    assert_eq!(db.insert(&entry).unwrap(), 1);
    let got = db.select(&path).unwrap().unwrap();
    assert_eq!(got.mtime, 2);
    assert_eq!(got.hash, vec![0u8; 32]);
    assert_eq!(got.size, 10);

    entry.mtime = 3;
    assert_eq!(db.insert(&entry).unwrap(), 1);
    let got = db.select(&path).unwrap().unwrap();
    assert_eq!(got.mtime, 3);

    assert_eq!(db.remove(&path).unwrap(), 1);
    assert!(db.select(&path).unwrap().is_none());
}

#[test]
fn cache_round_trip_skips_hashing() {
    let mut db = HashDb::try_new(":memory:").unwrap();
    let content = b"hello".to_vec();
    let (size, hash, hashed) = cached_hash(&mut db, "f", 7, &content).unwrap();
    assert!(hashed);
    assert_eq!(size, 5);
    assert_eq!(hash.as_slice(), blake3::hash(b"hello").as_bytes());
    // unchanged file: second pass does not hash
    let (size2, hash2, hashed2) = cached_hash(&mut db, "f", 7, &content).unwrap();
    assert!(!hashed2);
    assert_eq!(size2, 5);
    assert_eq!(hash2, hash);
}

#[test]
fn cache_invalidated_by_mtime_change() {
    let mut db = HashDb::try_new(":memory:").unwrap();
    let (_, hash, _) = cached_hash(&mut db, "f", 7, &b"old".to_vec()).unwrap();
    assert_eq!(hash.as_slice(), blake3::hash(b"old").as_bytes());
    // new content, new mtime: the row is rewritten with the new digest
    let (size, hash, hashed) = cached_hash(&mut db, "f", 8, &b"newer".to_vec()).unwrap();
    assert!(hashed);
    assert_eq!(size, 5);
    assert_eq!(hash.as_slice(), blake3::hash(b"newer").as_bytes());
    let row = db.select("f").unwrap().unwrap();
    assert_eq!(row.mtime, 8);
    assert_eq!(row.hash.as_slice(), blake3::hash(b"newer").as_bytes());
}

#[test]
fn removal_options_round_trip() {
    assert_eq!(RemovalKind::from_option("--remove"), Some(RemovalKind::Interactive));
    assert_eq!(RemovalKind::from_option("-r"), Some(RemovalKind::Interactive));
    assert_eq!(
        RemovalKind::from_option("--remove-with-same-filename"),
        Some(RemovalKind::SameFilename)
    );
    assert_eq!(RemovalKind::from_option("--remove-paranoid"), Some(RemovalKind::Paranoid));
    assert_eq!(RemovalKind::from_option("--other"), None);
    assert_eq!(RemovalKind::from_option(RemovalKind::Interactive.as_option()), Some(RemovalKind::Interactive));
    assert_eq!(RemovalKind::from_option(RemovalKind::SameFilename.as_option()), Some(RemovalKind::SameFilename));
    assert_eq!(RemovalKind::from_option(RemovalKind::Paranoid.as_option()), Some(RemovalKind::Paranoid));
}

#[test]
fn interactive_plan_follows_choices() {
    // three paths: first answer removes index 0, the next pair is (1, 2)
    let choices = vec![RemovalChoice::First, RemovalChoice::Second];
    let plan = interactive_removal_plan(3, &choices);
    assert_eq!(plan, vec![0, 2]);
    let plan = interactive_removal_plan(3, &vec![RemovalChoice::Skip]);
    assert!(plan.is_empty());
    let plan = interactive_removal_plan(2, &vec![RemovalChoice::Second]);
    assert_eq!(plan, vec![1]);
}

#[test]
fn file_name_takes_suffix_after_last_separator() {
    assert_eq!(file_name("a/b/c.txt"), "c.txt".to_string());
    assert_eq!(file_name("c.txt"), "c.txt".to_string());
    assert_eq!(file_name("a/"), "".to_string());
    assert_eq!(file_name(""), "".to_string());
    assert!(str_eq("abc", "abc"));
    assert!(!str_eq("abc", "abd"));
}

#[test]
fn main_same_filenames_deleted() {
    let files = build_tree(&[
        ("a/a1", b"a1"),
        ("a/b", b"b"),
        ("b/a2", b"a1"),
        ("b/b", b"b"),
    ]);
    let result = discover(&files);
    let mut removed: Vec<String> = Vec::new();
    for gi in result.duplicates() {
        let mut paths = result.hashes()[gi].entries.iter();
        paths.sort();
        for idx in same_filename_removal_plan(&paths) {
            removed.push(paths[idx].clone());
        }
    }
    assert_eq!(removed, vec!["b/b".to_string()]);
}

#[test]
fn main_paranoid_removal_removes_duplicates() {
    let files = build_tree(&[
        ("a/a1", b"a1"),
        ("a/b", b"b"),
        ("b/a2", b"a1"),
        ("b/b", b"b"),
    ]);
    let result = discover(&files);
    let mut removed: Vec<String> = Vec::new();
    for gi in result.duplicates() {
        let mut paths = result.hashes()[gi].entries.iter();
        paths.sort();
        let mut contents = Vec::new();
        for p in &paths {
            let f = files.iter().find(|f| f.path == *p).unwrap();
            contents.push(f.bytes.clone());
        }
        for idx in paranoid_removal_plan(&contents) {
            removed.push(paths[idx].clone());
        }
    }
    removed.sort();
    assert_eq!(removed, vec!["b/a2".to_string(), "b/b".to_string()]);
}

#[test]
fn cached_discovery_round_trip_hashes_nothing_twice() {
    let files = build_tree(&[("a", b"a"), ("a2", b"a"), ("c", b"ccc")]);
    let deduper = Deduper::builder(vec![]).build();
    let mut db = HashDb::try_new(":memory:").unwrap();
    let (first, hashed1) = deduper
        .find_cached(&files, &ContentLimit::no_limit(), &NoopFindHook, &mut db)
        .unwrap();
    assert_eq!(hashed1, 3);
    assert_eq!(
        duplicate_groups(&first),
        vec![vec!["a".to_string(), "a2".to_string()]]
    );
    // unchanged files: the second discovery performs zero hashing
    let (second, hashed2) = deduper
        .find_cached(&files, &ContentLimit::no_limit(), &NoopFindHook, &mut db)
        .unwrap();
    assert_eq!(hashed2, 0);
    assert_eq!(
        duplicate_groups(&second),
        vec![vec!["a".to_string(), "a2".to_string()]]
    );
}

#[test]
fn cached_discovery_sees_modified_file() {
    let mut files = build_tree(&[("a", b"old"), ("b", b"zzz")]);
    let deduper = Deduper::builder(vec![]).build();
    let mut db = HashDb::try_new(":memory:").unwrap();
    let (_, hashed1) = deduper
        .find_cached(&files, &ContentLimit::no_limit(), &NoopFindHook, &mut db)
        .unwrap();
    assert_eq!(hashed1, 2);
    // change a's content and mtime: the next discovery rehashes it, lists
    // it under the new digest, and updates the row
    files[0] = SourceFile::new("a".to_string(), b"zzz".to_vec(), 1);
    let (result, hashed2) = deduper
        .find_cached(&files, &ContentLimit::no_limit(), &NoopFindHook, &mut db)
        .unwrap();
    assert_eq!(hashed2, 1);
    assert_eq!(
        duplicate_groups(&result),
        vec![vec!["a".to_string(), "b".to_string()]]
    );
    let row = db.select("a").unwrap().unwrap();
    assert_eq!(row.mtime, 1);
    assert_eq!(row.hash.as_slice(), blake3::hash(b"zzz").as_bytes());
}

#[test]
fn pair_cursor_matches_plan() {
    let mut cursor = PairCursor::new();
    assert!(cursor.is_live(3));
    assert_eq!(cursor.step(RemovalChoice::First, 3), Some(0));
    assert_eq!((cursor.i, cursor.j), (1, 2));
    assert_eq!(cursor.step(RemovalChoice::Second, 3), Some(2));
    assert!(!cursor.is_live(3));
    let plan = interactive_removal_plan(3, &vec![RemovalChoice::First, RemovalChoice::Second]);
    assert_eq!(plan, vec![0, 2]);
}
