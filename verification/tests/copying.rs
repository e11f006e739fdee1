use xyi::copy::{
    checking_message, checks_existing, compare_chunks, copy_log_line, copy_source_allowed,
    copy_target,
    copying_message, destination_plan, file_list_source, index_loaded_message, verdict_of_hashes,
    CachedIndex, ChunkVerdict, CopyError, CopyReport, CopyTally, DestinationPlan, FileListSource,
};
use xyi::listing::{partition_listing, scan_done_message, DirEntryInfo, NamedPath, TreeScan};
use xyi::path::components;

fn entry(path: &str, name: &str, is_dir: bool) -> DirEntryInfo {
    DirEntryInfo { path: path.to_string(), name: name.to_string(), is_dir }
}

#[test]
fn copy_error_keeps_path_and_message() {
    let e = CopyError::new("/a/b", "could not open source: denied".to_string());
    assert_eq!(e.path, "/a/b");
    assert_eq!(e.message, "could not open source: denied");
}

#[test]
fn cached_index_is_used_as_is() {
    let files = vec![NamedPath { path: "/s/a".to_string(), name: "a".to_string() }];
    match file_list_source(Some("idx.json".to_string()), CachedIndex::Loaded(files)) {
        FileListSource::Cached(f) => assert_eq!(f[0].path, "/s/a"),
        _ => panic!("expected the cached index"),
    }
    for c in [CachedIndex::Missing, CachedIndex::Unusable] {
        match file_list_source(Some("idx.json".to_string()), c) {
            FileListSource::Scan { save_to } => assert_eq!(save_to, Some("idx.json".to_string())),
            _ => panic!("expected a scan"),
        }
    }
    match file_list_source(None, CachedIndex::NotRequested) {
        FileListSource::Scan { save_to } => assert_eq!(save_to, None),
        _ => panic!("expected a scan"),
    }
}

#[test]
fn copy_target_mirrors_the_source_tree() {
    let t = copy_target("/data/src/a/b/f.txt", "/data/src", "/backup");
    assert_eq!(t.dirs, vec!["/backup/a", "/backup/a/b"]);
    assert_eq!(t.file, "/backup/a/b/f.txt");
    let t = copy_target("/data/src/f.txt", "/data/src/", "dest/");
    assert!(t.dirs.is_empty());
    assert_eq!(t.file, "dest/f.txt");
    let t = copy_target("./x/f", ".", "out");
    assert_eq!(t.dirs, vec!["out/x"]);
    assert_eq!(t.file, "out/x/f");
    let c: Vec<Vec<char>> = components(&t.file);
    assert_eq!(c.len(), 3);
}

#[test]
fn a_dot_below_an_empty_root_stays_in_the_destination() {
    assert!(copy_source_allowed("./a/f", ""));
    let t = copy_target("./a/f", "", "out");
    assert_eq!(t.dirs, vec!["out/a"]);
    assert_eq!(t.file, "out/a/f");
}

#[test]
fn files_that_would_leave_the_destination_are_not_allowed() {
    assert!(copy_source_allowed("/data/src/a/f.txt", "/data/src"));
    assert!(!copy_source_allowed("/elsewhere/f.txt", "/data/src"));
    assert!(!copy_source_allowed("/data/srcfoo/f.txt", "/data/src"));
    assert!(!copy_source_allowed("/f.txt", ""));
    assert!(!copy_source_allowed("/data/src/../x/f.txt", "/data/src"));
    assert!(!copy_source_allowed("/data/src", "/data/src"));
    assert!(!copy_source_allowed("", "/data/src"));
}

#[test]
fn existing_destinations_are_respected() {
    assert!(checks_existing(true, false));
    assert!(!checks_existing(true, true));
    assert!(!checks_existing(false, false));
    assert_eq!(destination_plan(None, 10, false, false), DestinationPlan::Copy);
    assert_eq!(destination_plan(Some(10), 10, false, false), DestinationPlan::SkipCounted);
    assert_eq!(destination_plan(Some(9), 10, false, false), DestinationPlan::SkipUncounted);
    assert_eq!(destination_plan(Some(9), 10, true, true), DestinationPlan::SkipCounted);
    assert_eq!(destination_plan(Some(10), 10, true, false), DestinationPlan::CompareContents);
    assert_eq!(destination_plan(Some(9), 10, true, false), DestinationPlan::CompareContents);
}

#[test]
fn chunk_comparison() {
    assert_eq!(verdict_of_hashes(1, 2, 5, 5), ChunkVerdict::Differ);
    assert_eq!(verdict_of_hashes(3, 3, 5, 4), ChunkVerdict::Differ);
    assert_eq!(verdict_of_hashes(3, 3, 0, 0), ChunkVerdict::Same);
    assert_eq!(verdict_of_hashes(3, 3, 5, 5), ChunkVerdict::Continue);
    let a = [7u8; 64];
    let mut b = [7u8; 64];
    assert_eq!(compare_chunks(&a, &b, 64, 64), ChunkVerdict::Continue);
    assert_eq!(compare_chunks(&a, &b, 0, 0), ChunkVerdict::Same);
    b[10] = 8;
    assert_eq!(compare_chunks(&a, &b, 64, 64), ChunkVerdict::Differ);
    assert_eq!(compare_chunks(&a, &b, 10, 10), ChunkVerdict::Continue);
    assert_eq!(seahash::hash(&a) == seahash::hash(&b), false);
}

#[test]
fn trailing_nul_bytes_make_a_difference() {
    // the source ended after 3 bytes; the destination holds them and a NUL
    let source = [1u8, 2, 3, 0, 0, 0];
    let destination = [1u8, 2, 3, 0, 0, 0];
    assert_eq!(compare_chunks(&source, &destination, 3, 4), ChunkVerdict::Differ);
    assert_eq!(compare_chunks(&source, &destination, 3, 3), ChunkVerdict::Continue);
    assert_eq!(compare_chunks(&source, &destination, 0, 1), ChunkVerdict::Differ);
}

#[test]
fn log_and_progress_texts() {
    assert_eq!(
        copy_log_line("/s/a", "/d/a", "2024-01-02-03-04-05"),
        "- Copied /s/a to /d/a - at 2024-01-02-03-04-05\n"
    );
    assert_eq!(checking_message("a.txt"), "Checking a.txt");
    assert_eq!(copying_message("a.txt"), "Copying a.txt");
    assert_eq!(index_loaded_message(12), "Loaded 12 files from index cache");
    assert_eq!(scan_done_message(0), "Done reading 0 files");
}

fn err(p: &str) -> Result<(), CopyError> {
    Err(CopyError::new(p, "boom".to_string()))
}

#[test]
fn fail_fast_stops_at_the_first_failure() {
    let mut t = CopyTally::new(false);
    assert!(t.record(Ok(())));
    assert!(!t.record(err("/a")));
    assert!(!t.record(err("/b")));
    let r = t.finish();
    assert_eq!(r.exit_code(), 1);
    assert_eq!(r.summary_message(), "Copy aborted due to an error");
    assert_eq!(
        r.report_lines(),
        vec![
            "\nCopy aborted: failed to copy '/a': boom".to_string(),
            "Re-run with --continue-on-error to skip failing files and report them at the end."
                .to_string()
        ]
    );
    match r {
        CopyReport::Aborted(e) => assert_eq!(e.path, "/a"),
        _ => panic!("expected an abort"),
    }
}

#[test]
fn collected_failures_are_all_reported() {
    let mut t = CopyTally::new(true);
    assert!(t.record(err("/a")));
    assert!(t.record(Ok(())));
    assert!(t.record(err("/b")));
    let r = t.finish();
    assert_eq!(r.exit_code(), 1);
    assert_eq!(r.summary_message(), "Done copying files with 2 failure(s)");
    assert_eq!(
        r.report_lines(),
        vec![
            "\n2 file(s) failed to copy:".to_string(),
            "  - '/a': boom".to_string(),
            "  - '/b': boom".to_string()
        ]
    );
}

#[test]
fn clean_copy_exits_with_zero() {
    for keep_going in [false, true] {
        let mut t = CopyTally::new(keep_going);
        assert!(t.record(Ok(())));
        let r = t.finish();
        assert_eq!(r.exit_code(), 0);
        assert_eq!(r.summary_message(), "Done copying files");
        assert!(r.report_lines().is_empty());
    }
}

#[test]
fn partition_keeps_every_entry_in_order() {
    let l = vec![entry("/r/a", "a", true), entry("/r/f", "f", false), entry("/r/b", "b", true)];
    let (dirs, files) = partition_listing(&l);
    assert_eq!(dirs.iter().map(|d| d.name.clone()).collect::<Vec<_>>(), vec!["a", "b"]);
    assert_eq!(files.iter().map(|d| d.path.clone()).collect::<Vec<_>>(), vec!["/r/f"]);
    assert_eq!(dirs.len() + files.len(), l.len());
}

#[test]
fn tree_scan_is_breadth_first() {
    let mut s = TreeScan::new();
    s.absorb(&vec![entry("/r/d1", "d1", true), entry("/r/f1", "f1", false), entry("/r/d2", "d2", true)]);
    assert_eq!(s.next_dir(), Some("/r/d1".to_string()));
    s.absorb(&vec![entry("/r/d1/e", "e", true), entry("/r/d1/f2", "f2", false)]);
    assert_eq!(s.next_dir(), Some("/r/d2".to_string()));
    s.absorb(&vec![entry("/r/d2/f3", "f3", false)]);
    assert_eq!(s.next_dir(), Some("/r/d1/e".to_string()));
    s.absorb(&vec![]);
    assert_eq!(s.next_dir(), None);
    assert_eq!(s.next_dir(), None);
    assert_eq!(s.file_count(), 3);
    let names: Vec<String> = s.into_files().into_iter().map(|f| f.name).collect();
    assert_eq!(names, vec!["f1", "f2", "f3"]);
}
