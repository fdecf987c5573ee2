//! The search scanner: exact case-insensitive matches over a known
//! tree, exact final counts, and cooperative cancellation.

use rex::fs_ops::{mkdir, write_file};
use rex::memfs::MemFs;
use rex::pathname::FsPath;
use rex::searcher::{run_search, SearchEvent, SearchScan};

fn seg(parts: &[&str]) -> FsPath {
    FsPath::from_parts(parts.iter().map(|s| s.to_string()).collect())
}

/// The tree: r/a/foo.txt, r/a/b/bar.txt, r/a/b/FOO.DAT.
fn setup() -> MemFs {
    let mut fs = MemFs::new();
    mkdir(&mut fs, &seg(&["r"]), "a").unwrap();
    mkdir(&mut fs, &seg(&["r", "a"]), "b").unwrap();
    write_file(&mut fs, &seg(&["r", "a", "foo.txt"]), vec![]).unwrap();
    write_file(&mut fs, &seg(&["r", "a", "b", "bar.txt"]), vec![]).unwrap();
    write_file(&mut fs, &seg(&["r", "a", "b", "FOO.DAT"]), vec![]).unwrap();
    fs
}

fn found(events: &[SearchEvent]) -> Vec<Vec<String>> {
    let mut out: Vec<Vec<String>> = Vec::new();
    for e in events {
        if let SearchEvent::Found(m) = e {
            out.push(m.path.parts().clone());
        }
    }
    out
}

#[test]
fn search_finds_exactly_the_matching_files() {
    let fs = setup();
    let events = run_search(&fs, &seg(&["r"]), "foo");
    let mut hits = found(&events);
    hits.sort();
    assert_eq!(
        hits,
        vec![
            vec!["r".to_string(), "a".to_string(), "b".to_string(), "FOO.DAT".to_string()],
            vec!["r".to_string(), "a".to_string(), "foo.txt".to_string()],
        ]
    );
    // exactly one final report, last, with the exact totals
    match events.last().unwrap() {
        SearchEvent::Progress(pm) => {
            assert!(pm.done);
            assert_eq!(pm.scanned_files, 3);
            assert_eq!(pm.scanned_dirs, 3);  // r, r/a, r/a/b
        },
        _ => panic!("the last event must be the final report"),
    }
    let done_count = events
        .iter()
        .filter(|e| matches!(e, SearchEvent::Progress(pm) if pm.done))
        .count();
    assert_eq!(done_count, 1);
}

#[test]
fn matching_is_case_insensitive_both_ways() {
    let fs = setup();
    // an upper-case query still finds lower-case names, and vice versa
    let mut hits = found(&run_search(&fs, &seg(&["r"]), "FOO"));
    hits.sort();
    assert_eq!(hits.len(), 2);
}

#[test]
fn empty_query_matches_every_file() {
    let fs = setup();
    assert_eq!(found(&run_search(&fs, &seg(&["r"]), "")).len(), 3);
}

#[test]
fn matching_folds_case_beyond_ascii() {
    let mut fs = MemFs::new();
    mkdir(&mut fs, &seg(&["r"]), "docs").unwrap();
    write_file(&mut fs, &seg(&["r", "docs", "\u{c4}rger.txt"]), vec![]).unwrap();
    // an upper-case umlaut folds to its lower-case form
    let hits = found(&run_search(&fs, &seg(&["r"]), "\u{e4}rger"));
    assert_eq!(hits.len(), 1);
    assert_eq!(hits[0].last().unwrap(), "\u{c4}rger.txt");
}

#[test]
fn search_of_missing_root_reports_done_with_zero_counts() {
    let fs = setup();
    let events = run_search(&fs, &seg(&["ghost"]), "foo");
    assert_eq!(events.len(), 1);
    match &events[0] {
        SearchEvent::Progress(pm) => {
            assert!(pm.done && pm.scanned_files == 0 && pm.scanned_dirs == 0);
        },
        _ => panic!("expected only the final report"),
    }
}

#[test]
fn cancellation_stops_the_scan_and_still_reports_done() {
    let fs = setup();
    let mut scan = SearchScan::new(seg(&["r"]), "foo");
    // first step processes r
    let d = scan.pending().unwrap();
    let listing = fs.list_dir(&d).unwrap();
    let first = scan.step(false, Some(&listing));
    assert!(found(&first).is_empty());  // r has no files
    // the flag is observed at the next step: no results, one final report
    let events = scan.step(true, None);
    assert_eq!(events.len(), 1);
    match &events[0] {
        SearchEvent::Progress(pm) => assert!(pm.done),
        _ => panic!("a cancelled scan must still send its final report"),
    }
    assert!(scan.pending().is_none());
}

#[test]
fn unreadable_directory_is_skipped_silently() {
    let fs = setup();
    let mut scan = SearchScan::new(seg(&["r"]), "foo");
    let d = scan.pending().unwrap();
    assert_eq!(d.parts().clone(), vec!["r".to_string()]);
    // pretend r could not be read: no message, no counts, scan over
    let events = scan.step(false, None);
    assert_eq!(events.len(), 1);
    match &events[0] {
        SearchEvent::Progress(pm) => {
            assert!(pm.done && pm.scanned_files == 0 && pm.scanned_dirs == 0);
        },
        _ => panic!("expected only the final report"),
    }
}
