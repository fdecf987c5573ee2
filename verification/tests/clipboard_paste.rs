//! The clipboard gate and the paste command: copies repeat, cuts clear
//! themselves after a successful paste, every success is logged.

use rex::clipboard::{Clipboard, Mode};
use rex::fs_ops::{mkdir, paste_into, try_undo, write_file};
use rex::history::OpsHistory;
use rex::memfs::{MemFs, PathStatus};
use rex::pathname::FsPath;

fn seg(parts: &[&str]) -> FsPath {
    FsPath::from_parts(parts.iter().map(|s| s.to_string()).collect())
}

fn setup() -> MemFs {
    let mut fs = MemFs::new();
    mkdir(&mut fs, &FsPath::root(), "here").unwrap();
    mkdir(&mut fs, &FsPath::root(), "there").unwrap();
    write_file(&mut fs, &seg(&["here", "f.txt"]), vec![1]).unwrap();
    fs
}

#[test]
fn gate_requires_items_and_intent() {
    let mut cb = Clipboard::default();
    assert!(!cb.has_items());
    cb.set(vec![seg(&["here", "f.txt"])], Mode::Copy);
    assert!(cb.has_items());
    cb.clear();
    assert!(!cb.has_items());
}

#[test]
fn copy_clipboard_pastes_repeatedly() {
    let mut fs = setup();
    let mut cb = Clipboard::default();
    let mut hist = OpsHistory::new(64);
    cb.set(vec![seg(&["here", "f.txt"])], Mode::Copy);
    let errs = paste_into(&mut fs, &mut cb, &mut hist, &seg(&["there"]));
    assert!(errs.is_empty());
    // the copy clipboard persists: paste again into the same place
    assert!(cb.has_items());
    let errs = paste_into(&mut fs, &mut cb, &mut hist, &seg(&["there"]));
    assert!(errs.is_empty());
    assert_eq!(fs.status(&seg(&["there", "f.txt"])), PathStatus::IsFile);
    assert_eq!(fs.status(&seg(&["there", "f.txt (1)"])), PathStatus::IsFile);
    assert_eq!(fs.status(&seg(&["here", "f.txt"])), PathStatus::IsFile);
    // both pastes were logged: undo twice removes both copies
    assert!(matches!(try_undo(&mut fs, &mut hist), Ok(true)));
    assert!(matches!(try_undo(&mut fs, &mut hist), Ok(true)));
    assert_eq!(fs.status(&seg(&["there", "f.txt"])), PathStatus::Missing);
    assert_eq!(fs.status(&seg(&["there", "f.txt (1)"])), PathStatus::Missing);
    assert!(matches!(try_undo(&mut fs, &mut hist), Ok(false)));
}

#[test]
fn cut_clipboard_clears_after_successful_paste() {
    let mut fs = setup();
    let mut cb = Clipboard::default();
    let mut hist = OpsHistory::new(64);
    cb.set(vec![seg(&["here", "f.txt"])], Mode::Cut);
    let errs = paste_into(&mut fs, &mut cb, &mut hist, &seg(&["there"]));
    assert!(errs.is_empty());
    assert_eq!(fs.status(&seg(&["here", "f.txt"])), PathStatus::Missing);
    assert_eq!(fs.status(&seg(&["there", "f.txt"])), PathStatus::IsFile);
    // the cut clipboard cleared itself
    assert!(!cb.has_items());
}

#[test]
fn failed_paste_keeps_cut_clipboard_and_reports() {
    let mut fs = setup();
    let mut cb = Clipboard::default();
    let mut hist = OpsHistory::new(64);
    cb.set(vec![seg(&["ghost"])], Mode::Cut);
    let errs = paste_into(&mut fs, &mut cb, &mut hist, &seg(&["there"]));
    assert_eq!(errs.len(), 1);
    // nothing succeeded, so the cut clipboard is kept
    assert!(cb.has_items());
    assert!(matches!(try_undo(&mut fs, &mut hist), Ok(false)));
}
