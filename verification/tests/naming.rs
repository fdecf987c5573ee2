//! The collision-free naming resolver: free names pass through, taken
//! names get strictly increasing numeric suffixes after the whole name.

use rex::fs_ops::{mkdir, touch, unique_in};
use rex::memfs::MemFs;
use rex::pathname::FsPath;

fn seg(parts: &[&str]) -> FsPath {
    FsPath::from_parts(parts.iter().map(|s| s.to_string()).collect())
}

fn parts_of(p: &FsPath) -> Vec<String> {
    p.parts().clone()
}

#[test]
fn free_name_is_kept() {
    let mut fs = MemFs::new();
    let root = FsPath::root();
    mkdir(&mut fs, &root, "dir").unwrap();
    let dst = unique_in(&fs, &seg(&["dir"]), "file.txt");
    assert_eq!(parts_of(&dst), vec!["dir".to_string(), "file.txt".to_string()]);
}

#[test]
fn collision_appends_suffix_after_extension() {
    let mut fs = MemFs::new();
    let root = FsPath::root();
    mkdir(&mut fs, &root, "dir").unwrap();
    touch(&mut fs, &seg(&["dir"]), "file.txt").unwrap();
    let dst = unique_in(&fs, &seg(&["dir"]), "file.txt");
    // the suffix goes after the whole name, extension included
    assert_eq!(parts_of(&dst), vec!["dir".to_string(), "file.txt (1)".to_string()]);
}

#[test]
fn repeated_collisions_count_upwards() {
    let mut fs = MemFs::new();
    let root = FsPath::root();
    mkdir(&mut fs, &root, "dir").unwrap();
    let d = seg(&["dir"]);
    touch(&mut fs, &d, "note").unwrap();
    let dst1 = unique_in(&fs, &d, "note");
    assert_eq!(parts_of(&dst1), vec!["dir".to_string(), "note (1)".to_string()]);
    touch(&mut fs, &d, "note (1)").unwrap();
    let dst2 = unique_in(&fs, &d, "note");
    assert_eq!(parts_of(&dst2), vec!["dir".to_string(), "note (2)".to_string()]);
    touch(&mut fs, &d, "note (2)").unwrap();
    let dst3 = unique_in(&fs, &d, "note");
    assert_eq!(parts_of(&dst3), vec!["dir".to_string(), "note (3)".to_string()]);
}

#[test]
fn gap_in_suffixes_takes_least_free() {
    let mut fs = MemFs::new();
    let root = FsPath::root();
    mkdir(&mut fs, &root, "dir").unwrap();
    let d = seg(&["dir"]);
    touch(&mut fs, &d, "a").unwrap();
    touch(&mut fs, &d, "a (2)").unwrap();
    // index 1 is free, so it is chosen even though index 2 is taken
    let dst = unique_in(&fs, &d, "a");
    assert_eq!(parts_of(&dst), vec!["dir".to_string(), "a (1)".to_string()]);
}

#[test]
fn resolver_works_at_the_root() {
    let mut fs = MemFs::new();
    touch(&mut fs, &FsPath::root(), "top").unwrap();
    let dst = unique_in(&fs, &FsPath::root(), "top");
    assert_eq!(parts_of(&dst), vec!["top (1)".to_string()]);
}

#[test]
fn resolver_counts_past_nine() {
    let mut fs = MemFs::new();
    let root = FsPath::root();
    mkdir(&mut fs, &root, "dir").unwrap();
    let d = seg(&["dir"]);
    touch(&mut fs, &d, "x").unwrap();
    for k in 1..=10 {
        let name = format!("x ({k})");
        touch(&mut fs, &d, &name).unwrap();
    }
    let dst = unique_in(&fs, &d, "x");
    assert_eq!(parts_of(&dst), vec!["dir".to_string(), "x (11)".to_string()]);
}
