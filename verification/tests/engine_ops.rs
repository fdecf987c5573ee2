//! The mutation engine: copy, move, rename, mkdir, touch, soft delete,
//! their error cases, and the exact inversion of each by undo.

use rex::fs_ops::{copy, delete_to_trash, mkdir, mv, rename, touch, undo, write_file, IoError, Op};
use rex::memfs::{MemFs, PathStatus};
use rex::pathname::FsPath;

fn seg(parts: &[&str]) -> FsPath {
    FsPath::from_parts(parts.iter().map(|s| s.to_string()).collect())
}

fn status(fs: &MemFs, parts: &[&str]) -> PathStatus {
    fs.status(&seg(parts))
}

fn bytes(fs: &MemFs, parts: &[&str]) -> Vec<u8> {
    fs.read_file(&seg(parts)).unwrap().clone()
}

/// A small tree: /src (dir), /src/a.txt, /src/sub (dir), /src/sub/b.bin,
/// /dst (dir).
fn setup() -> MemFs {
    let mut fs = MemFs::new();
    let root = FsPath::root();
    mkdir(&mut fs, &root, "src").unwrap();
    mkdir(&mut fs, &seg(&["src"]), "sub").unwrap();
    mkdir(&mut fs, &root, "dst").unwrap();
    write_file(&mut fs, &seg(&["src", "a.txt"]), vec![1, 2, 3]).unwrap();
    write_file(&mut fs, &seg(&["src", "sub", "b.bin"]), vec![9, 8]).unwrap();
    fs
}

#[test]
fn copy_duplicates_tree_and_keeps_source() {
    let mut fs = setup();
    let op = copy(&mut fs, &seg(&["src"]), &seg(&["dst"])).unwrap();
    match &op {
        Op::Copy { to } => assert_eq!(to.parts().clone(), vec!["dst".to_string(), "src".to_string()]),
        _ => panic!("expected a copy record"),
    }
    // destination is structurally identical
    assert_eq!(status(&fs, &["dst", "src"]), PathStatus::IsDir);
    assert_eq!(status(&fs, &["dst", "src", "sub"]), PathStatus::IsDir);
    assert_eq!(bytes(&fs, &["dst", "src", "a.txt"]), vec![1, 2, 3]);
    assert_eq!(bytes(&fs, &["dst", "src", "sub", "b.bin"]), vec![9, 8]);
    // source unchanged
    assert_eq!(bytes(&fs, &["src", "a.txt"]), vec![1, 2, 3]);
    assert_eq!(bytes(&fs, &["src", "sub", "b.bin"]), vec![9, 8]);
    // undo removes the destination and leaves no trace of it
    undo(&mut fs, &op).unwrap();
    assert_eq!(status(&fs, &["dst", "src"]), PathStatus::Missing);
    assert_eq!(status(&fs, &["dst"]), PathStatus::IsDir);
    assert_eq!(bytes(&fs, &["src", "a.txt"]), vec![1, 2, 3]);
}

#[test]
fn copy_into_occupied_name_renumbers() {
    let mut fs = setup();
    mkdir(&mut fs, &seg(&["dst"]), "src").unwrap();
    let op = copy(&mut fs, &seg(&["src"]), &seg(&["dst"])).unwrap();
    match &op {
        Op::Copy { to } => {
            assert_eq!(to.parts().clone(), vec!["dst".to_string(), "src (1)".to_string()])
        },
        _ => panic!("expected a copy record"),
    }
    assert_eq!(bytes(&fs, &["dst", "src (1)", "a.txt"]), vec![1, 2, 3]);
}

#[test]
fn copy_missing_source_fails() {
    let mut fs = setup();
    match copy(&mut fs, &seg(&["ghost"]), &seg(&["dst"])) {
        Err(IoError::NotFound { path }) => assert_eq!(path.parts().clone(), vec!["ghost".to_string()]),
        _ => panic!("expected not-found"),
    }
}

#[test]
fn copy_into_file_fails() {
    let mut fs = setup();
    match copy(&mut fs, &seg(&["src", "sub"]), &seg(&["src", "a.txt"])) {
        Err(IoError::NotADirectory { path }) => {
            assert_eq!(path.parts().clone(), vec!["src".to_string(), "a.txt".to_string()])
        },
        _ => panic!("expected not-a-directory"),
    }
    // nothing changed
    assert_eq!(bytes(&fs, &["src", "a.txt"]), vec![1, 2, 3]);
}

#[test]
fn move_relocates_and_undo_restores() {
    let mut fs = setup();
    let op = mv(&mut fs, &seg(&["src", "sub"]), &seg(&["dst"])).unwrap();
    match &op {
        Op::Move { from, to } => {
            assert_eq!(from.parts().clone(), vec!["src".to_string(), "sub".to_string()]);
            assert_eq!(to.parts().clone(), vec!["dst".to_string(), "sub".to_string()]);
        },
        _ => panic!("expected a move record"),
    }
    assert_eq!(status(&fs, &["src", "sub"]), PathStatus::Missing);
    assert_eq!(bytes(&fs, &["dst", "sub", "b.bin"]), vec![9, 8]);
    undo(&mut fs, &op).unwrap();
    assert_eq!(status(&fs, &["dst", "sub"]), PathStatus::Missing);
    assert_eq!(bytes(&fs, &["src", "sub", "b.bin"]), vec![9, 8]);
}

#[test]
fn move_into_own_subtree_fails() {
    let mut fs = setup();
    match mv(&mut fs, &seg(&["src"]), &seg(&["src", "sub"])) {
        Err(IoError::InvalidTarget { .. }) => {},
        _ => panic!("expected invalid-target"),
    }
    assert_eq!(status(&fs, &["src"]), PathStatus::IsDir);
}

#[test]
fn rename_changes_name_and_undo_restores() {
    let mut fs = setup();
    let op = rename(&mut fs, &seg(&["src", "a.txt"]), "c.txt").unwrap();
    match &op {
        Op::Rename { from, to } => {
            assert_eq!(from.parts().clone(), vec!["src".to_string(), "a.txt".to_string()]);
            assert_eq!(to.parts().clone(), vec!["src".to_string(), "c.txt".to_string()]);
        },
        _ => panic!("expected a rename record"),
    }
    assert_eq!(status(&fs, &["src", "a.txt"]), PathStatus::Missing);
    assert_eq!(bytes(&fs, &["src", "c.txt"]), vec![1, 2, 3]);
    undo(&mut fs, &op).unwrap();
    assert_eq!(status(&fs, &["src", "c.txt"]), PathStatus::Missing);
    assert_eq!(bytes(&fs, &["src", "a.txt"]), vec![1, 2, 3]);
}

#[test]
fn rename_onto_existing_entry_fails() {
    let mut fs = setup();
    match rename(&mut fs, &seg(&["src", "a.txt"]), "sub") {
        Err(IoError::AlreadyExists { path }) => {
            assert_eq!(path.parts().clone(), vec!["src".to_string(), "sub".to_string()])
        },
        _ => panic!("expected already-exists"),
    }
    assert_eq!(bytes(&fs, &["src", "a.txt"]), vec![1, 2, 3]);
}

#[test]
fn mkdir_creates_chain_and_is_idempotent() {
    let mut fs = MemFs::new();
    let op = mkdir(&mut fs, &seg(&["x", "y"]), "z").unwrap();
    match &op {
        Op::MkDir { path } => assert_eq!(
            path.parts().clone(),
            vec!["x".to_string(), "y".to_string(), "z".to_string()]
        ),
        _ => panic!("expected a mkdir record"),
    }
    assert_eq!(status(&fs, &["x"]), PathStatus::IsDir);
    assert_eq!(status(&fs, &["x", "y"]), PathStatus::IsDir);
    assert_eq!(status(&fs, &["x", "y", "z"]), PathStatus::IsDir);
    // creating over an existing directory succeeds and changes nothing
    mkdir(&mut fs, &seg(&["x", "y"]), "z").unwrap();
    assert_eq!(status(&fs, &["x", "y", "z"]), PathStatus::IsDir);
}

#[test]
fn touch_creates_and_keeps_existing_bytes() {
    let mut fs = setup();
    let op = touch(&mut fs, &seg(&["src"]), "new.txt").unwrap();
    match &op {
        Op::Touch { path } => {
            assert_eq!(path.parts().clone(), vec!["src".to_string(), "new.txt".to_string()])
        },
        _ => panic!("expected a touch record"),
    }
    assert_eq!(bytes(&fs, &["src", "new.txt"]), Vec::<u8>::new());
    // touching an existing file does not truncate it
    touch(&mut fs, &seg(&["src"]), "a.txt").unwrap();
    assert_eq!(bytes(&fs, &["src", "a.txt"]), vec![1, 2, 3]);
    // touching a directory fails
    match touch(&mut fs, &seg(&["src"]), "sub") {
        Err(IoError::IsADirectory { .. }) => {},
        _ => panic!("expected is-a-directory"),
    }
    // undo of a touch removes the file
    undo(&mut fs, &op).unwrap();
    assert_eq!(status(&fs, &["src", "new.txt"]), PathStatus::Missing);
}

#[test]
fn delete_to_trash_then_undo_restores_everything() {
    let mut fs = setup();
    mkdir(&mut fs, &FsPath::root(), "trash").unwrap();
    let trash = seg(&["trash"]);
    let op = delete_to_trash(&mut fs, &seg(&["src", "sub"]), &trash).unwrap();
    match &op {
        Op::Delete { trashed, original } => {
            assert_eq!(trashed.parts().clone(), vec!["trash".to_string(), "sub".to_string()]);
            assert_eq!(original.parts().clone(), vec!["src".to_string(), "sub".to_string()]);
        },
        _ => panic!("expected a delete record"),
    }
    // soft delete: bytes survive in the trash
    assert_eq!(status(&fs, &["src", "sub"]), PathStatus::Missing);
    assert_eq!(bytes(&fs, &["trash", "sub", "b.bin"]), vec![9, 8]);
    // undo restores the original location exactly
    undo(&mut fs, &op).unwrap();
    assert_eq!(status(&fs, &["trash", "sub"]), PathStatus::Missing);
    assert_eq!(bytes(&fs, &["src", "sub", "b.bin"]), vec![9, 8]);
    assert_eq!(status(&fs, &["trash"]), PathStatus::IsDir);
}

#[test]
fn delete_creates_missing_trash_directory() {
    let mut fs = setup();
    let trash = seg(&["trash", "files"]);
    delete_to_trash(&mut fs, &seg(&["src", "a.txt"]), &trash).unwrap();
    assert_eq!(bytes(&fs, &["trash", "files", "a.txt"]), vec![1, 2, 3]);
}

#[test]
fn delete_renumbers_in_the_trash() {
    let mut fs = setup();
    mkdir(&mut fs, &FsPath::root(), "trash").unwrap();
    let trash = seg(&["trash"]);
    delete_to_trash(&mut fs, &seg(&["src", "a.txt"]), &trash).unwrap();
    write_file(&mut fs, &seg(&["src", "a.txt"]), vec![7]).unwrap();
    let op = delete_to_trash(&mut fs, &seg(&["src", "a.txt"]), &trash).unwrap();
    match &op {
        Op::Delete { trashed, .. } => {
            assert_eq!(trashed.parts().clone(), vec!["trash".to_string(), "a.txt (1)".to_string()])
        },
        _ => panic!("expected a delete record"),
    }
    assert_eq!(bytes(&fs, &["trash", "a.txt"]), vec![1, 2, 3]);
    assert_eq!(bytes(&fs, &["trash", "a.txt (1)"]), vec![7]);
}

#[test]
fn mkdir_under_a_file_fails() {
    let mut fs = setup();
    match mkdir(&mut fs, &seg(&["src", "a.txt"]), "inner") {
        Err(IoError::NotADirectory { .. }) => {},
        _ => panic!("expected not-a-directory"),
    }
}

#[test]
fn deleting_an_ancestor_of_the_trash_fails() {
    let mut fs = setup();
    mkdir(&mut fs, &seg(&["src"]), "trash").unwrap();
    match delete_to_trash(&mut fs, &seg(&["src"]), &seg(&["src", "trash"])) {
        Err(IoError::InvalidTarget { .. }) => {},
        _ => panic!("expected invalid-target"),
    }
}

#[test]
fn write_file_replaces_bytes() {
    let mut fs = setup();
    write_file(&mut fs, &seg(&["src", "a.txt"]), vec![4, 4]).unwrap();
    assert_eq!(bytes(&fs, &["src", "a.txt"]), vec![4, 4]);
}

#[test]
fn undo_of_missing_copy_target_fails() {
    let mut fs = setup();
    let op = Op::Copy { to: seg(&["dst", "ghost"]) };
    match undo(&mut fs, &op) {
        Err(IoError::NotFound { .. }) => {},
        _ => panic!("expected not-found"),
    }
}

#[test]
fn undo_move_onto_reoccupied_origin_fails() {
    let mut fs = setup();
    let op = mv(&mut fs, &seg(&["src", "a.txt"]), &seg(&["dst"])).unwrap();
    // something reappears at the original spot
    write_file(&mut fs, &seg(&["src", "a.txt"]), vec![5]).unwrap();
    match undo(&mut fs, &op) {
        Err(IoError::AlreadyExists { .. }) => {},
        _ => panic!("expected already-exists"),
    }
    // the failed inverse left both files in place
    assert_eq!(bytes(&fs, &["src", "a.txt"]), vec![5]);
    assert_eq!(bytes(&fs, &["dst", "a.txt"]), vec![1, 2, 3]);
}
