//! Path arithmetic and the derived well-known locations.

use rex::config::{os_root, pinned_path, prefs_path, trash_dir};
use rex::pathname::FsPath;

fn seg(parts: &[&str]) -> FsPath {
    FsPath::from_parts(parts.iter().map(|s| s.to_string()).collect())
}

#[test]
fn join_parent_and_file_name() {
    let p = FsPath::root().join("home").join("user");
    assert_eq!(p.parts().clone(), vec!["home".to_string(), "user".to_string()]);
    assert_eq!(p.depth(), 2);
    assert_eq!(p.file_name().unwrap().as_str(), "user");
    let parent = p.parent().unwrap();
    assert_eq!(parent.parts().clone(), vec!["home".to_string()]);
    assert!(FsPath::root().parent().is_none());
    assert!(FsPath::root().file_name().is_none());
}

#[test]
fn equality_and_ancestry() {
    let a = seg(&["x", "y"]);
    let b = seg(&["x", "y"]);
    let c = seg(&["x", "y", "z"]);
    assert!(a.path_eq(&b));
    assert!(!a.path_eq(&c));
    assert!(a.is_ancestor_of(&c));
    assert!(a.is_ancestor_of(&b));
    assert!(!c.is_ancestor_of(&a));
}

#[test]
fn rebase_moves_a_path_under_a_new_root() {
    let p = seg(&["src", "sub", "f.txt"]);
    let r = p.rebase(&seg(&["src"]), &seg(&["dst", "copy"]));
    assert_eq!(
        r.parts().clone(),
        vec!["dst".to_string(), "copy".to_string(), "sub".to_string(), "f.txt".to_string()]
    );
}

#[test]
fn well_known_locations() {
    assert_eq!(os_root().depth(), 0);
    let data = seg(&["home", ".rex"]);
    assert_eq!(
        pinned_path(&data).parts().clone(),
        vec!["home".to_string(), ".rex".to_string(), "pinned.ini".to_string()]
    );
    assert_eq!(
        prefs_path(&data).parts().clone(),
        vec!["home".to_string(), ".rex".to_string(), "config.ini".to_string()]
    );
    assert_eq!(
        trash_dir(&data).parts().clone(),
        vec!["home".to_string(), ".rex".to_string(), "trash".to_string()]
    );
}
