//! The bounded undo log (oldest evicted, newest undone first) and the
//! navigation history.

use rex::fs_ops::Op;
use rex::history::{NavHistory, OpsHistory};
use rex::pathname::FsPath;

fn seg(parts: &[&str]) -> FsPath {
    FsPath::from_parts(parts.iter().map(|s| s.to_string()).collect())
}

fn touch_op(name: &str) -> Op {
    Op::Touch { path: seg(&[name]) }
}

fn op_name(op: &Op) -> String {
    match op {
        Op::Touch { path } => path.parts()[0].clone(),
        _ => panic!("only touch records are used here"),
    }
}

#[test]
fn log_evicts_oldest_and_pops_newest_first() {
    let mut h = OpsHistory::new(3);
    h.push(touch_op("one"));
    h.push(touch_op("two"));
    h.push(touch_op("three"));
    // pushing a fourth record into a full log of three evicts "one"
    h.push(touch_op("four"));
    assert_eq!(op_name(&h.pop_undo().unwrap()), "four");
    assert_eq!(op_name(&h.pop_undo().unwrap()), "three");
    assert_eq!(op_name(&h.pop_undo().unwrap()), "two");
    // "one" is no longer retrievable
    assert!(h.pop_undo().is_none());
}

#[test]
fn log_pop_is_one_shot() {
    let mut h = OpsHistory::new(8);
    h.push(touch_op("only"));
    assert_eq!(op_name(&h.pop_undo().unwrap()), "only");
    assert!(h.pop_undo().is_none());
}

#[test]
fn nav_back_and_forward() {
    let mut nav = NavHistory::default();
    let mut cur = seg(&["a"]);
    assert!(!nav.can_back() && !nav.can_forward());
    // visit /b, then /c
    nav.push(cur.clone());
    cur = seg(&["b"]);
    nav.push(cur.clone());
    cur = seg(&["c"]);
    assert!(nav.can_back());
    // back to /b, then /a
    assert!(nav.back(&mut cur));
    assert_eq!(cur.parts().clone(), vec!["b".to_string()]);
    assert!(nav.back(&mut cur));
    assert_eq!(cur.parts().clone(), vec!["a".to_string()]);
    assert!(!nav.back(&mut cur));
    // forward again to /b
    assert!(nav.can_forward());
    assert!(nav.forward(&mut cur));
    assert_eq!(cur.parts().clone(), vec!["b".to_string()]);
    // a new visit clears the forward stack
    nav.push(cur.clone());
    cur = seg(&["d"]);
    assert!(!nav.can_forward());
}
