//! Behaviour of the two-pane coordinator, in particular the cross-pane
//! move of marked entries.

use diode::entry::{Entry, FsMeta, FsNodeKind, FsRecord};
use diode::engine::ExplorerState;
use diode::pane::{DiodeState, Selection};
use diode::path::EntryPath;

fn path_of(parts: &[&str]) -> EntryPath {
    EntryPath::from_parts(parts.iter().map(|s| s.to_string()).collect())
}

fn dir_entry(parts: &[&str]) -> Entry {
    Entry::new_dir(path_of(parts), FsMeta::zero())
}

fn file_rec(name: &str) -> FsRecord {
    FsRecord { name: name.to_string(), kind: FsNodeKind::File, size: 0, modified: 0, mode: 0 }
}

fn dir_rec(name: &str) -> FsRecord {
    FsRecord { name: name.to_string(), kind: FsNodeKind::Directory, size: 0, modified: 0, mode: 0 }
}

fn strs(parts: &[&str]) -> Vec<String> {
    parts.iter().map(|s| s.to_string()).collect()
}

fn two_panes() -> DiodeState {
    let left = ExplorerState::new(
        dir_entry(&["tmp", "x"]),
        vec![dir_rec("a"), file_rec("b.txt")],
    );
    let right = ExplorerState::new(dir_entry(&["tmp", "y"]), vec![file_rec("old.txt")]);
    DiodeState::new(left, right)
}

#[test]
fn switch_selection_flips_the_active_pane() {
    let mut d = two_panes();
    assert_eq!(d.selected, Selection::Left);
    d.switch_selection();
    assert_eq!(d.selected, Selection::Right);
    d.switch_selection();
    assert_eq!(d.selected, Selection::Left);
}

#[test]
fn get_states_mut_follows_the_active_flag() {
    let mut d = two_panes();
    {
        let (active, other) = d.get_states_mut();
        assert_eq!(active.root.path.parts, strs(&["tmp", "x"]));
        assert_eq!(other.root.path.parts, strs(&["tmp", "y"]));
    }
    d.switch_selection();
    let (active, other) = d.get_states_mut();
    assert_eq!(active.root.path.parts, strs(&["tmp", "y"]));
    assert_eq!(other.root.path.parts, strs(&["tmp", "x"]));
}

#[test]
fn move_marked_file_to_other_pane() {
    let mut d = two_panes();
    // mark b.txt in the left pane
    {
        let (active, _) = d.get_states_mut();
        active.move_down();
        active.move_down();
        active.toggle_marked();
    }
    let (plan, dest) = d.move_marked_plan();
    assert_eq!(plan.len(), 1);
    assert_eq!(plan[0].parts, strs(&["tmp", "x", "b.txt"]));
    assert_eq!(dest.parts, strs(&["tmp", "y"]));
    // the host renames /tmp/x/b.txt into /tmp/y, then reports one success
    let moved = d.move_marked_to_other_pane(&plan, 1);
    assert_eq!(moved.len(), 1);
    assert_eq!(moved[0].path.parts, strs(&["tmp", "y", "b.txt"]));
    // gone from pane A's index
    assert!(d.left_state.entry(&path_of(&["tmp", "x", "b.txt"])).is_none());
    // present in pane B's index, unmarked
    let got = d.right_state.entry(&path_of(&["tmp", "y", "b.txt"])).unwrap();
    assert!(!got.marked);
}

#[test]
fn move_skips_descendants_of_a_marked_directory() {
    let mut d = two_panes();
    {
        let (active, _) = d.get_states_mut();
        active.move_down();
        active.toggle_expand(&vec![file_rec("c.txt")]).unwrap();
        // marking `a` also marks a/c.txt; only `a` itself is planned
        active.toggle_marked();
    }
    let (plan, _) = d.move_marked_plan();
    assert_eq!(plan.len(), 1);
    assert_eq!(plan[0].parts, strs(&["tmp", "x", "a"]));
    let moved = d.move_marked_to_other_pane(&plan, 1);
    assert_eq!(moved.len(), 1);
    assert_eq!(moved[0].path.parts, strs(&["tmp", "y", "a"]));
    // the whole subtree left pane A
    assert!(d.left_state.entry(&path_of(&["tmp", "x", "a"])).is_none());
    assert!(d.left_state.entry(&path_of(&["tmp", "x", "a", "c.txt"])).is_none());
    assert!(d.left_state.entry(&path_of(&["tmp", "x", "b.txt"])).is_some());
}

#[test]
fn partial_move_applies_only_the_renamed_prefix() {
    let mut d = two_panes();
    {
        let (active, _) = d.get_states_mut();
        // mark both children
        active.move_down();
        active.toggle_marked();
        active.move_down();
        active.toggle_marked();
    }
    let (plan, _) = d.move_marked_plan();
    assert_eq!(plan.len(), 2);
    // the host managed only the first rename before failing
    let moved = d.move_marked_to_other_pane(&plan, 1);
    assert_eq!(moved.len(), 1);
    assert!(d.left_state.entry(&path_of(&["tmp", "x", "a"])).is_none());
    // the second marked entry stays, still marked
    let b = d.left_state.entry(&path_of(&["tmp", "x", "b.txt"])).unwrap();
    assert!(b.marked);
    assert!(d.right_state.entry(&path_of(&["tmp", "y", "b.txt"])).is_none());
}
