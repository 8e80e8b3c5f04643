//! Behaviour of one explorer engine: loading, navigation, expanding and
//! collapsing, marking, and re-rooting.

use diode::entry::{Entry, EntryKind, FsMeta, FsNodeKind, FsRecord};
use diode::errors::EngineError;
use diode::engine::ExplorerState;
use diode::path::EntryPath;

fn path_of(parts: &[&str]) -> EntryPath {
    EntryPath::from_parts(parts.iter().map(|s| s.to_string()).collect())
}

fn dir_entry(parts: &[&str]) -> Entry {
    Entry::new_dir(path_of(parts), FsMeta::zero())
}

fn file_rec(name: &str) -> FsRecord {
    FsRecord { name: name.to_string(), kind: FsNodeKind::File, size: 0, modified: 0, mode: 0 }
}

fn dir_rec(name: &str) -> FsRecord {
    FsRecord { name: name.to_string(), kind: FsNodeKind::Directory, size: 0, modified: 0, mode: 0 }
}

fn parts_of(e: &Entry) -> Vec<String> {
    e.path.parts.clone()
}

fn strs(parts: &[&str]) -> Vec<String> {
    parts.iter().map(|s| s.to_string()).collect()
}

/// Root `/tmp/x` with children `a/` and `b.txt`.
fn engine_tmp_x() -> ExplorerState {
    ExplorerState::new(dir_entry(&["tmp", "x"]), vec![dir_rec("a"), file_rec("b.txt")])
}

#[test]
fn initialize_lists_children_in_order() {
    let e = engine_tmp_x();
    let v = e.visible_entries();
    assert_eq!(v.len(), 2);
    assert_eq!(parts_of(&v[0]), strs(&["tmp", "x", "a"]));
    assert_eq!(parts_of(&v[1]), strs(&["tmp", "x", "b.txt"]));
    assert!(e.selected_path().is_none());
}

#[test]
fn listing_is_sorted_and_sanitized() {
    let e = ExplorerState::new(
        dir_entry(&["r"]),
        vec![
            file_rec("zeta"),
            file_rec(""),
            file_rec("alpha"),
            dir_rec("alpha"),
            file_rec("beta"),
        ],
    );
    let v = e.visible_entries();
    // The empty name is skipped and the duplicate "alpha" keeps its first
    // record, a file.
    assert_eq!(v.len(), 3);
    assert_eq!(parts_of(&v[0]), strs(&["r", "alpha"]));
    assert!(matches!(v[0].kind, EntryKind::File));
    assert_eq!(parts_of(&v[1]), strs(&["r", "beta"]));
    assert_eq!(parts_of(&v[2]), strs(&["r", "zeta"]));
}

#[test]
fn move_down_and_up_stay_within_bounds() {
    let mut e = engine_tmp_x();
    // move_up with no cursor is a no-op
    e.move_up();
    assert!(e.selected_path().is_none());
    // move_down selects the first visible entry
    e.move_down();
    assert_eq!(e.selected_path().unwrap().parts, strs(&["tmp", "x", "a"]));
    e.move_down();
    assert_eq!(e.selected_path().unwrap().parts, strs(&["tmp", "x", "b.txt"]));
    // at the last entry move_down is a no-op
    e.move_down();
    assert_eq!(e.selected_path().unwrap().parts, strs(&["tmp", "x", "b.txt"]));
    e.move_up();
    assert_eq!(e.selected_path().unwrap().parts, strs(&["tmp", "x", "a"]));
    // at the first entry move_up is a no-op
    e.move_up();
    assert_eq!(e.selected_path().unwrap().parts, strs(&["tmp", "x", "a"]));
}

#[test]
fn toggle_expand_errors() {
    let mut e = engine_tmp_x();
    assert_eq!(e.toggle_expand(&vec![]), Err(EngineError::NoSelection));
    e.move_down();
    e.move_down();
    // b.txt is a file
    assert_eq!(e.toggle_expand(&vec![]), Err(EngineError::SelectedNotADirectory));
}

#[test]
fn expand_then_collapse_restores_key_set() {
    let mut e = engine_tmp_x();
    e.move_down();
    // expand `a`, loading `a/c.txt`
    assert_eq!(e.toggle_expand(&vec![file_rec("c.txt")]), Ok(()));
    let v = e.visible_entries();
    assert_eq!(v.len(), 3);
    assert_eq!(parts_of(&v[0]), strs(&["tmp", "x", "a"]));
    assert!(matches!(v[0].kind, EntryKind::Directory { expanded: true }));
    assert_eq!(parts_of(&v[1]), strs(&["tmp", "x", "a", "c.txt"]));
    assert_eq!(parts_of(&v[2]), strs(&["tmp", "x", "b.txt"]));
    // collapse `a` again
    assert_eq!(e.toggle_expand(&vec![]), Ok(()));
    let v = e.visible_entries();
    assert_eq!(v.len(), 2);
    assert_eq!(parts_of(&v[0]), strs(&["tmp", "x", "a"]));
    assert!(matches!(v[0].kind, EntryKind::Directory { expanded: false }));
    assert_eq!(parts_of(&v[1]), strs(&["tmp", "x", "b.txt"]));
    // c.txt now lives only in the cache
    assert!(e.entry(&path_of(&["tmp", "x", "a", "c.txt"])).is_none());
    let cached = e.cache.lookup(&path_of(&["tmp", "x", "a", "c.txt"]));
    assert!(cached.is_some());
}

#[test]
fn expand_restores_cached_flags() {
    let mut e = engine_tmp_x();
    e.move_down();
    e.toggle_expand(&vec![file_rec("c.txt")]).unwrap();
    // mark a/c.txt
    e.move_down();
    e.toggle_marked();
    assert!(e.entry(&path_of(&["tmp", "x", "a", "c.txt"])).unwrap().marked);
    // collapse and re-expand `a`
    e.move_up();
    e.toggle_expand(&vec![]).unwrap();
    e.toggle_expand(&vec![file_rec("c.txt")]).unwrap();
    // the mark survived the round trip through the cache
    assert!(e.entry(&path_of(&["tmp", "x", "a", "c.txt"])).unwrap().marked);
}

#[test]
fn toggle_marked_marks_loaded_descendants() {
    let mut e = engine_tmp_x();
    e.move_down();
    e.toggle_expand(&vec![file_rec("c.txt")]).unwrap();
    // mark the directory `a`: its loaded child is marked too
    e.toggle_marked();
    assert!(e.entry(&path_of(&["tmp", "x", "a"])).unwrap().marked);
    assert!(e.entry(&path_of(&["tmp", "x", "a", "c.txt"])).unwrap().marked);
    assert!(!e.entry(&path_of(&["tmp", "x", "b.txt"])).unwrap().marked);
    // clear_marked clears every live entry
    e.clear_marked();
    assert!(!e.entry(&path_of(&["tmp", "x", "a"])).unwrap().marked);
    assert!(!e.entry(&path_of(&["tmp", "x", "a", "c.txt"])).unwrap().marked);
}

#[test]
fn set_dir_as_root_descends() {
    let mut e = engine_tmp_x();
    e.move_down();
    e.toggle_expand(&vec![file_rec("c.txt")]).unwrap();
    // descend into `a`
    e.set_dir_as_root(&vec![file_rec("c.txt")]);
    assert_eq!(e.root.path.parts, strs(&["tmp", "x", "a"]));
    let v = e.visible_entries();
    assert_eq!(v.len(), 1);
    assert_eq!(parts_of(&v[0]), strs(&["tmp", "x", "a", "c.txt"]));
    // the first visible entry is selected
    assert_eq!(e.selected_path().unwrap().parts, strs(&["tmp", "x", "a", "c.txt"]));
}

#[test]
fn set_dir_as_root_on_file_is_noop() {
    let mut e = engine_tmp_x();
    e.move_down();
    e.move_down();
    e.set_dir_as_root(&vec![]);
    assert_eq!(e.root.path.parts, strs(&["tmp", "x"]));
    assert_eq!(e.selected_path().unwrap().parts, strs(&["tmp", "x", "b.txt"]));
}

#[test]
fn set_parent_as_root_keeps_old_subtree_visible() {
    // at root `/tmp/x/a` with child `c.txt`
    let mut e = ExplorerState::new(dir_entry(&["tmp", "x", "a"]), vec![file_rec("c.txt")]);
    let r = e.set_parent_as_root(&vec![dir_rec("a"), file_rec("b.txt")]);
    assert_eq!(r, Ok(()));
    assert_eq!(e.root.path.parts, strs(&["tmp", "x"]));
    // the old root shows expanded and its children stay visible
    let a = e.entry(&path_of(&["tmp", "x", "a"])).unwrap();
    assert!(matches!(a.kind, EntryKind::Directory { expanded: true }));
    let v = e.visible_entries();
    assert_eq!(v.len(), 3);
    assert_eq!(parts_of(&v[0]), strs(&["tmp", "x", "a"]));
    assert_eq!(parts_of(&v[1]), strs(&["tmp", "x", "a", "c.txt"]));
    assert_eq!(parts_of(&v[2]), strs(&["tmp", "x", "b.txt"]));
    // the old root stays in view under the cursor
    assert_eq!(e.selected_path().unwrap().parts, strs(&["tmp", "x", "a"]));
}

#[test]
fn set_parent_as_root_fails_at_filesystem_root() {
    let mut e = ExplorerState::new(dir_entry(&[]), vec![dir_rec("tmp")]);
    assert_eq!(e.set_parent_as_root(&vec![]), Err(EngineError::RootHasNoParent));
    assert_eq!(e.root.path.parts, strs(&[]));
}

#[test]
fn descend_and_climb_restores_flags() {
    let mut e = engine_tmp_x();
    e.move_down();
    e.toggle_expand(&vec![file_rec("c.txt")]).unwrap();
    // mark b.txt so there is state outside the subtree of `a`
    e.move_down();
    e.move_down();
    e.toggle_marked();
    // descend into `a`, then climb back up
    e.move_up();
    e.move_up();
    e.set_dir_as_root(&vec![file_rec("c.txt")]);
    assert_eq!(e.root.path.parts, strs(&["tmp", "x", "a"]));
    let r = e.set_parent_as_root(&vec![dir_rec("a"), file_rec("b.txt")]);
    assert_eq!(r, Ok(()));
    assert_eq!(e.root.path.parts, strs(&["tmp", "x"]));
    // prior state returns without another read of `a` or of `b.txt`
    let a = e.entry(&path_of(&["tmp", "x", "a"])).unwrap();
    assert!(matches!(a.kind, EntryKind::Directory { expanded: true }));
    assert!(e.entry(&path_of(&["tmp", "x", "a", "c.txt"])).is_some());
    let b = e.entry(&path_of(&["tmp", "x", "b.txt"])).unwrap();
    assert!(b.marked);
}

#[test]
fn navigation_keeps_selected_flag_in_sync() {
    let mut e = engine_tmp_x();
    e.move_down();
    let v = e.visible_entries();
    assert!(v[0].selected);
    assert!(!v[1].selected);
    e.move_down();
    let v = e.visible_entries();
    assert!(!v[0].selected);
    assert!(v[1].selected);
}
