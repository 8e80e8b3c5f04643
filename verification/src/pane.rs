//! The two-pane coordinator: two explorer engines and the flag saying
//! which one the keyboard drives.

use vstd::prelude::*;

use crate::engine::ExplorerState;
use crate::index::{contains_path, entry_at};
use crate::moves::moved_under;
use crate::path::{is_prefix_of, is_strict_prefix_of};
use crate::entry::Entry;
use crate::path::EntryPath;

verus! {

/// Which pane is active.
#[derive(Debug, Clone, Copy, PartialEq, Eq, Structural)]
pub enum Selection {
    Left,
    Right,
}

/// The whole application state: two independent engines and the active
/// flag.  The engines never share state; the only cross-engine operation
/// is the explicit marked-entry move.
#[derive(Debug)]
pub struct DiodeState {
    pub left_state: ExplorerState,
    pub right_state: ExplorerState,
    pub selected: Selection,
}

impl DiodeState {
    pub open spec fn inv(&self) -> bool {
        self.left_state.inv() && self.right_state.inv()
    }

    /// Both panes start out; the left one is active.
    pub fn new(left_state: ExplorerState, right_state: ExplorerState) -> (r: DiodeState)
        requires
            left_state.inv(),
            right_state.inv(),
        ensures
            r.inv(),
            r.left_state == left_state,
            r.right_state == right_state,
            r.selected == Selection::Left,
    {
        DiodeState { left_state, right_state, selected: Selection::Left }
    }

    /// Flip which pane is active.
    pub fn switch_selection(&mut self)
        requires
            old(self).inv(),
        ensures
            final(self).inv(),
            final(self).left_state == old(self).left_state,
            final(self).right_state == old(self).right_state,
            final(self).selected == (match old(self).selected {
                Selection::Left => Selection::Right,
                Selection::Right => Selection::Left,
            }),
    {
        self.selected = match self.selected {
            Selection::Left => Selection::Right,
            Selection::Right => Selection::Left,
        };
    }

    /// The active engine and the other one, for forwarding single-pane
    /// commands.
    pub fn get_states_mut(&mut self) -> (r: (&mut ExplorerState, &mut ExplorerState))
        ensures
            final(self).selected == old(self).selected,
            old(self).selected is Left ==> *r.0 == old(self).left_state && *r.1 == old(
                self,
            ).right_state && final(self).left_state == *final(r.0) && final(self).right_state
                == *final(r.1),
            old(self).selected is Right ==> *r.0 == old(self).right_state && *r.1 == old(
                self,
            ).left_state && final(self).right_state == *final(r.0) && final(self).left_state
                == *final(r.1),
    {
        match self.selected {
            Selection::Left => (&mut self.left_state, &mut self.right_state),
            Selection::Right => (&mut self.right_state, &mut self.left_state),
        }
    }

    /// What one cross-pane move would rename: the active pane's plan and
    /// the destination directory, the other pane's root.  The host renames
    /// the planned paths in order, stopping at the first failure, and
    /// reports the count to [`DiodeState::move_marked_to_other_pane`].
    pub fn move_marked_plan(&self) -> (r: (Vec<EntryPath>, EntryPath))
        requires
            self.inv(),
        ensures
            ({
                let active = if self.selected is Left {
                    self.left_state
                } else {
                    self.right_state
                };
                let other = if self.selected is Left {
                    self.right_state
                } else {
                    self.left_state
                };
                &&& r.1@ == other@.root.path
                &&& forall|k: int| 0 <= k < r.0.deep_view().len() ==> crate::moves::top_marked(
                    active@.index,
                    #[trigger] r.0.deep_view()[k],
                )
                &&& forall|q: Seq<Seq<char>>| #[trigger] crate::moves::top_marked(
                    active@.index,
                    q,
                ) ==> (exists|k: int| 0 <= k < r.0.deep_view().len() && r.0.deep_view()[k] == q)
                &&& forall|k1: int, k2: int| 0 <= k1 < k2 < r.0.deep_view().len() ==>
                    crate::path::path_lt(
                    #[trigger] r.0.deep_view()[k1],
                    #[trigger] r.0.deep_view()[k2],
                )
            }),
    {
        match self.selected {
            Selection::Left => (self.left_state.move_plan(), self.right_state.root.path.duplicate()),
            Selection::Right => (self.right_state.move_plan(), self.left_state.root.path.duplicate()),
        }
    }

    /// Register the host's renames: the first `done` planned subtrees
    /// leave the active pane's index and cache, and for each one the moved
    /// entry itself — re-addressed under the other pane's root, unmarked —
    /// enters the other pane's index and cache, replacing anything that
    /// held its new path.  A cursor whose entry was moved away is dropped.
    /// The re-addressed entries are returned in plan order.
    pub fn move_marked_to_other_pane(
        &mut self,
        plan: &Vec<EntryPath>,
        done: usize,
    ) -> (moved: Vec<Entry>)
        requires
            old(self).inv(),
            done <= plan.deep_view().len(),
            ({
                let active = if old(self).selected is Left {
                    old(self).left_state
                } else {
                    old(self).right_state
                };
                forall|k: int| 0 <= k < done ==> crate::moves::top_marked(
                    active@.index,
                    #[trigger] plan.deep_view()[k],
                )
            }),
            forall|k1: int, k2: int| 0 <= k1 < k2 < done ==> crate::path::path_lt(
                #[trigger] plan.deep_view()[k1],
                #[trigger] plan.deep_view()[k2],
            ),
        ensures
            final(self).inv(),
            final(self).selected == old(self).selected,
            ({
                let a0 = if old(self).selected is Left {
                    old(self).left_state@
                } else {
                    old(self).right_state@
                };
                let b0 = if old(self).selected is Left {
                    old(self).right_state@
                } else {
                    old(self).left_state@
                };
                let a1 = if old(self).selected is Left {
                    final(self).left_state@
                } else {
                    final(self).right_state@
                };
                let b1 = if old(self).selected is Left {
                    final(self).right_state@
                } else {
                    final(self).left_state@
                };
                &&& a1.root == a0.root
                &&& b1.root == b0.root
                // The active pane: the moved subtrees are gone from index
                // and cache, everything else keeps its entry.
                &&& forall|q: Seq<Seq<char>>| #[trigger] contains_path(a1.index, q) <==> (
                contains_path(a0.index, q) && !moved_under(plan.deep_view(), done as int, q))
                &&& forall|q: Seq<Seq<char>>| contains_path(a1.index, q) ==> (
                #[trigger] entry_at(a1.index, q)) == entry_at(a0.index, q)
                &&& forall|q: Seq<Seq<char>>| #[trigger] contains_path(a1.cache, q) <==> (
                contains_path(a0.cache, q) && !moved_under(plan.deep_view(), done as int, q))
                &&& a1.selected == (match a0.selected {
                    Option::Some(p) => if moved_under(plan.deep_view(), done as int, p) {
                        None
                    } else {
                        Some(p)
                    },
                    Option::None => None::<Seq<Seq<char>>>,
                })
                // The other pane: each moved entry is present at its new
                // path, unmarked; what held that path before is gone.
                &&& forall|q: Seq<Seq<char>>| #[trigger] contains_path(b1.index, q) <==> ((
                contains_path(b0.index, q) || (exists|k: int| 0 <= k < done && q
                    == b0.root.path.push((#[trigger] plan.deep_view()[k]).last()))) && !(exists|
                    k: int,
                |
                    0 <= k < done && is_strict_prefix_of(
                        b0.root.path.push((#[trigger] plan.deep_view()[k]).last()),
                        q,
                    )))
                &&& forall|q: Seq<Seq<char>>| contains_path(b0.index, q) && !(exists|k: int|
                    0 <= k < done && is_prefix_of(
                        b0.root.path.push((#[trigger] plan.deep_view()[k]).last()),
                        q,
                    )) ==> (#[trigger] entry_at(b1.index, q)) == entry_at(b0.index, q)
                &&& forall|k: int| 0 <= k < done ==> contains_path(
                    b1.index,
                    b0.root.path.push((#[trigger] plan.deep_view()[k]).last()),
                ) && !entry_at(
                    b1.index,
                    b0.root.path.push(plan.deep_view()[k].last()),
                ).marked
                &&& forall|q: Seq<Seq<char>>| #[trigger] contains_path(b1.cache, q) <==> ((
                contains_path(b0.cache, q) || (exists|k: int| 0 <= k < done && q
                    == b0.root.path.push((#[trigger] plan.deep_view()[k]).last()))) && !(exists|
                    k: int,
                |
                    0 <= k < done && is_strict_prefix_of(
                        b0.root.path.push((#[trigger] plan.deep_view()[k]).last()),
                        q,
                    )))
                &&& b1.selected == (match b0.selected {
                    Option::Some(sp) => if exists|k: int|
                        0 <= k < done && is_strict_prefix_of(
                            b0.root.path.push((#[trigger] plan.deep_view()[k]).last()),
                            sp,
                        ) {
                        None
                    } else {
                        Some(sp)
                    },
                    Option::None => None::<Seq<Seq<char>>>,
                })
                // The returned list: the moved entries, re-addressed and
                // cleared, in plan order.
                &&& moved.deep_view().len() == done
                &&& forall|k: int| 0 <= k < done ==> (#[trigger] moved.deep_view()[k])
                    == entry_at(a0.index, plan.deep_view()[k]).with_path(
                    b0.root.path.push(plan.deep_view()[k].last()),
                ).with_marked(false).with_selected(false)
            }),
    {
        match self.selected {
            Selection::Left => {
                let dest = self.right_state.root.path.duplicate();
                self.left_state.apply_moves(plan, done, &dest, &mut self.right_state)
            },
            Selection::Right => {
                let dest = self.left_state.root.path.duplicate();
                self.right_state.apply_moves(plan, done, &dest, &mut self.left_state)
            },
        }
    }
}

} // verus!
