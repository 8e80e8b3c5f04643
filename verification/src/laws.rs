//! Global properties of the engine, stated and proved once over the
//! contracts of the operations.

use vstd::prelude::*;

use crate::engine::{EngineView, chain_ok, inv_view, visible_in};
use crate::entry::FsRecordView;
use crate::index::{contains_path, entry_at, idx_of, lemma_entry_at};
use crate::moves::moved_under;
use crate::path::{is_prefix_of, is_strict_prefix_of};
use crate::restore::{is_fresh_child, deep_restored};

verus! {

/// Every path of the live index lies strictly below the root: it starts
/// with the root's path and differs from it.
pub proof fn lemma_index_below_root(v: EngineView)
    requires
        inv_view(v),
    ensures
        forall|i: int| 0 <= i < v.index.len() ==> is_prefix_of(
            v.root.path,
            (#[trigger] v.index[i]).path,
        ) && v.index[i].path != v.root.path,
{
    assert forall|i: int| 0 <= i < v.index.len() implies is_prefix_of(
        v.root.path,
        (#[trigger] v.index[i]).path,
    ) && v.index[i].path != v.root.path by {
        assert(is_strict_prefix_of(v.root.path, v.index[i].path));
    }
}

/// Every directory strictly between the root and a held entry is itself
/// held, expanded; in particular every held entry is visible.
pub proof fn lemma_held_entries_visible(v: EngineView)
    requires
        inv_view(v),
    ensures
        forall|i: int| 0 <= i < v.index.len() ==> chain_ok(
            v.index,
            v.root.path.len() as int,
            (#[trigger] v.index[i]).path,
        ),
        forall|i: int| 0 <= i < v.index.len() ==> visible_in(
            v.index,
            v.root.path.len() as int,
            (#[trigger] v.index[i]).path,
        ),
{
    assert forall|i: int| 0 <= i < v.index.len() implies visible_in(
        v.index,
        v.root.path.len() as int,
        (#[trigger] v.index[i]).path,
    ) by {
        assert(chain_ok(v.index, v.root.path.len() as int, v.index[i].path));
    }
}

/// Expanding a collapsed directory and collapsing it again restores the
/// key set of the live index exactly: every other entry is unchanged, the
/// toggled directory is collapsed again, and everything the expansion had
/// shown lies in the cache with the state it had on screen.
///
/// The three views are one engine's image before the expansion, after
/// it, and after the collapse; the hypotheses are the engine invariant
/// and the contracts of the two `toggle_expand` calls.
pub proof fn lemma_expand_collapse_round_trip(
    v0: EngineView,
    v1: EngineView,
    v2: EngineView,
    p: Seq<Seq<char>>,
    rs: Seq<FsRecordView>,
)
    requires
        inv_view(v0),
        contains_path(v0.index, p),
        entry_at(v0.index, p).kind.is_dir(),
        !entry_at(v0.index, p).kind.is_expanded_dir(),
        // The expansion step.
        forall|q: Seq<Seq<char>>| #[trigger] contains_path(v1.index, q) <==> (contains_path(
            v0.index,
            q,
        ) || is_fresh_child(rs, p, q) || deep_restored(v0.cache, rs, p, q)),
        forall|q: Seq<Seq<char>>| contains_path(v0.index, q) && q != p ==> (#[trigger] entry_at(
            v1.index,
            q,
        )) == entry_at(v0.index, q),
        entry_at(v1.index, p) == entry_at(v0.index, p).with_expanded(true),
        // The collapse step.
        forall|q: Seq<Seq<char>>| #[trigger] contains_path(v2.index, q) <==> (contains_path(
            v1.index,
            q,
        ) && !is_strict_prefix_of(p, q)),
        entry_at(v2.index, p) == entry_at(v1.index, p).with_expanded(false),
        forall|q: Seq<Seq<char>>| contains_path(v2.index, q) && q != p ==> (#[trigger] entry_at(
            v2.index,
            q,
        )) == entry_at(v1.index, q),
        forall|q: Seq<Seq<char>>| contains_path(v1.index, q) && is_strict_prefix_of(p, q) ==> (
        #[trigger] entry_at(v2.cache, q)) == entry_at(v1.index, q),
    ensures
        forall|q: Seq<Seq<char>>| #[trigger] contains_path(v2.index, q) <==> contains_path(
            v0.index,
            q,
        ),
        forall|q: Seq<Seq<char>>| contains_path(v0.index, q) && q != p ==> (#[trigger] entry_at(
            v2.index,
            q,
        )) == entry_at(v0.index, q),
        entry_at(v2.index, p) == entry_at(v0.index, p),
        forall|q: Seq<Seq<char>>| contains_path(v1.index, q) && is_strict_prefix_of(p, q) ==> (
        #[trigger] entry_at(v2.cache, q)) == entry_at(v1.index, q),
{
    // A collapsed directory holds no loaded strict descendants.
    assert forall|q: Seq<Seq<char>>| contains_path(v0.index, q) implies !is_strict_prefix_of(
        p,
        q,
    ) by {
        if is_strict_prefix_of(p, q) {
            let i = idx_of(v0.index, q);
            lemma_entry_at(v0.index, i);
            assert(chain_ok(v0.index, v0.root.path.len() as int, q));
            let ip = idx_of(v0.index, p);
            lemma_entry_at(v0.index, ip);
            assert(v0.root.path.len() < p.len() < q.len()) by {
                assert(is_strict_prefix_of(v0.root.path, p));
            }
            assert(q.subrange(0, p.len() as int) == p) by {
                assert(q.subrange(0, p.len() as int) =~= p);
            }
            assert(entry_at(v0.index, p).kind.is_expanded_dir());
        }
    }
    assert forall|q: Seq<Seq<char>>| #[trigger] contains_path(v2.index, q) implies
        contains_path(v0.index, q) by {
        assert(contains_path(v1.index, q) && !is_strict_prefix_of(p, q));
        if is_fresh_child(rs, p, q) {
            assert(is_strict_prefix_of(p, q));
        }
        if deep_restored(v0.cache, rs, p, q) {
            assert(is_strict_prefix_of(p, q));
        }
    }
    assert forall|q: Seq<Seq<char>>| contains_path(v0.index, q) implies #[trigger] contains_path(
        v2.index,
        q,
    ) by {
        assert(contains_path(v1.index, q));
        assert(!is_strict_prefix_of(p, q));
    }
    assert(entry_at(v2.index, p) == entry_at(v0.index, p)) by {
        let e = entry_at(v0.index, p);
        assert(entry_at(v2.index, p) == e.with_expanded(true).with_expanded(false));
        match e.kind {
            crate::entry::EntryKindView::Directory { expanded } => {
                assert(!expanded);
            },
            _ => {},
        }
    }
}

/// After a move registered as complete for the first `done` planned paths,
/// none of those paths remains in the source index.
pub proof fn lemma_moved_paths_gone(
    s2: Seq<crate::entry::EntryView>,
    s0: Seq<crate::entry::EntryView>,
    planv: Seq<Seq<Seq<char>>>,
    done: int,
    k: int,
)
    requires
        forall|q: Seq<Seq<char>>| #[trigger] contains_path(s2, q) <==> (contains_path(s0, q)
            && !moved_under(planv, done, q)),
        0 <= k < done,
    ensures
        !contains_path(s2, planv[k]),
{
    assert(is_prefix_of(planv[k], planv[k]));
    assert(moved_under(planv, done, planv[k]));
}

} // verus!
