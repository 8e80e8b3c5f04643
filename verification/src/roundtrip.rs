//! Descending into a child directory and climbing back up restores the
//! original view.

use vstd::prelude::*;

use crate::engine::{EngineView, chain_ok, inv_view};
use crate::entry::{EntryView, FsRecordView};
use crate::index::{contains_path, entry_at, idx_of, sorted, lemma_entry_at};
use crate::path::{is_parent_of, is_prefix_of, is_strict_prefix_of};
use crate::restore::{is_fresh_child, deep_restored, built_entry, merged_child, rec_for};

verus! {

/// Re-rooting and expanding rebuild a subtree from a fresh listing of its
/// base and from the cache.  When the cache holds every previously loaded
/// entry with the flags it had, and the listing names the previously
/// loaded children of the base again with their old kinds, then every
/// previously loaded path strictly below the base is rebuilt — without any
/// deeper read — and the rebuilt entry keeps its old `expanded` and
/// `marked` flags.
pub proof fn lemma_prior_subtree_restored(
    s_old: Seq<EntryView>,
    oldrootlen: int,
    cm: Seq<EntryView>,
    rs: Seq<FsRecordView>,
    base: Seq<Seq<char>>,
    q: Seq<Seq<char>>,
)
    requires
        sorted(s_old),
        forall|i: int| 0 <= i < s_old.len() ==> chain_ok(
            s_old,
            oldrootlen,
            (#[trigger] s_old[i]).path,
        ),
        0 <= oldrootlen <= base.len(),
        forall|qq: Seq<Seq<char>>| #[trigger] contains_path(s_old, qq) ==> contains_path(cm, qq)
            && entry_at(cm, qq).kind.is_expanded_dir() == entry_at(
            s_old,
            qq,
        ).kind.is_expanded_dir() && entry_at(cm, qq).marked == entry_at(s_old, qq).marked
            && entry_at(cm, qq).kind.matches(entry_at(s_old, qq).kind),
        forall|qq: Seq<Seq<char>>| #[trigger] contains_path(s_old, qq) && is_parent_of(base, qq)
            ==> is_fresh_child(rs, base, qq) && rec_for(rs, qq.last()).same_kind(
            entry_at(s_old, qq).kind,
        ),
        contains_path(s_old, q),
        is_strict_prefix_of(base, q),
    ensures
        q.len() == base.len() + 1 ==> is_fresh_child(rs, base, q),
        q.len() > base.len() + 1 ==> deep_restored(cm, rs, base, q),
        built_entry(cm, rs, base, q).kind.is_expanded_dir() == entry_at(
            s_old,
            q,
        ).kind.is_expanded_dir(),
        built_entry(cm, rs, base, q).marked == entry_at(s_old, q).marked,
    decreases q.len(),
{
    if q.len() == base.len() + 1 {
        assert(is_parent_of(base, q));
        assert(is_fresh_child(rs, base, q));
        let r = rec_for(rs, q.last());
        assert(r.same_kind(entry_at(s_old, q).kind));
        assert(contains_path(cm, q));
        assert(built_entry(cm, rs, base, q) == merged_child(cm, base, r));
        assert(base.push(r.name) =~= q) by {
            assert(is_fresh_child(rs, base, q));
            assert(r.name == q.last());
        }
        assert(r.same_kind(entry_at(cm, q).kind)) by {
            assert(entry_at(cm, q).kind.matches(entry_at(s_old, q).kind));
        }
        // The merged child takes `expanded` and `marked` from the cache.
        match (r.kind, entry_at(cm, q).kind) {
            (crate::entry::FsNodeKindView::Directory, crate::entry::EntryKindView::Directory {
                expanded,
            }) => {},
            _ => {},
        }
    } else {
        let a = q.subrange(0, q.len() - 1);
        let iq = idx_of(s_old, q);
        lemma_entry_at(s_old, iq);
        assert(chain_ok(s_old, oldrootlen, q));
        assert(contains_path(s_old, a) && entry_at(s_old, a).kind.is_expanded_dir()) by {
            assert(oldrootlen < q.len() - 1 < q.len());
            assert(q.subrange(0, q.len() - 1) == a);
        }
        assert(is_strict_prefix_of(base, a)) by {
            assert(forall|x: int| 0 <= x < base.len() ==> base[x] == q[x]);
            assert(forall|x: int| 0 <= x < a.len() ==> a[x] == q[x]);
        }
        lemma_prior_subtree_restored(s_old, oldrootlen, cm, rs, base, a);
        assert(contains_path(cm, q));
        assert(contains_path(cm, a));
        assert(entry_at(cm, a).kind.is_expanded_dir());
        if a.len() == base.len() + 1 {
            assert(is_fresh_child(rs, base, a));
            let ra = rec_for(rs, a.last());
            assert(ra.same_kind(entry_at(s_old, a).kind));
            assert(ra.kind is Directory);
        } else {
            assert(deep_restored(cm, rs, base, a));
        }
        assert(deep_restored(cm, rs, base, q));
        assert(built_entry(cm, rs, base, q) == entry_at(cm, q).with_selected(false));
    }
}

/// Making a child directory the root and then returning to its parent
/// restores the original root path; the child's entry comes back exactly
/// as it was (expanded, with its mark, under the cursor), and everything
/// that stayed loaded beneath the child keeps the flags it had while the
/// pane was rooted there.
///
/// The three views are one engine's image before descending into the
/// selected child `c`, after [`crate::engine::ExplorerState::set_dir_as_root`],
/// and after [`crate::engine::ExplorerState::set_parent_as_root`]; the
/// hypotheses are the engine invariant and the contracts of the two calls.
pub proof fn lemma_descend_climb_restores_view(
    v0: EngineView,
    v1: EngineView,
    v2: EngineView,
    c: Seq<Seq<char>>,
)
    requires
        inv_view(v0),
        inv_view(v1),
        v0.selected == Some(c),
        contains_path(v0.index, c),
        entry_at(v0.index, c).kind.is_expanded_dir(),
        is_parent_of(v0.root.path, c),
        // The descent made `c` the root.
        v1.root == entry_at(v0.index, c).with_expanded(true).with_selected(false),
        // The climb back to the parent of `c`.
        is_parent_of(v2.root.path, v1.root.path),
        v2.selected == Some(v1.root.path),
        entry_at(v2.index, v1.root.path) == v1.root.with_selected(true),
        forall|q: Seq<Seq<char>>| contains_path(v1.index, q) ==> (#[trigger] entry_at(
            v2.index,
            q,
        )) == entry_at(v1.index, q).with_selected(false),
    ensures
        // The original root path returns.
        v2.root.path == v0.root.path,
        // The child's entry returns exactly as it stood before the descent.
        entry_at(v2.index, c) == entry_at(v0.index, c),
        // Everything still loaded beneath the child keeps its flags.
        forall|q: Seq<Seq<char>>| contains_path(v1.index, q) ==> (#[trigger] entry_at(
            v2.index,
            q,
        )) == entry_at(v1.index, q).with_selected(false),
{
    assert(v1.root.path == c);
    assert(v2.root.path =~= v0.root.path) by {
        assert(v2.root.path.len() == c.len() - 1);
        assert(v0.root.path.len() == c.len() - 1);
        assert(forall|x: int| 0 <= x < c.len() - 1 ==> v2.root.path[x] == c[x]);
        assert(forall|x: int| 0 <= x < c.len() - 1 ==> v0.root.path[x] == c[x]);
    }
    let ce = entry_at(v0.index, c);
    assert(entry_at(v2.index, c) == ce.with_expanded(true).with_selected(false).with_selected(
        true,
    ));
    // `c` was expanded and under the cursor already.
    assert(ce.kind.with_expanded(true) == ce.kind) by {
        match ce.kind {
            crate::entry::EntryKindView::Directory { expanded } => {
                assert(expanded);
            },
            _ => {},
        }
    }
    assert(ce.selected) by {
        let i = idx_of(v0.index, c);
        lemma_entry_at(v0.index, i);
    }
}


/// The full round trip: descending into the selected child `c` and
/// climbing back up restores the prior `expanded` and `marked` flags for
/// every entry that was loaded before, with no read deeper than the two
/// one-level listings the re-rooting itself takes.
///
/// The hypotheses are the engine invariant, the contracts of
/// [`crate::engine::ExplorerState::set_dir_as_root`] (with listing `rs1` of `c`) and
/// [`crate::engine::ExplorerState::set_parent_as_root`] (with listing `rs2` of the
/// parent), and the assumption that the filesystem did not change in
/// between: each listing names the previously loaded children of its
/// directory again, as the same kind of object.
#[verifier::rlimit(100)]
pub proof fn lemma_descend_climb_restores_flags(
    v0: EngineView,
    v1: EngineView,
    v2: EngineView,
    c: Seq<Seq<char>>,
    rs1: Seq<FsRecordView>,
    rs2: Seq<FsRecordView>,
    q: Seq<Seq<char>>,
)
    requires
        inv_view(v0),
        inv_view(v1),
        v0.selected == Some(c),
        contains_path(v0.index, c),
        entry_at(v0.index, c).kind.is_expanded_dir(),
        is_parent_of(v0.root.path, c),
        // The descent: contract of `set_dir_as_root` on `c` with `rs1`.
        v1.root == entry_at(v0.index, c).with_expanded(true).with_selected(false),
        forall|p: Seq<Seq<char>>| contains_path(v0.index, p) ==> (#[trigger] entry_at(
            v1.cache,
            p,
        )) == entry_at(v0.index, p).with_selected(false) && contains_path(v1.cache, p),
        forall|p: Seq<Seq<char>>| #[trigger] contains_path(v1.index, p) <==> (is_fresh_child(
            rs1,
            c,
            p,
        ) || deep_restored(v1.cache, rs1, c, p)),
        forall|p: Seq<Seq<char>>| contains_path(v1.index, p) ==> (#[trigger] entry_at(
            v1.index,
            p,
        )) == built_entry(v1.cache, rs1, c, p).with_selected(v1.selected == Some(p)),
        // The climb: contract of `set_parent_as_root` with `rs2`.
        is_parent_of(v2.root.path, v1.root.path),
        v2.selected == Some(c),
        forall|p: Seq<Seq<char>>| #[trigger] contains_path(v2.cache, p) <==> (contains_path(
            v1.cache,
            p,
        ) || contains_path(v1.index, p) || p == c),
        forall|p: Seq<Seq<char>>| contains_path(v1.index, p) ==> (#[trigger] entry_at(
            v2.cache,
            p,
        )) == entry_at(v1.index, p).with_selected(false),
        entry_at(v2.cache, c) == v1.root,
        forall|p: Seq<Seq<char>>| contains_path(v1.cache, p) && !contains_path(v1.index, p)
            && p != c ==> (#[trigger] entry_at(v2.cache, p)) == entry_at(v1.cache, p),
        forall|p: Seq<Seq<char>>| #[trigger] contains_path(v2.index, p) <==> (p == c
            || contains_path(v1.index, p) || is_fresh_child(rs2, v2.root.path, p)
            || deep_restored(v2.cache, rs2, v2.root.path, p)),
        entry_at(v2.index, c) == v1.root.with_selected(true),
        forall|p: Seq<Seq<char>>| contains_path(v1.index, p) ==> (#[trigger] entry_at(
            v2.index,
            p,
        )) == entry_at(v1.index, p).with_selected(false),
        forall|p: Seq<Seq<char>>| (is_fresh_child(rs2, v2.root.path, p) || deep_restored(
            v2.cache,
            rs2,
            v2.root.path,
            p,
        )) && !contains_path(v1.index, p) && p != c ==> (#[trigger] entry_at(v2.index, p))
            == built_entry(v2.cache, rs2, v2.root.path, p),
        // The filesystem did not change meanwhile.
        forall|p: Seq<Seq<char>>| #[trigger] contains_path(v0.index, p) && is_parent_of(c, p)
            ==> is_fresh_child(rs1, c, p) && rec_for(rs1, p.last()).same_kind(
            entry_at(v0.index, p).kind,
        ),
        forall|p: Seq<Seq<char>>| #[trigger] contains_path(v0.index, p) && is_parent_of(
            v0.root.path,
            p,
        ) ==> is_fresh_child(rs2, v0.root.path, p) && rec_for(rs2, p.last()).same_kind(
            entry_at(v0.index, p).kind,
        ),
        contains_path(v0.index, q),
    ensures
        v2.root.path == v0.root.path,
        contains_path(v2.index, q),
        entry_at(v2.index, q).kind.is_expanded_dir() == entry_at(
            v0.index,
            q,
        ).kind.is_expanded_dir(),
        entry_at(v2.index, q).marked == entry_at(v0.index, q).marked,
    decreases q.len(),
{
    assert(v1.root.path == c);
    assert(v2.root.path =~= v0.root.path) by {
        assert(v2.root.path.len() == c.len() - 1);
        assert(v0.root.path.len() == c.len() - 1);
        assert(forall|x: int| 0 <= x < c.len() - 1 ==> v2.root.path[x] == c[x]);
        assert(forall|x: int| 0 <= x < c.len() - 1 ==> v0.root.path[x] == c[x]);
    }
    let iq = idx_of(v0.index, q);
    lemma_entry_at(v0.index, iq);
    if q == c {
        let ce = entry_at(v0.index, c);
        assert(entry_at(v2.index, c) == ce.with_expanded(true).with_selected(
            false,
        ).with_selected(true));
    } else if is_strict_prefix_of(c, q) {
        // Restored by the descent, carried through the climb as part of the
        // saved subtree.
        lemma_prior_subtree_restored(
            v0.index,
            v0.root.path.len() as int,
            v1.cache,
            rs1,
            c,
            q,
        );
        assert(contains_path(v1.index, q));
        let b1 = built_entry(v1.cache, rs1, c, q);
        assert(entry_at(v1.index, q) == b1.with_selected(v1.selected == Some(q)));
        assert(entry_at(v2.index, q) == entry_at(v1.index, q).with_selected(false));
    } else {
        // Not at or below `c`: restored by the climb from the cache.
        assert(is_strict_prefix_of(v0.root.path, q));
        // The climb's cache holds every old entry with its old flags.
        assert forall|qq: Seq<Seq<char>>| #[trigger] contains_path(v0.index, qq) implies
            contains_path(v2.cache, qq) && entry_at(v2.cache, qq).kind.is_expanded_dir()
            == entry_at(v0.index, qq).kind.is_expanded_dir() && entry_at(v2.cache, qq).marked
            == entry_at(v0.index, qq).marked && entry_at(v2.cache, qq).kind.matches(
            entry_at(v0.index, qq).kind,
        ) by {
            if qq == c {
                assert(entry_at(v2.cache, c) == v1.root);
                assert(entry_at(v0.index, c).kind.is_expanded_dir());
            } else if contains_path(v1.index, qq) {
                // A path restored under `c` by the descent: its rebuilt entry
                // keeps the old flags.
                assert(is_strict_prefix_of(c, qq)) by {
                    if is_fresh_child(rs1, c, qq) {
                    } else {
                        assert(deep_restored(v1.cache, rs1, c, qq));
                    }
                }
                lemma_prior_subtree_restored(
                    v0.index,
                    v0.root.path.len() as int,
                    v1.cache,
                    rs1,
                    c,
                    qq,
                );
                let b1 = built_entry(v1.cache, rs1, c, qq);
                assert(entry_at(v1.index, qq) == b1.with_selected(v1.selected == Some(qq)));
                assert(entry_at(v2.cache, qq) == entry_at(v1.index, qq).with_selected(false));
                assert(b1.kind.matches(entry_at(v0.index, qq).kind)) by {
                    lemma_built_kind_matches(v0.index, v1.cache, rs1, c, qq);
                }
            } else {
                assert(contains_path(v1.cache, qq));
                assert(entry_at(v2.cache, qq) == entry_at(v1.cache, qq));
                assert(entry_at(v1.cache, qq) == entry_at(v0.index, qq).with_selected(false));
            }
        }
        lemma_prior_subtree_restored(
            v0.index,
            v0.root.path.len() as int,
            v2.cache,
            rs2,
            v0.root.path,
            q,
        );
        assert(contains_path(v2.index, q)) by {
            if q.len() == v0.root.path.len() + 1 {
                assert(is_fresh_child(rs2, v2.root.path, q));
            } else {
                assert(deep_restored(v2.cache, rs2, v2.root.path, q));
            }
        }
        assert(!contains_path(v1.index, q)) by {
            if contains_path(v1.index, q) {
                if is_fresh_child(rs1, c, q) {
                    assert(is_strict_prefix_of(c, q));
                } else {
                    assert(deep_restored(v1.cache, rs1, c, q));
                    assert(is_strict_prefix_of(c, q));
                }
            }
        }
        assert(entry_at(v2.index, q) == built_entry(v2.cache, rs2, v0.root.path, q));
    }
}

/// The entry a rebuild yields for a previously loaded path has the same
/// basic kind as the old entry.
proof fn lemma_built_kind_matches(
    s_old: Seq<EntryView>,
    cm: Seq<EntryView>,
    rs: Seq<FsRecordView>,
    base: Seq<Seq<char>>,
    q: Seq<Seq<char>>,
)
    requires
        sorted(s_old),
        forall|qq: Seq<Seq<char>>| #[trigger] contains_path(s_old, qq) ==> contains_path(cm, qq)
            && entry_at(cm, qq).kind.is_expanded_dir() == entry_at(
            s_old,
            qq,
        ).kind.is_expanded_dir() && entry_at(cm, qq).marked == entry_at(s_old, qq).marked
            && entry_at(cm, qq).kind.matches(entry_at(s_old, qq).kind),
        forall|qq: Seq<Seq<char>>| #[trigger] contains_path(s_old, qq) && is_parent_of(base, qq)
            ==> is_fresh_child(rs, base, qq) && rec_for(rs, qq.last()).same_kind(
            entry_at(s_old, qq).kind,
        ),
        contains_path(s_old, q),
        is_strict_prefix_of(base, q),
    ensures
        built_entry(cm, rs, base, q).kind.matches(entry_at(s_old, q).kind),
{
    if q.len() == base.len() + 1 {
        assert(is_parent_of(base, q));
        let r = rec_for(rs, q.last());
        assert(r.same_kind(entry_at(s_old, q).kind));
        assert(base.push(r.name) =~= q) by {
            assert(is_fresh_child(rs, base, q));
            assert(r.name == q.last());
        }
        assert(r.same_kind(entry_at(cm, q).kind)) by {
            assert(entry_at(cm, q).kind.matches(entry_at(s_old, q).kind));
        }
    } else {
        assert(entry_at(cm, q).kind.matches(entry_at(s_old, q).kind));
    }
}

} // verus!
