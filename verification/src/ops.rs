//! Engine operations that consume directory listings: initialization,
//! expand and collapse, and the two re-rooting moves.

use vstd::prelude::*;

use crate::entry::{Entry, EntryView, FsRecord};
use crate::errors::EngineError;
use crate::engine::{ExplorerState, chain_ok};
use crate::index::{PathIndex, contains_path, entry_at, idx_of, sorted, in_removed_set,
    lemma_entry_at, lemma_same_paths, lemma_distinct_paths};
use crate::path::{EntryPath, is_prefix_of, is_strict_prefix_of, lemma_prefix_trans};
use crate::restore::{is_fresh_child, deep_restored, built_entry, lemma_deep_prefix};

verus! {

impl ExplorerState {
    /// Initialize a pane: the given directory becomes the root, the listing
    /// of its children becomes the live index, and the cache starts as a
    /// copy of it.  Nothing is selected.
    pub fn new(root: Entry, listing: Vec<FsRecord>) -> (r: ExplorerState)
        requires
            root@.kind.is_dir(),
        ensures
            r.inv(),
            r@.root == root@.with_expanded(true).with_selected(false),
            r@.selected is None,
            r@.cache == r@.index,
            forall|q: Seq<Seq<char>>| #[trigger] contains_path(r@.index, q) <==> is_fresh_child(
                listing.deep_view(),
                root@.path,
                q,
            ),
            forall|q: Seq<Seq<char>>| contains_path(r@.index, q) ==> (#[trigger] entry_at(
                r@.index,
                q,
            )) == built_entry(Seq::<EntryView>::empty(), listing.deep_view(), root@.path, q),
    {
        let mut root = root;
        root.set_expanded(true);
        root.set_selected(false);
        let empty_cache = PathIndex::new();
        let mut index = PathIndex::new();
        index.build_children(&root.path, &listing, &empty_cache);
        proof {
            let rs = listing.deep_view();
            let base = root@.path;
            assert forall|q: Seq<Seq<char>>| #[trigger] contains_path(index@, q) implies
                is_fresh_child(rs, base, q) by {
                if deep_restored(Seq::<EntryView>::empty(), rs, base, q) {
                    assert(contains_path(Seq::<EntryView>::empty(), q));
                }
            }
        }
        let cache = index.duplicate();
        let r = ExplorerState { root, index, cache, selected: None };
        proof {
            let rs = listing.deep_view();
            let base = r@.root.path;
            assert forall|i: int| 0 <= i < r@.index.len() implies is_strict_prefix_of(
                base,
                (#[trigger] r@.index[i]).path,
            ) && chain_ok(r@.index, base.len() as int, (r@.index[i]).path) by {
                lemma_entry_at(r@.index, i);
                let q = r@.index[i].path;
                assert(contains_path(r@.index, q));
                assert(is_fresh_child(rs, base, q));
            }
            assert forall|i: int| 0 <= i < r@.index.len() implies !(
            #[trigger] r@.index[i]).selected by {
                lemma_entry_at(r@.index, i);
                let q = r@.index[i].path;
                assert(entry_at(r@.index, q) == built_entry(
                    Seq::<EntryView>::empty(),
                    rs,
                    base,
                    q,
                ));
            }
        }
        r
    }

    /// Collapse the selected directory: its descendants move from the live
    /// index into the cache; the directory's own entry stays, collapsed.
    #[verifier::spinoff_prover]
    #[verifier::rlimit(100)]
    fn collapse_selected(&mut self, i0: usize, p: &EntryPath)
        requires
            old(self).inv(),
            old(self)@.selected == Some(p@),
            i0 < old(self)@.index.len(),
            old(self)@.index[i0 as int].path == p@,
            old(self)@.index[i0 as int].kind.is_expanded_dir(),
        ensures
            final(self).inv(),
            final(self)@.root == old(self)@.root,
            final(self)@.selected == old(self)@.selected,
            forall|q: Seq<Seq<char>>| #[trigger] contains_path(final(self)@.index, q) <==> (
            contains_path(old(self)@.index, q) && !is_strict_prefix_of(p@, q)),
            entry_at(final(self)@.index, p@) == entry_at(old(self)@.index, p@).with_expanded(
                false,
            ),
            forall|q: Seq<Seq<char>>| contains_path(final(self)@.index, q) && q != p@ ==> (
            #[trigger] entry_at(final(self)@.index, q)) == entry_at(old(self)@.index, q),
            forall|q: Seq<Seq<char>>| #[trigger] contains_path(final(self)@.cache, q) <==> (
            contains_path(old(self)@.cache, q) || (contains_path(old(self)@.index, q)
                && is_strict_prefix_of(p@, q))),
            forall|q: Seq<Seq<char>>| contains_path(old(self)@.index, q) && is_strict_prefix_of(
                p@,
                q,
            ) ==> (#[trigger] entry_at(final(self)@.cache, q)) == entry_at(old(self)@.index, q),
            forall|q: Seq<Seq<char>>| contains_path(old(self)@.cache, q) && !(contains_path(
                old(self)@.index,
                q,
            ) && is_strict_prefix_of(p@, q)) ==> (#[trigger] entry_at(final(self)@.cache, q))
                == entry_at(old(self)@.cache, q),
    {
        let ghost s0 = self@.index;
        let ghost c0 = self@.cache;
        let ghost rootlen = self@.root.path.len() as int;
        proof {
            lemma_entry_at(s0, i0 as int);
        }
        let mut e2 = self.index.at(i0).duplicate();
        e2.set_expanded(false);
        self.index.replace_at(i0, e2);
        let ghost smid = self@.index;
        proof {
            lemma_same_paths(s0, smid);
            assert forall|q: Seq<Seq<char>>| #[trigger] contains_path(smid, q) implies (
            contains_path(s0, q) && entry_at(smid, q) == (if q == p@ {
                entry_at(s0, q).with_expanded(false)
            } else {
                entry_at(s0, q)
            })) by {
                let i = idx_of(smid, q);
                lemma_entry_at(smid, i);
                lemma_entry_at(s0, i);
                if i != i0 as int {
                    lemma_distinct_paths(s0, i, i0 as int);
                }
            }
            // The removed-set bound below `p` is exactly strict descent.
            assert forall|q: Seq<Seq<char>>| #[trigger] in_removed_set(p@, true, q) <==>
                is_strict_prefix_of(p@, q) by {
                if is_prefix_of(p@, q) && q != p@ && q.len() == p@.len() {
                    assert(p@ =~= q);
                }
            }
        }
        let removed = self.index.remove_subtree(p, true);
        let ghost rd = removed.deep_view();
        proof {
            // Everything evicted was an unselected descendant.
            assert forall|j: int| 0 <= j < rd.len() implies !(#[trigger] rd[j]).selected
                && contains_path(s0, rd[j].path) && rd[j] == entry_at(s0, rd[j].path) by {
                lemma_entry_at(rd, j);
                let q = rd[j].path;
                assert(contains_path(rd, q));
                assert(rd[j] == entry_at(rd, q));
                assert(entry_at(rd, q) == entry_at(smid, q));
                let i = idx_of(smid, q);
                lemma_entry_at(smid, i);
                assert(in_removed_set(p@, true, q));
                assert(q != p@);
            }
        }
        // Merge the evicted entries into the cache.
        let ghost spost = self@.index;
        let m = removed.len();
        let mut j: usize = 0;
        while j < m
            invariant
                j <= m,
                m == rd.len(),
                rd == removed.deep_view(),
                sorted(rd),
                sorted(c0),
                self.cache.wf(),
                self.index.wf(),
                self@.index == spost,
                self@.root == old(self)@.root,
                self@.selected == old(self)@.selected,
                forall|jj: int| 0 <= jj < rd.len() ==> !(#[trigger] rd[jj]).selected,
                forall|i: int| 0 <= i < c0.len() ==> !(#[trigger] c0[i]).selected,
                forall|q: Seq<Seq<char>>| #[trigger] contains_path(self@.cache, q) <==> (
                contains_path(c0, q) || (exists|jj: int| 0 <= jj < j && (#[trigger] rd[jj]).path
                    == q)),
                forall|jj: int| 0 <= jj < j ==> (#[trigger] entry_at(self@.cache, rd[jj].path))
                    == rd[jj],
                forall|q: Seq<Seq<char>>| contains_path(c0, q) && !contains_path(rd, q) ==> (
                #[trigger] entry_at(self@.cache, q)) == entry_at(c0, q),
                forall|i: int| 0 <= i < self@.cache.len() ==> !(
                #[trigger] self@.cache[i]).selected,
            decreases m - j,
        {
            let ghost cprev = self@.cache;
            let e = removed[j].duplicate();
            proof {
                assert(e@ == rd[j as int]);
            }
            self.cache.upsert(e);
            proof {
                assert forall|jj: int| 0 <= jj < j + 1 implies (#[trigger] entry_at(
                    self@.cache,
                    rd[jj].path,
                )) == rd[jj] by {
                    if jj < j {
                        if rd[jj].path == rd[j as int].path {
                            lemma_distinct_paths(rd, jj, j as int);
                        } else {
                            assert(entry_at(self@.cache, rd[jj].path) == entry_at(
                                cprev,
                                rd[jj].path,
                            ));
                        }
                    }
                }
                assert forall|q: Seq<Seq<char>>| contains_path(c0, q) && !contains_path(
                    rd,
                    q,
                ) implies (#[trigger] entry_at(self@.cache, q)) == entry_at(c0, q) by {
                    assert(q != rd[j as int].path) by {
                        if q == rd[j as int].path {
                            assert(contains_path(rd, q));
                        }
                    }
                    assert(entry_at(self@.cache, q) == entry_at(cprev, q));
                }
                assert forall|i: int| 0 <= i < self@.cache.len() implies !(
                #[trigger] self@.cache[i]).selected by {
                    lemma_entry_at(self@.cache, i);
                    let q = self@.cache[i].path;
                    if q == rd[j as int].path {
                        assert(self@.cache[i] == entry_at(self@.cache, q));
                    } else {
                        assert(contains_path(cprev, q));
                        assert(entry_at(self@.cache, q) == entry_at(cprev, q));
                        let t = idx_of(cprev, q);
                        lemma_entry_at(cprev, t);
                    }
                }
            }
            j += 1;
        }
        proof {
            let s2 = self@.index;
            let c2 = self@.cache;
            // Final index membership and values.
            assert forall|q: Seq<Seq<char>>| #[trigger] contains_path(s2, q) implies (
            contains_path(s0, q) && !is_strict_prefix_of(p@, q) && entry_at(s2, q) == (if q == p@ {
                entry_at(s0, q).with_expanded(false)
            } else {
                entry_at(s0, q)
            })) by {
                assert(contains_path(smid, q));
                assert(entry_at(s2, q) == entry_at(smid, q));
            }
            assert forall|q: Seq<Seq<char>>| contains_path(s0, q) && !is_strict_prefix_of(
                p@,
                q,
            ) implies #[trigger] contains_path(s2, q) by {
                assert(contains_path(smid, q));
            }
            // Final cache membership and values.
            assert forall|q: Seq<Seq<char>>| #[trigger] contains_path(c2, q) implies (
            contains_path(c0, q) || (contains_path(s0, q) && is_strict_prefix_of(p@, q))) by {
                if !contains_path(c0, q) {
                    let jj = choose|jj: int| 0 <= jj < m && (#[trigger] rd[jj]).path == q;
                    assert(contains_path(rd, q));
                }
            }
            assert forall|q: Seq<Seq<char>>| contains_path(s0, q) && is_strict_prefix_of(
                p@,
                q,
            ) implies #[trigger] contains_path(c2, q) && entry_at(c2, q) == entry_at(s0, q) by {
                assert(contains_path(smid, q));
                assert(in_removed_set(p@, true, q));
                assert(contains_path(rd, q));
                let jj = idx_of(rd, q);
                lemma_entry_at(rd, jj);
                assert(entry_at(c2, rd[jj].path) == rd[jj]);
                assert(rd[jj] == entry_at(s0, q));
            }
            assert forall|q: Seq<Seq<char>>| contains_path(s0, q) && is_strict_prefix_of(
                p@,
                q,
            ) implies (#[trigger] entry_at(c2, q)) == entry_at(s0, q) by {
                assert(contains_path(c2, q));
            }
            assert forall|q: Seq<Seq<char>>| contains_path(c0, q) && !(contains_path(s0, q)
                && is_strict_prefix_of(p@, q)) implies (#[trigger] entry_at(c2, q)) == entry_at(
                c0,
                q,
            ) by {
                assert(!contains_path(rd, q)) by {
                    if contains_path(rd, q) {
                        let jj = idx_of(rd, q);
                        lemma_entry_at(rd, jj);
                    }
                }
            }
            // Invariant.
            assert forall|i: int| 0 <= i < s2.len() implies is_strict_prefix_of(
                self@.root.path,
                (#[trigger] s2[i]).path,
            ) && chain_ok(s2, rootlen, s2[i].path) && ((#[trigger] s2[i]).selected <==> s2[i].path
                == p@) by {
                lemma_entry_at(s2, i);
                let q = s2[i].path;
                assert(contains_path(s2, q));
                let iold = idx_of(s0, q);
                lemma_entry_at(s0, iold);
                assert(chain_ok(s0, rootlen, q));
                assert forall|k: int| rootlen < k < q.len() implies contains_path(
                    s2,
                    #[trigger] q.subrange(0, k),
                ) && entry_at(s2, q.subrange(0, k)).kind.is_expanded_dir() by {
                    let a = q.subrange(0, k);
                    assert(contains_path(s0, a) && entry_at(s0, a).kind.is_expanded_dir());
                    assert(is_prefix_of(a, q)) by {
                        assert(forall|x: int| 0 <= x < k ==> a[x] == q[x]);
                    }
                    assert(a != p@) by {
                        if a == p@ {
                            assert(is_strict_prefix_of(p@, q));
                        }
                    }
                    assert(!is_strict_prefix_of(p@, a)) by {
                        if is_strict_prefix_of(p@, a) {
                            lemma_prefix_trans(p@, a, q);
                        }
                    }
                    assert(contains_path(s2, a));
                    assert(entry_at(s2, a) == entry_at(s0, a));
                }
                assert(s2[i] == entry_at(s2, q));
                if q == p@ {
                    assert(entry_at(s2, q) == entry_at(s0, q).with_expanded(false));
                    assert(s0[iold].selected);
                } else {
                    assert(entry_at(s2, q) == entry_at(s0, q));
                }
            }
            assert(contains_path(s2, p@));
        }
    }

    /// Expand the selected directory: load one level from the listing and
    /// restore any cached subtree beneath it whose recorded ancestor chain
    /// is expanded.
    #[verifier::spinoff_prover]
    #[verifier::rlimit(100)]
    fn expand_selected(&mut self, i0: usize, p: &EntryPath, listing: &Vec<FsRecord>)
        requires
            old(self).inv(),
            old(self)@.selected == Some(p@),
            i0 < old(self)@.index.len(),
            old(self)@.index[i0 as int].path == p@,
            old(self)@.index[i0 as int].kind.is_dir(),
            !old(self)@.index[i0 as int].kind.is_expanded_dir(),
        ensures
            final(self).inv(),
            final(self)@.root == old(self)@.root,
            final(self)@.selected == old(self)@.selected,
            final(self)@.cache == old(self)@.cache,
            forall|q: Seq<Seq<char>>| #[trigger] contains_path(final(self)@.index, q) <==> (
            contains_path(old(self)@.index, q) || is_fresh_child(listing.deep_view(), p@, q)
                || deep_restored(old(self)@.cache, listing.deep_view(), p@, q)),
            entry_at(final(self)@.index, p@) == entry_at(old(self)@.index, p@).with_expanded(
                true,
            ),
            forall|q: Seq<Seq<char>>| contains_path(old(self)@.index, q) && q != p@ ==> (
            #[trigger] entry_at(final(self)@.index, q)) == entry_at(old(self)@.index, q),
            forall|q: Seq<Seq<char>>| is_fresh_child(listing.deep_view(), p@, q) || deep_restored(
                old(self)@.cache,
                listing.deep_view(),
                p@,
                q,
            ) ==> (#[trigger] entry_at(final(self)@.index, q)) == built_entry(
                old(self)@.cache,
                listing.deep_view(),
                p@,
                q,
            ),
    {
        let ghost s0 = self@.index;
        let ghost cm = self@.cache;
        let ghost rs = listing.deep_view();
        let ghost rootlen = self@.root.path.len() as int;
        proof {
            lemma_entry_at(s0, i0 as int);
        }
        let mut e2 = self.index.at(i0).duplicate();
        e2.set_expanded(true);
        self.index.replace_at(i0, e2);
        let ghost smid = self@.index;
        proof {
            lemma_same_paths(s0, smid);
            assert forall|q: Seq<Seq<char>>| #[trigger] contains_path(smid, q) implies (
            contains_path(s0, q) && entry_at(smid, q) == (if q == p@ {
                entry_at(s0, q).with_expanded(true)
            } else {
                entry_at(s0, q)
            })) by {
                let i = idx_of(smid, q);
                lemma_entry_at(smid, i);
                lemma_entry_at(s0, i);
                if i != i0 as int {
                    lemma_distinct_paths(s0, i, i0 as int);
                }
            }
            // A collapsed directory holds no loaded descendants, so nothing
            // in the index lies strictly below `p`.
            assert forall|i: int| 0 <= i < smid.len() implies !is_strict_prefix_of(
                p@,
                (#[trigger] smid[i]).path,
            ) by {
                let q = smid[i].path;
                if is_strict_prefix_of(p@, q) {
                    lemma_entry_at(s0, i);
                    assert(chain_ok(s0, rootlen, q));
                    assert(rootlen < p@.len() < q.len());
                    assert(q.subrange(0, p@.len() as int) == p@) by {
                        assert(q.subrange(0, p@.len() as int) =~= p@);
                    }
                    assert(entry_at(s0, p@).kind.is_expanded_dir());
                }
            }
        }
        self.index.build_children(p, listing, &self.cache);
        proof {
            let s2 = self@.index;
            // Membership and values relative to the original index.
            assert forall|q: Seq<Seq<char>>| #[trigger] contains_path(s2, q) <==> (contains_path(
                s0,
                q,
            ) || is_fresh_child(rs, p@, q) || deep_restored(cm, rs, p@, q)) by {
                assert(contains_path(smid, q) <==> contains_path(s0, q));
            }
            assert(entry_at(s2, p@) == entry_at(s0, p@).with_expanded(true)) by {
                assert(contains_path(smid, p@));
                assert(entry_at(s2, p@) == entry_at(smid, p@));
            }
            assert forall|q: Seq<Seq<char>>| contains_path(s0, q) && q != p@ implies (
            #[trigger] entry_at(s2, q)) == entry_at(s0, q) by {
                assert(contains_path(smid, q));
                assert(entry_at(s2, q) == entry_at(smid, q));
            }
            // Invariant: root prefix, chains, selection.
            assert forall|i: int| 0 <= i < s2.len() implies is_strict_prefix_of(
                self@.root.path,
                (#[trigger] s2[i]).path,
            ) && chain_ok(s2, rootlen, s2[i].path) && ((#[trigger] s2[i]).selected <==> s2[i].path
                == p@) by {
                lemma_entry_at(s2, i);
                let q = s2[i].path;
                assert(contains_path(s2, q));
                if contains_path(s0, q) {
                    let iold = idx_of(s0, q);
                    lemma_entry_at(s0, iold);
                    assert(is_strict_prefix_of(self@.root.path, q));
                    assert(chain_ok(s0, rootlen, q));
                    assert forall|k: int| rootlen < k < q.len() implies contains_path(
                        s2,
                        #[trigger] q.subrange(0, k),
                    ) && entry_at(s2, q.subrange(0, k)).kind.is_expanded_dir() by {
                        let a = q.subrange(0, k);
                        assert(contains_path(s0, a) && entry_at(s0, a).kind.is_expanded_dir());
                        if a == p@ {
                            assert(entry_at(s2, a) == entry_at(s0, a).with_expanded(true));
                        } else {
                            assert(entry_at(s2, a) == entry_at(s0, a));
                        }
                    }
                    if q == p@ {
                        assert(s2[i] == entry_at(s2, q));
                        assert(s0[iold].selected);
                    } else {
                        assert(s2[i] == entry_at(s0, q));
                        assert(s0[iold].selected <==> s0[iold].path == p@);
                    }
                } else {
                    // A fresh or restored path strictly below `p`.
                    assert(is_fresh_child(rs, p@, q) || deep_restored(cm, rs, p@, q));
                    assert(is_strict_prefix_of(p@, q));
                    assert(is_strict_prefix_of(self@.root.path, p@)) by {
                        lemma_entry_at(s0, i0 as int);
                    }
                    assert(is_strict_prefix_of(self@.root.path, q)) by {
                        lemma_prefix_trans(self@.root.path, p@, q);
                    }
                    assert(s2[i] == built_entry(cm, rs, p@, q));
                    assert(!s2[i].selected);
                    assert(q != p@);
                    assert forall|k: int| rootlen < k < q.len() implies contains_path(
                        s2,
                        #[trigger] q.subrange(0, k),
                    ) && entry_at(s2, q.subrange(0, k)).kind.is_expanded_dir() by {
                        let a = q.subrange(0, k);
                        if k < p@.len() {
                            assert(a =~= p@.subrange(0, k));
                            assert(chain_ok(s0, rootlen, p@));
                            assert(contains_path(s0, a) && entry_at(
                                s0,
                                a,
                            ).kind.is_expanded_dir());
                            assert(a != p@) by {
                                if a == p@ {
                                    assert(a.len() == p@.len());
                                }
                            }
                            assert(entry_at(s2, a) == entry_at(s0, a));
                        } else if k == p@.len() {
                            assert(a =~= p@);
                            assert(entry_at(s2, p@) == entry_at(s0, p@).with_expanded(true));
                        } else {
                            // Strictly between `p` and `q`: given by the
                            // restoration chain itself.
                            assert(deep_restored(cm, rs, p@, q)) by {
                                if is_fresh_child(rs, p@, q) {
                                    assert(q.len() == p@.len() + 1);
                                }
                            }
                            lemma_deep_prefix(cm, rs, p@, q, k);
                            assert(is_prefix_of(p@, a)) by {
                                assert(forall|x: int| 0 <= x < p@.len() ==> p@[x] == q[x]);
                                assert(forall|x: int| 0 <= x < k ==> a[x] == q[x]);
                            }
                            if k == p@.len() + 1 {
                                assert(is_fresh_child(rs, p@, a));
                                assert(contains_path(s2, a));
                                assert(entry_at(s2, a) == built_entry(cm, rs, p@, a));
                                assert(entry_at(cm, a).kind.is_expanded_dir());
                            } else {
                                assert(deep_restored(cm, rs, p@, a));
                                assert(contains_path(s2, a));
                                assert(entry_at(s2, a) == built_entry(cm, rs, p@, a));
                                assert(entry_at(s2, a) == entry_at(cm, a).with_selected(false));
                            }
                        }
                    }
                }
            }
            assert(contains_path(s2, p@));
        }
    }

    /// Expand or collapse the selected directory.  Expanding loads one
    /// level from `listing` and restores cached state beneath it; when the
    /// directory is collapsed instead, the listing is not consulted.  Fails
    /// when nothing is selected or the selection is not a directory.
    pub fn toggle_expand(&mut self, listing: &Vec<FsRecord>) -> (r: Result<(), EngineError>)
        requires
            old(self).inv(),
        ensures
            final(self).inv(),
            final(self)@.root == old(self)@.root,
            match old(self)@.selected {
                Option::None => r == Err::<(), EngineError>(EngineError::NoSelection)
                    && final(self)@ == old(self)@,
                Option::Some(p) => {
                    let e = entry_at(old(self)@.index, p);
                    if !e.kind.is_dir() {
                        r == Err::<(), EngineError>(EngineError::SelectedNotADirectory)
                            && final(self)@ == old(self)@
                    } else if e.kind.is_expanded_dir() {
                        &&& r == Ok::<(), EngineError>(())
                        &&& final(self)@.selected == old(self)@.selected
                        &&& forall|q: Seq<Seq<char>>| #[trigger] contains_path(
                            final(self)@.index,
                            q,
                        ) <==> (contains_path(old(self)@.index, q) && !is_strict_prefix_of(p, q))
                        &&& entry_at(final(self)@.index, p) == entry_at(
                            old(self)@.index,
                            p,
                        ).with_expanded(false)
                        &&& forall|q: Seq<Seq<char>>| contains_path(final(self)@.index, q) && q
                            != p ==> (#[trigger] entry_at(final(self)@.index, q)) == entry_at(
                            old(self)@.index,
                            q,
                        )
                        &&& forall|q: Seq<Seq<char>>| #[trigger] contains_path(
                            final(self)@.cache,
                            q,
                        ) <==> (contains_path(old(self)@.cache, q) || (contains_path(
                            old(self)@.index,
                            q,
                        ) && is_strict_prefix_of(p, q)))
                        &&& forall|q: Seq<Seq<char>>| contains_path(old(self)@.index, q)
                            && is_strict_prefix_of(p, q) ==> (#[trigger] entry_at(
                            final(self)@.cache,
                            q,
                        )) == entry_at(old(self)@.index, q)
                        &&& forall|q: Seq<Seq<char>>| contains_path(old(self)@.cache, q) && !(
                        contains_path(old(self)@.index, q) && is_strict_prefix_of(p, q)) ==> (
                        #[trigger] entry_at(final(self)@.cache, q)) == entry_at(old(self)@.cache, q)
                    } else {
                        &&& r == Ok::<(), EngineError>(())
                        &&& final(self)@.selected == old(self)@.selected
                        &&& final(self)@.cache == old(self)@.cache
                        &&& forall|q: Seq<Seq<char>>| #[trigger] contains_path(
                            final(self)@.index,
                            q,
                        ) <==> (contains_path(old(self)@.index, q) || is_fresh_child(
                            listing.deep_view(),
                            p,
                            q,
                        ) || deep_restored(old(self)@.cache, listing.deep_view(), p, q))
                        &&& entry_at(final(self)@.index, p) == entry_at(
                            old(self)@.index,
                            p,
                        ).with_expanded(true)
                        &&& forall|q: Seq<Seq<char>>| contains_path(old(self)@.index, q) && q != p
                            ==> (#[trigger] entry_at(final(self)@.index, q)) == entry_at(
                            old(self)@.index,
                            q,
                        )
                        &&& forall|q: Seq<Seq<char>>| is_fresh_child(listing.deep_view(), p, q)
                            || deep_restored(old(self)@.cache, listing.deep_view(), p, q) ==> (
                        #[trigger] entry_at(final(self)@.index, q)) == built_entry(
                            old(self)@.cache,
                            listing.deep_view(),
                            p,
                            q,
                        )
                    }
                },
            },
    {
        let cur = match self.selected_path() {
            Some(c) => c,
            None => {
                return Err(EngineError::NoSelection);
            },
        };
        let i0 = match self.index.find(&cur) {
            Some(i) => i,
            None => {
                proof {
                    assert(false);
                }
                return Err(EngineError::NoSelection);
            },
        };
        proof {
            lemma_entry_at(self@.index, i0 as int);
        }
        if !self.index.at(i0).is_dir() {
            return Err(EngineError::SelectedNotADirectory);
        }
        if self.index.at(i0).is_expanded_dir() {
            self.collapse_selected(i0, &cur);
        } else {
            self.expand_selected(i0, &cur, listing);
        }
        Ok(())
    }

}

} // verus!
