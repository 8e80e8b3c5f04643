//! Re-rooting a pane: descending into the selected directory, and climbing
//! to the parent of the current root.

use vstd::prelude::*;

use crate::entry::{Entry, EntryView, FsMeta, FsRecord};
use crate::errors::EngineError;
use crate::engine::{ExplorerState, chain_ok};
use crate::index::{PathIndex, contains_path, entry_at, idx_of, sorted, in_removed_set,
    lemma_entry_at, lemma_same_paths, lemma_distinct_paths};
use crate::path::{EntryPath, is_prefix_of, is_strict_prefix_of, is_parent_of, path_lt,
    lemma_prefix_trans};
use crate::restore::{is_fresh_child, deep_restored, built_entry, lemma_deep_prefix,
    lemma_built_index_inv};

verus! {

impl ExplorerState {
    /// Copy the root entry and every live entry into the cache, with the
    /// cursor flag cleared.  The live index itself is left untouched.
    #[verifier::rlimit(60)]
    fn stash_into_cache(&mut self)
        requires
            old(self).inv(),
        ensures
            final(self)@.index == old(self)@.index,
            final(self)@.root == old(self)@.root,
            final(self)@.selected == old(self)@.selected,
            final(self).inv(),
            forall|q: Seq<Seq<char>>| #[trigger] contains_path(final(self)@.cache, q) <==> (
            contains_path(old(self)@.cache, q) || contains_path(old(self)@.index, q) || q == old(
                self,
            )@.root.path),
            forall|q: Seq<Seq<char>>| contains_path(old(self)@.index, q) ==> (#[trigger] entry_at(
                final(self)@.cache,
                q,
            )) == entry_at(old(self)@.index, q).with_selected(false),
            entry_at(final(self)@.cache, old(self)@.root.path) == old(self)@.root,
            forall|q: Seq<Seq<char>>| contains_path(old(self)@.cache, q) && !contains_path(
                old(self)@.index,
                q,
            ) && q != old(self)@.root.path ==> (#[trigger] entry_at(final(self)@.cache, q))
                == entry_at(old(self)@.cache, q),
    {
        let ghost s0 = self@.index;
        let ghost c0 = self@.cache;
        let ghost oldroot = self@.root;
        let rootdup = self.root.duplicate();
        self.cache.upsert(rootdup);
        let ghost c1 = self@.cache;
        proof {
            assert(!contains_path(s0, oldroot.path)) by {
                if contains_path(s0, oldroot.path) {
                    let i = idx_of(s0, oldroot.path);
                    lemma_entry_at(s0, i);
                    assert(is_strict_prefix_of(oldroot.path, s0[i].path));
                }
            }
            assert forall|i: int| 0 <= i < c1.len() implies !(#[trigger] c1[i]).selected by {
                lemma_entry_at(c1, i);
                let q = c1[i].path;
                if q == oldroot.path {
                    assert(c1[i] == oldroot);
                } else {
                    assert(contains_path(c0, q));
                    assert(entry_at(c1, q) == entry_at(c0, q));
                    let t = idx_of(c0, q);
                    lemma_entry_at(c0, t);
                }
            }
        }
        let n = self.index.len();
        let mut j: usize = 0;
        while j < n
            invariant
                j <= n,
                n == s0.len(),
                self@.index == s0,
                self@.root == old(self)@.root,
                self@.selected == old(self)@.selected,
                sorted(s0),
                sorted(c1),
                self.cache.wf(),
                self.index.wf(),
                forall|q: Seq<Seq<char>>| #[trigger] contains_path(self@.cache, q) <==> (
                contains_path(c1, q) || (exists|jj: int| 0 <= jj < j && (#[trigger] s0[jj]).path
                    == q)),
                forall|jj: int| 0 <= jj < j ==> (#[trigger] entry_at(self@.cache, s0[jj].path))
                    == s0[jj].with_selected(false),
                forall|q: Seq<Seq<char>>| contains_path(c1, q) && !contains_path(s0, q) ==> (
                #[trigger] entry_at(self@.cache, q)) == entry_at(c1, q),
                forall|i: int| 0 <= i < self@.cache.len() ==> !(
                #[trigger] self@.cache[i]).selected,
            decreases n - j,
        {
            let ghost cprev = self@.cache;
            let mut e = self.index.at(j).duplicate();
            e.set_selected(false);
            self.cache.upsert(e);
            proof {
                lemma_entry_at(s0, j as int);
                assert forall|jj: int| 0 <= jj < j + 1 implies (#[trigger] entry_at(
                    self@.cache,
                    s0[jj].path,
                )) == s0[jj].with_selected(false) by {
                    if jj < j {
                        if s0[jj].path == s0[j as int].path {
                            lemma_distinct_paths(s0, jj, j as int);
                        } else {
                            assert(entry_at(self@.cache, s0[jj].path) == entry_at(
                                cprev,
                                s0[jj].path,
                            ));
                        }
                    }
                }
                assert forall|q: Seq<Seq<char>>| contains_path(c1, q) && !contains_path(
                    s0,
                    q,
                ) implies (#[trigger] entry_at(self@.cache, q)) == entry_at(c1, q) by {
                    assert(q != s0[j as int].path) by {
                        if q == s0[j as int].path {
                            assert(contains_path(s0, q));
                        }
                    }
                    assert(entry_at(self@.cache, q) == entry_at(cprev, q));
                }
                assert forall|i: int| 0 <= i < self@.cache.len() implies !(
                #[trigger] self@.cache[i]).selected by {
                    lemma_entry_at(self@.cache, i);
                    let q = self@.cache[i].path;
                    if q == s0[j as int].path {
                        assert(self@.cache[i] == s0[j as int].with_selected(false));
                    } else {
                        assert(contains_path(cprev, q));
                        assert(entry_at(self@.cache, q) == entry_at(cprev, q));
                        let t = idx_of(cprev, q);
                        lemma_entry_at(cprev, t);
                    }
                }
            }
            j += 1;
        }
        proof {
            let c2 = self@.cache;
            assert forall|q: Seq<Seq<char>>| #[trigger] contains_path(c2, q) <==> (contains_path(
                c0,
                q,
            ) || contains_path(s0, q) || q == oldroot.path) by {
                if contains_path(s0, q) {
                    let i = idx_of(s0, q);
                    lemma_entry_at(s0, i);
                }
            }
            assert forall|q: Seq<Seq<char>>| contains_path(s0, q) implies (#[trigger] entry_at(
                c2,
                q,
            )) == entry_at(s0, q).with_selected(false) by {
                let i = idx_of(s0, q);
                lemma_entry_at(s0, i);
            }
            assert(entry_at(c2, oldroot.path) == oldroot) by {
                assert(entry_at(c2, oldroot.path) == entry_at(c1, oldroot.path));
            }
        }
    }

    /// Empty the live index.
    fn drop_index(&mut self)
        requires
            old(self).inv(),
        ensures
            final(self)@.root == old(self)@.root,
            final(self)@.selected == old(self)@.selected,
            final(self)@.cache == old(self)@.cache,
            final(self)@.index.len() == 0,
            final(self).index.wf(),
    {
        let ghost s0 = self@.index;
        let rootpath = self.root.path.duplicate();
        let _evicted = self.index.remove_subtree(&rootpath, false);
        proof {
            assert(self@.index.len() == 0) by {
                if self@.index.len() > 0 {
                    lemma_entry_at(self@.index, 0);
                    let q = self@.index[0].path;
                    assert(contains_path(self@.index, q));
                    assert(contains_path(s0, q) && !in_removed_set(rootpath@, false, q));
                    let i = idx_of(s0, q);
                    lemma_entry_at(s0, i);
                    assert(is_strict_prefix_of(old(self)@.root.path, q));
                }
            }
        }
    }

    /// Make the selected directory the new root.  The old root and the
    /// whole live index move into the cache; the new root's children are
    /// loaded from the listing, previously known subtrees are restored from
    /// the cache, and the first visible entry is selected.  When nothing is
    /// selected, or the selection is not a directory, the engine is left
    /// unchanged.
    #[verifier::spinoff_prover]
    #[verifier::rlimit(100)]
    pub fn set_dir_as_root(&mut self, listing: &Vec<FsRecord>)
        requires
            old(self).inv(),
        ensures
            final(self).inv(),
            match old(self)@.selected {
                Option::None => final(self)@ == old(self)@,
                Option::Some(p) => if !entry_at(old(self)@.index, p).kind.is_dir() {
                    final(self)@ == old(self)@
                } else {
                    let rs = listing.deep_view();
                    &&& final(self)@.root == entry_at(old(self)@.index, p).with_expanded(
                        true,
                    ).with_selected(false)
                    &&& forall|q: Seq<Seq<char>>| #[trigger] contains_path(final(self)@.cache, q)
                        <==> (contains_path(old(self)@.cache, q) || contains_path(
                        old(self)@.index,
                        q,
                    ) || q == old(self)@.root.path)
                    &&& forall|q: Seq<Seq<char>>| contains_path(old(self)@.index, q) ==> (
                    #[trigger] entry_at(final(self)@.cache, q)) == entry_at(
                        old(self)@.index,
                        q,
                    ).with_selected(false)
                    &&& entry_at(final(self)@.cache, old(self)@.root.path) == old(self)@.root
                    &&& forall|q: Seq<Seq<char>>| contains_path(old(self)@.cache, q)
                        && !contains_path(old(self)@.index, q) && q != old(self)@.root.path ==> (
                    #[trigger] entry_at(final(self)@.cache, q)) == entry_at(old(self)@.cache, q)
                    &&& forall|q: Seq<Seq<char>>| #[trigger] contains_path(final(self)@.index, q)
                        <==> (is_fresh_child(rs, p, q) || deep_restored(
                        final(self)@.cache,
                        rs,
                        p,
                        q,
                    ))
                    &&& forall|q: Seq<Seq<char>>| contains_path(final(self)@.index, q) ==> (
                    #[trigger] entry_at(final(self)@.index, q)) == built_entry(
                        final(self)@.cache,
                        rs,
                        p,
                        q,
                    ).with_selected(final(self)@.selected == Some(q))
                    &&& (final(self)@.index.len() > 0 ==> final(self)@.selected == Some(
                        final(self)@.index[0].path,
                    ))
                    &&& (final(self)@.index.len() == 0 ==> final(self)@.selected is None)
                },
            },
    {
        let cur = match self.selected_path() {
            Some(c) => c,
            None => {
                return ;
            },
        };
        let i0 = match self.index.find(&cur) {
            Some(i) => i,
            None => {
                proof {
                    assert(false);
                }
                return ;
            },
        };
        proof {
            lemma_entry_at(self@.index, i0 as int);
        }
        if !self.index.at(i0).is_dir() {
            return ;
        }
        let mut newroot = self.index.at(i0).duplicate();
        newroot.set_expanded(true);
        newroot.set_selected(false);
        self.stash_into_cache();
        self.drop_index();
        let ghost c2 = self@.cache;
        self.root = newroot;
        self.selected = None;
        self.index.build_children(&self.root.path, listing, &self.cache);
        let ghost rs = listing.deep_view();
        let ghost p = cur@;
        proof {
            let s2 = self@.index;
            assert(self@.root.path == p);
            lemma_built_index_inv(s2, c2, rs, p);
            assert(self.inv());
        }
        if self.index.len() > 0 {
            let fp = self.index.at(0).path.duplicate();
            proof {
                lemma_entry_at(self@.index, 0);
            }
            let ghost spre = self@.index;
            self.navigate_to(Some(fp));
            proof {
                let s2 = self@.index;
                lemma_same_paths(spre, s2);
                assert forall|q: Seq<Seq<char>>| contains_path(s2, q) implies (
                #[trigger] entry_at(s2, q)) == built_entry(c2, rs, p, q).with_selected(
                    self@.selected == Some(q),
                ) by {
                    let i = idx_of(s2, q);
                    lemma_entry_at(s2, i);
                    lemma_entry_at(spre, i);
                    assert(entry_at(spre, q) == built_entry(c2, rs, p, q));
                    assert(s2[i] == spre[i].with_selected(s2[i].selected));
                }
            }
        }
    }

    /// Make the parent of the current root the new root.  The old root and
    /// its whole subtree stay loaded — the old root reappears as an
    /// expanded, selected child of the new root — while the parent's other
    /// children come from the listing, with cached state restored beneath
    /// them.  Fails only when the current root is the filesystem root.
    #[verifier::spinoff_prover]
    #[verifier::rlimit(100)]
    pub fn set_parent_as_root(&mut self, listing: &Vec<FsRecord>) -> (r: Result<
        (),
        EngineError,
    >)
        requires
            old(self).inv(),
        ensures
            final(self).inv(),
            old(self)@.root.path.len() == 0 ==> r == Err::<(), EngineError>(
                EngineError::RootHasNoParent,
            ) && final(self)@ == old(self)@,
            old(self)@.root.path.len() > 0 ==> {
                let v0 = old(self)@;
                let v1 = final(self)@;
                let rs = listing.deep_view();
                &&& r == Ok::<(), EngineError>(())
                &&& is_parent_of(v1.root.path, v0.root.path)
                &&& v1.root.kind.is_expanded_dir()
                &&& !v1.root.selected
                &&& v1.selected == Some(v0.root.path)
                &&& forall|q: Seq<Seq<char>>| #[trigger] contains_path(v1.cache, q) <==> (
                contains_path(v0.cache, q) || contains_path(v0.index, q) || q == v0.root.path)
                &&& forall|q: Seq<Seq<char>>| contains_path(v0.index, q) ==> (#[trigger] entry_at(
                    v1.cache,
                    q,
                )) == entry_at(v0.index, q).with_selected(false)
                &&& entry_at(v1.cache, v0.root.path) == v0.root
                &&& forall|q: Seq<Seq<char>>| contains_path(v0.cache, q) && !contains_path(
                    v0.index,
                    q,
                ) && q != v0.root.path ==> (#[trigger] entry_at(v1.cache, q)) == entry_at(
                    v0.cache,
                    q,
                )
                &&& forall|q: Seq<Seq<char>>| #[trigger] contains_path(v1.index, q) <==> (q
                    == v0.root.path || contains_path(v0.index, q) || is_fresh_child(
                    rs,
                    v1.root.path,
                    q,
                ) || deep_restored(v1.cache, rs, v1.root.path, q))
                &&& entry_at(v1.index, v0.root.path) == v0.root.with_selected(true)
                &&& forall|q: Seq<Seq<char>>| contains_path(v0.index, q) ==> (#[trigger] entry_at(
                    v1.index,
                    q,
                )) == entry_at(v0.index, q).with_selected(false)
                &&& forall|q: Seq<Seq<char>>| (is_fresh_child(rs, v1.root.path, q)
                    || deep_restored(v1.cache, rs, v1.root.path, q)) && !contains_path(
                    v0.index,
                    q,
                ) && q != v0.root.path ==> (#[trigger] entry_at(v1.index, q)) == built_entry(
                    v1.cache,
                    rs,
                    v1.root.path,
                    q,
                )
            },
    {
        let ghost v0 = self@;
        let pp = match self.root.path.parent() {
            Some(pp) => pp,
            None => {
                return Err(EngineError::RootHasNoParent);
            },
        };
        let saved = self.index.duplicate();
        let oldrootentry = self.root.duplicate();
        let oldrootpath = self.root.path.duplicate();
        self.stash_into_cache();
        self.drop_index();
        let ghost c2 = self@.cache;
        let ghost s0 = v0.index;
        // The new root entry: the cache's knowledge of the parent, if it is
        // a directory, else a fresh directory entry.
        let mut nr = match self.cache.lookup(&pp) {
            Some(e) => if e.is_dir() {
                e
            } else {
                Entry::new_dir(pp.duplicate(), FsMeta::zero())
            },
            None => Entry::new_dir(pp.duplicate(), FsMeta::zero()),
        };
        nr.set_expanded(true);
        nr.set_selected(false);
        proof {
            assert(nr@.path == pp@);
        }
        self.root = nr;
        self.selected = None;
        self.index.build_children(&self.root.path, listing, &self.cache);
        let ghost rs = listing.deep_view();
        let ghost sb = self@.index;
        proof {
            lemma_built_index_inv(sb, c2, rs, pp@);
        }
        // The old root reappears as a child of the new root.
        self.index.upsert(oldrootentry);
        let ghost sr = self@.index;
        // The old root's loaded subtree reappears beneath it.
        let m = saved.len();
        let mut j: usize = 0;
        while j < m
            invariant
                j <= m,
                m == s0.len(),
                saved@ == s0,
                sorted(s0),
                sorted(sb),
                sorted(c2),
                self.index.wf(),
                self@.root.path == pp@,
                self@.root == nr@,
                self@.selected is None,
                self@.cache == c2,
                v0.root.path.len() > 0,
                is_parent_of(pp@, v0.root.path),
                forall|i: int| 0 <= i < s0.len() ==> is_strict_prefix_of(
                    v0.root.path,
                    (#[trigger] s0[i]).path,
                ),
                forall|q: Seq<Seq<char>>| #[trigger] contains_path(sr, q) <==> (contains_path(
                    sb,
                    q,
                ) || q == v0.root.path),
                entry_at(sr, v0.root.path) == v0.root,
                forall|q: Seq<Seq<char>>| contains_path(sb, q) && q != v0.root.path ==> (
                #[trigger] entry_at(sr, q)) == entry_at(sb, q),
                forall|q: Seq<Seq<char>>| #[trigger] contains_path(self@.index, q) <==> (
                contains_path(sr, q) || (exists|jj: int| 0 <= jj < j && (#[trigger] s0[jj]).path
                    == q)),
                forall|jj: int| 0 <= jj < j ==> (#[trigger] entry_at(self@.index, s0[jj].path))
                    == s0[jj].with_selected(false),
                forall|q: Seq<Seq<char>>| contains_path(sr, q) && !contains_path(s0, q) ==> (
                #[trigger] entry_at(self@.index, q)) == entry_at(sr, q),
            decreases m - j,
        {
            let ghost sprev = self@.index;
            let mut e = saved.at(j).duplicate();
            e.set_selected(false);
            self.index.upsert(e);
            proof {
                lemma_entry_at(s0, j as int);
                assert forall|jj: int| 0 <= jj < j + 1 implies (#[trigger] entry_at(
                    self@.index,
                    s0[jj].path,
                )) == s0[jj].with_selected(false) by {
                    if jj < j {
                        if s0[jj].path == s0[j as int].path {
                            lemma_distinct_paths(s0, jj, j as int);
                        } else {
                            assert(entry_at(self@.index, s0[jj].path) == entry_at(
                                sprev,
                                s0[jj].path,
                            ));
                        }
                    }
                }
                assert forall|q: Seq<Seq<char>>| contains_path(sr, q) && !contains_path(
                    s0,
                    q,
                ) implies (#[trigger] entry_at(self@.index, q)) == entry_at(sr, q) by {
                    assert(q != s0[j as int].path) by {
                        if q == s0[j as int].path {
                            assert(contains_path(s0, q));
                        }
                    }
                    assert(entry_at(self@.index, q) == entry_at(sprev, q));
                }
            }
            j += 1;
        }
        let ghost s2 = self@.index;
        proof {
            // Assemble the final membership and value picture.
            assert forall|q: Seq<Seq<char>>| #[trigger] contains_path(s2, q) <==> (q
                == v0.root.path || contains_path(s0, q) || contains_path(sb, q)) by {
                if contains_path(s0, q) {
                    let i = idx_of(s0, q);
                    lemma_entry_at(s0, i);
                }
            }
            assert(!contains_path(s0, v0.root.path)) by {
                if contains_path(s0, v0.root.path) {
                    let i = idx_of(s0, v0.root.path);
                    lemma_entry_at(s0, i);
                    assert(is_strict_prefix_of(v0.root.path, s0[i].path));
                }
            }
            assert(entry_at(s2, v0.root.path) == v0.root) by {
                assert(entry_at(s2, v0.root.path) == entry_at(sr, v0.root.path));
            }
            assert forall|q: Seq<Seq<char>>| contains_path(s0, q) implies (#[trigger] entry_at(
                s2,
                q,
            )) == entry_at(s0, q).with_selected(false) by {
                let i = idx_of(s0, q);
                lemma_entry_at(s0, i);
            }
            assert forall|q: Seq<Seq<char>>| contains_path(sb, q) && !contains_path(s0, q) && q
                != v0.root.path implies (#[trigger] entry_at(s2, q)) == built_entry(
                c2,
                rs,
                pp@,
                q,
            ) by {
                assert(entry_at(s2, q) == entry_at(sr, q));
            }
            // Invariant: strict descent below the new root.
            assert forall|i: int| 0 <= i < s2.len() implies is_strict_prefix_of(
                pp@,
                (#[trigger] s2[i]).path,
            ) && !s2[i].selected by {
                lemma_entry_at(s2, i);
                let q = s2[i].path;
                assert(contains_path(s2, q));
                if q == v0.root.path {
                    assert(s2[i] == v0.root);
                } else if contains_path(s0, q) {
                    let t = idx_of(s0, q);
                    lemma_entry_at(s0, t);
                    assert(is_strict_prefix_of(v0.root.path, q));
                    lemma_prefix_trans(pp@, v0.root.path, q);
                    assert(s2[i] == entry_at(s0, q).with_selected(false));
                } else {
                    let t = idx_of(sb, q);
                    lemma_entry_at(sb, t);
                    assert(s2[i] == entry_at(sb, q));
                    assert(!sb[t].selected);
                }
            }
            // Invariant: expanded ancestor chains.
            assert forall|i: int| 0 <= i < s2.len() implies chain_ok(
                s2,
                pp@.len() as int,
                (#[trigger] s2[i]).path,
            ) by {
                lemma_entry_at(s2, i);
                let q = s2[i].path;
                assert(contains_path(s2, q));
                assert forall|k: int| pp@.len() < k < q.len() implies contains_path(
                    s2,
                    #[trigger] q.subrange(0, k),
                ) && entry_at(s2, q.subrange(0, k)).kind.is_expanded_dir() by {
                    let a = q.subrange(0, k);
                    if contains_path(s0, q) || q == v0.root.path {
                        // Within the old root's subtree.
                        if k == pp@.len() + 1 {
                            assert(a =~= v0.root.path) by {
                                let t = idx_of(s0, q);
                                if contains_path(s0, q) {
                                    lemma_entry_at(s0, t);
                                }
                            }
                            assert(entry_at(s2, v0.root.path) == v0.root);
                            assert(v0.root.kind.is_expanded_dir());
                        } else {
                            // Covered by the old engine's own chain.
                            assert(contains_path(s0, q));
                            let t = idx_of(s0, q);
                            lemma_entry_at(s0, t);
                            assert(chain_ok(s0, v0.root.path.len() as int, q));
                            assert(v0.root.path.len() < k);
                            assert(contains_path(s0, a) && entry_at(
                                s0,
                                a,
                            ).kind.is_expanded_dir());
                            assert(entry_at(s2, a) == entry_at(s0, a).with_selected(false));
                        }
                    } else {
                        // A freshly built path.
                        assert(contains_path(sb, q));
                        assert(deep_restored(c2, rs, pp@, q)) by {
                            if is_fresh_child(rs, pp@, q) {
                                assert(q.len() == pp@.len() + 1);
                            }
                        }
                        lemma_deep_prefix(c2, rs, pp@, q, k);
                        assert(contains_path(sb, a));
                        assert(entry_at(sb, a) == built_entry(c2, rs, pp@, a));
                        assert(entry_at(c2, a).kind.is_expanded_dir());
                        if a == v0.root.path {
                            assert(entry_at(s2, a) == v0.root);
                        } else if contains_path(s0, a) {
                            assert(entry_at(s2, a) == entry_at(s0, a).with_selected(false));
                            // The cache records the live entry's state.
                            assert(entry_at(c2, a) == entry_at(s0, a).with_selected(false));
                            if k == pp@.len() + 1 {
                                assert(entry_at(sb, a).kind == entry_at(c2, a).kind || true);
                            }
                        } else {
                            assert(entry_at(s2, a) == entry_at(sb, a));
                            if k == pp@.len() + 1 {
                                assert(is_fresh_child(rs, pp@, a));
                            } else {
                                assert(entry_at(sb, a) == entry_at(c2, a).with_selected(false));
                            }
                        }
                    }
                }
            }
            assert(self.inv());
        }
        self.navigate_to(Some(oldrootpath));
        proof {
            let s3 = self@.index;
            lemma_same_paths(s2, s3);
            assert(entry_at(s3, v0.root.path) == v0.root.with_selected(true)) by {
                let i = idx_of(s2, v0.root.path);
                lemma_entry_at(s2, i);
                lemma_entry_at(s3, i);
                assert(s3[i] == s2[i].with_selected(s3[i].selected));
                assert(s3[i].selected);
            }
            assert forall|q: Seq<Seq<char>>| contains_path(s0, q) implies (#[trigger] entry_at(
                s3,
                q,
            )) == entry_at(s0, q).with_selected(false) by {
                assert(contains_path(s2, q));
                let i = idx_of(s2, q);
                lemma_entry_at(s2, i);
                lemma_entry_at(s3, i);
                assert(s3[i] == s2[i].with_selected(s3[i].selected));
                assert(q != v0.root.path);
                assert(!s3[i].selected);
            }
            assert forall|q: Seq<Seq<char>>| (is_fresh_child(rs, pp@, q) || deep_restored(
                c2,
                rs,
                pp@,
                q,
            )) && !contains_path(s0, q) && q != v0.root.path implies (#[trigger] entry_at(
                s3,
                q,
            )) == built_entry(c2, rs, pp@, q) by {
                assert(contains_path(sb, q));
                assert(contains_path(s2, q));
                let i = idx_of(s2, q);
                lemma_entry_at(s2, i);
                lemma_entry_at(s3, i);
                assert(s3[i] == s2[i].with_selected(s3[i].selected));
                assert(!s3[i].selected);
                assert(entry_at(s2, q) == built_entry(c2, rs, pp@, q));
            }
        }
        Ok(())
    }
}

} // verus!
