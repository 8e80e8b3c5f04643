//! Moving marked entries from one pane into the other.
//!
//! The engine decides which marked paths to move and how both panes'
//! indices change; the host performs the actual renames between the two
//! steps.  [`ExplorerState::move_plan`] lists the marked paths in ascending
//! order, skipping any path below an earlier one; the host renames as many
//! as it can, in order, and hands the count of successful renames to
//! [`ExplorerState::apply_moves`], which removes the moved subtrees from
//! the source pane and registers the moved entries in the destination
//! pane.  Renames already performed are never rolled back.

use vstd::prelude::*;

use crate::entry::{Entry, EntryView};
use crate::engine::{ExplorerState, EngineView, chain_ok, selected_ok};
use crate::index::{contains_path, entry_at, idx_of, sorted, in_removed_set, lemma_entry_at,
    lemma_distinct_paths};
use crate::path::{EntryPath, is_prefix_of, is_strict_prefix_of, path_lt, lemma_prefix_trans};

verus! {

/// A marked path that no marked path above it claims: the unit of one
/// cross-pane move.
pub open spec fn top_marked(s: Seq<EntryView>, q: Seq<Seq<char>>) -> bool {
    &&& contains_path(s, q)
    &&& entry_at(s, q).marked
    &&& forall|i: int| 0 <= i < s.len() && is_strict_prefix_of((#[trigger] s[i]).path, q)
        ==> !s[i].marked
}

/// `q` lies at or below one of the first `done` planned paths.
pub open spec fn moved_under(planv: Seq<Seq<Seq<char>>>, done: int, q: Seq<Seq<char>>) -> bool {
    exists|k: int| 0 <= k < done && is_prefix_of(#[trigger] planv[k], q)
}

impl ExplorerState {
    /// The paths one cross-pane move will rename: every marked path of the
    /// live index, in ascending path order, except those lying below an
    /// earlier marked path.
    pub fn move_plan(&self) -> (plan: Vec<EntryPath>)
        requires
            self.inv(),
        ensures
            forall|k: int| 0 <= k < plan.deep_view().len() ==> top_marked(
                self@.index,
                #[trigger] plan.deep_view()[k],
            ),
            forall|q: Seq<Seq<char>>| #[trigger] top_marked(self@.index, q) ==> (exists|k: int|
                0 <= k < plan.deep_view().len() && plan.deep_view()[k] == q),
            forall|k1: int, k2: int| 0 <= k1 < k2 < plan.deep_view().len() ==> path_lt(
                #[trigger] plan.deep_view()[k1],
                #[trigger] plan.deep_view()[k2],
            ),
    {
        let ghost s = self@.index;
        let n = self.index.len();
        let mut plan: Vec<EntryPath> = Vec::new();
        let ghost mut src: Seq<int> = Seq::empty();
        let mut i: usize = 0;
        while i < n
            invariant
                i <= n,
                n == s.len(),
                self@.index == s,
                sorted(s),
                plan.deep_view().len() == src.len(),
                forall|k: int| 0 <= k < src.len() ==> 0 <= #[trigger] src[k] < i,
                forall|k: int| 0 <= k < src.len() ==> #[trigger] plan.deep_view()[k]
                    == s[src[k]].path,
                forall|k1: int, k2: int| 0 <= k1 < k2 < src.len() ==> #[trigger] src[k1]
                    < #[trigger] src[k2],
                forall|k: int| 0 <= k < src.len() ==> top_marked(s, #[trigger] plan.deep_view()[k]),
                forall|j: int| 0 <= j < i && top_marked(s, (#[trigger] s[j]).path) ==> (exists|
                    k: int,
                |
                    0 <= k < src.len() && src[k] == j),
            decreases n - i,
        {
            let mut skip = false;
            if !self.index.at(i).is_marked() {
                skip = true;
            } else {
                // Skip the path when a marked strict ancestor is loaded.
                let mut t: usize = 0;
                while t < n && !skip
                    invariant
                        t <= n,
                        n == s.len(),
                        self@.index == s,
                        i < n,
                        skip ==> exists|x: int| 0 <= x < n && is_strict_prefix_of(
                            (#[trigger] s[x]).path,
                            s[i as int].path,
                        ) && s[x].marked,
                        !skip ==> forall|x: int| 0 <= x < t && is_strict_prefix_of(
                            (#[trigger] s[x]).path,
                            s[i as int].path,
                        ) ==> !s[x].marked,
                    decreases n - t, (if skip { 0int } else { 1int }),
                {
                    if self.index.at(t).is_marked() && self.index.at(i).path.starts_with(
                        &self.index.at(t).path,
                    ) && !self.index.at(t).path.eq_path(&self.index.at(i).path) {
                        proof {
                            assert(is_strict_prefix_of(s[t as int].path, s[i as int].path)) by {
                                if s[t as int].path.len() == s[i as int].path.len() {
                                    assert(s[t as int].path =~= s[i as int].path);
                                }
                            }
                        }
                        skip = true;
                    } else {
                        t += 1;
                    }
                }
                if skip {
                    proof {
                        lemma_entry_at(s, i as int);
                        let x = choose|x: int| 0 <= x < n && is_strict_prefix_of(
                            (#[trigger] s[x]).path,
                            s[i as int].path,
                        ) && s[x].marked;
                        assert(!top_marked(s, s[i as int].path));
                    }
                }
            }
            if !skip {
                let ghost d0 = plan.deep_view();
                plan.push(self.index.at(i).path.duplicate());
                proof {
                    assert(plan.deep_view() =~= d0.push(s[i as int].path));
                    let src0 = src;
                    src = src.push(i as int);
                    lemma_entry_at(s, i as int);
                    assert(top_marked(s, s[i as int].path));
                    assert forall|j: int| 0 <= j < i + 1 && top_marked(
                        s,
                        (#[trigger] s[j]).path,
                    ) implies (exists|k: int| 0 <= k < src.len() && src[k] == j) by {
                        if j == i {
                            assert(src[src.len() - 1] == j);
                        } else {
                            let k = choose|k: int| 0 <= k < src0.len() && src0[k] == j;
                            assert(src[k] == j);
                        }
                    }
                }
            } else {
                proof {
                    lemma_entry_at(s, i as int);
                }
            }
            i += 1;
        }
        proof {
            assert forall|q: Seq<Seq<char>>| #[trigger] top_marked(s, q) implies (exists|k: int|
                0 <= k < plan.deep_view().len() && plan.deep_view()[k] == q) by {
                let j = idx_of(s, q);
                lemma_entry_at(s, j);
                assert(top_marked(s, s[j].path));
                let k = choose|k: int| 0 <= k < src.len() && src[k] == j;
                assert(plan.deep_view()[k] == q);
            }
            assert forall|k1: int, k2: int| 0 <= k1 < k2 < plan.deep_view().len() implies
                path_lt(#[trigger] plan.deep_view()[k1], #[trigger] plan.deep_view()[k2]) by {
                assert(plan.deep_view()[k1] == s[src[k1]].path);
                assert(plan.deep_view()[k2] == s[src[k2]].path);
            }
        }
        plan
    }

    /// Register the outcome of the host's renames: the first `done` planned
    /// subtrees leave this pane's index and cache, and for each one the
    /// moved entry itself — re-addressed below `dest`, unmarked — enters
    /// the other pane's index and cache, replacing anything that held its
    /// new path.  A cursor whose entry was moved away is dropped.  The
    /// re-addressed entries are returned in plan order.
    #[verifier::spinoff_prover]
    #[verifier::rlimit(100)]
    pub fn apply_moves(
        &mut self,
        plan: &Vec<EntryPath>,
        done: usize,
        dest: &EntryPath,
        other: &mut ExplorerState,
    ) -> (moved: Vec<Entry>)
        requires
            old(self).inv(),
            old(other).inv(),
            done <= plan.deep_view().len(),
            dest@ == old(other)@.root.path,
            forall|k: int| 0 <= k < done ==> top_marked(
                old(self)@.index,
                #[trigger] plan.deep_view()[k],
            ),
            forall|k1: int, k2: int| 0 <= k1 < k2 < done ==> path_lt(
                #[trigger] plan.deep_view()[k1],
                #[trigger] plan.deep_view()[k2],
            ),
        ensures
            final(self).inv(),
            final(other).inv(),
            final(self)@.root == old(self)@.root,
            final(other)@.root == old(other)@.root,
            forall|q: Seq<Seq<char>>| #[trigger] contains_path(final(self)@.index, q) <==> (
            contains_path(old(self)@.index, q) && !moved_under(
                plan.deep_view(),
                done as int,
                q,
            )),
            forall|q: Seq<Seq<char>>| contains_path(final(self)@.index, q) ==> (
            #[trigger] entry_at(final(self)@.index, q)) == entry_at(old(self)@.index, q),
            forall|q: Seq<Seq<char>>| #[trigger] contains_path(final(self)@.cache, q) <==> (
            contains_path(old(self)@.cache, q) && !moved_under(
                plan.deep_view(),
                done as int,
                q,
            )),
            final(self)@.selected == (match old(self)@.selected {
                Option::Some(p) => if moved_under(plan.deep_view(), done as int, p) {
                    None
                } else {
                    Some(p)
                },
                Option::None => None::<Seq<Seq<char>>>,
            }),
            forall|q: Seq<Seq<char>>| #[trigger] contains_path(final(other)@.index, q) <==> ((
            contains_path(old(other)@.index, q) || (exists|k: int| 0 <= k < done && q
                == old(other)@.root.path.push((#[trigger] plan.deep_view()[k]).last())))
                && !(exists|k: int| 0 <= k < done && is_strict_prefix_of(
                old(other)@.root.path.push((#[trigger] plan.deep_view()[k]).last()),
                q,
            ))),
            forall|q: Seq<Seq<char>>| contains_path(old(other)@.index, q) && !(exists|k: int|
                0 <= k < done && is_prefix_of(
                    old(other)@.root.path.push((#[trigger] plan.deep_view()[k]).last()),
                    q,
                )) ==> (#[trigger] entry_at(final(other)@.index, q)) == entry_at(
                old(other)@.index,
                q,
            ),
            forall|k: int| 0 <= k < done ==> contains_path(
                final(other)@.index,
                old(other)@.root.path.push((#[trigger] plan.deep_view()[k]).last()),
            ) && !entry_at(
                final(other)@.index,
                old(other)@.root.path.push(plan.deep_view()[k].last()),
            ).marked,
            forall|q: Seq<Seq<char>>| #[trigger] contains_path(final(other)@.cache, q) <==> ((
            contains_path(old(other)@.cache, q) || (exists|k: int| 0 <= k < done && q
                == old(other)@.root.path.push((#[trigger] plan.deep_view()[k]).last())))
                && !(exists|k: int| 0 <= k < done && is_strict_prefix_of(
                old(other)@.root.path.push((#[trigger] plan.deep_view()[k]).last()),
                q,
            ))),
            final(other)@.selected == (match old(other)@.selected {
                Option::Some(sp) => if exists|k: int|
                    0 <= k < done && is_strict_prefix_of(
                        old(other)@.root.path.push((#[trigger] plan.deep_view()[k]).last()),
                        sp,
                    ) {
                    None
                } else {
                    Some(sp)
                },
                Option::None => None::<Seq<Seq<char>>>,
            }),
            moved.deep_view().len() == done,
            forall|k: int| 0 <= k < done ==> (#[trigger] moved.deep_view()[k]) == entry_at(
                old(self)@.index,
                plan.deep_view()[k],
            ).with_path(old(other)@.root.path.push(plan.deep_view()[k].last())).with_marked(
                false,
            ).with_selected(false),
    {
        let ghost planv = plan.deep_view();
        let ghost vA0 = old(self)@;
        let ghost vB0 = old(other)@;
        let ghost sA0 = vA0.index;
        let ghost cA0 = vA0.cache;
        let ghost sB0 = vB0.index;
        let ghost cB0 = vB0.cache;
        let mut moved: Vec<Entry> = Vec::new();
        let mut k: usize = 0;
        while k < done
            invariant
                k <= done,
                done <= planv.len(),
                planv == plan.deep_view(),
                dest@ == vB0.root.path,
                vA0 == old(self)@,
                vB0 == old(other)@,
                old(self).inv(),
                old(other).inv(),
                sorted(sA0),
                sorted(cA0),
                sorted(sB0),
                sorted(cB0),
                vA0.root.kind.is_expanded_dir(),
                !vA0.root.selected,
                vB0.root.kind.is_expanded_dir(),
                !vB0.root.selected,
                forall|i: int| 0 <= i < sA0.len() ==> is_strict_prefix_of(
                    vA0.root.path,
                    (#[trigger] sA0[i]).path,
                ),
                forall|i: int| 0 <= i < sA0.len() ==> chain_ok(
                    sA0,
                    vA0.root.path.len() as int,
                    (#[trigger] sA0[i]).path,
                ),
                forall|i: int| 0 <= i < sB0.len() ==> is_strict_prefix_of(
                    vB0.root.path,
                    (#[trigger] sB0[i]).path,
                ),
                forall|i: int| 0 <= i < sB0.len() ==> chain_ok(
                    sB0,
                    vB0.root.path.len() as int,
                    (#[trigger] sB0[i]).path,
                ),
                selected_ok(sA0, vA0.selected),
                selected_ok(sB0, vB0.selected),
                self@.root == vA0.root,
                other@.root == vB0.root,
                self@.selected == vA0.selected,
                other@.selected == vB0.selected,
                self.index.wf(),
                self.cache.wf(),
                other.index.wf(),
                other.cache.wf(),
                forall|k2: int| 0 <= k2 < done ==> top_marked(sA0, #[trigger] planv[k2]),
                forall|k1: int, k2: int| 0 <= k1 < k2 < done ==> path_lt(
                    #[trigger] planv[k1],
                    #[trigger] planv[k2],
                ),
                forall|q: Seq<Seq<char>>| #[trigger] contains_path(self@.index, q) <==> (
                contains_path(sA0, q) && !moved_under(planv, k as int, q)),
                forall|q: Seq<Seq<char>>| contains_path(self@.index, q) ==> (#[trigger] entry_at(
                    self@.index,
                    q,
                )) == entry_at(sA0, q),
                forall|q: Seq<Seq<char>>| #[trigger] contains_path(self@.cache, q) <==> (
                contains_path(cA0, q) && !moved_under(planv, k as int, q)),
                forall|q: Seq<Seq<char>>| contains_path(self@.cache, q) ==> (#[trigger] entry_at(
                    self@.cache,
                    q,
                )) == entry_at(cA0, q),
                forall|q: Seq<Seq<char>>| #[trigger] contains_path(other@.index, q) <==> ((
                contains_path(sB0, q) || (exists|k2: int| 0 <= k2 < k && q == vB0.root.path.push(
                    (#[trigger] planv[k2]).last(),
                ))) && !(exists|k2: int| 0 <= k2 < k && is_strict_prefix_of(
                    vB0.root.path.push((#[trigger] planv[k2]).last()),
                    q,
                ))),
                forall|q: Seq<Seq<char>>| contains_path(sB0, q) && !(exists|k2: int| 0 <= k2 < k
                    && is_prefix_of(vB0.root.path.push((#[trigger] planv[k2]).last()), q)) ==> (
                #[trigger] entry_at(other@.index, q)) == entry_at(sB0, q),
                forall|k2: int| 0 <= k2 < k ==> contains_path(
                    other@.index,
                    vB0.root.path.push((#[trigger] planv[k2]).last()),
                ) && !entry_at(
                    other@.index,
                    vB0.root.path.push(planv[k2].last()),
                ).marked,
                forall|q: Seq<Seq<char>>| #[trigger] contains_path(other@.cache, q) <==> ((
                contains_path(cB0, q) || (exists|k2: int| 0 <= k2 < k && q == vB0.root.path.push(
                    (#[trigger] planv[k2]).last(),
                ))) && !(exists|k2: int| 0 <= k2 < k && is_strict_prefix_of(
                    vB0.root.path.push((#[trigger] planv[k2]).last()),
                    q,
                ))),
                forall|i: int| 0 <= i < self@.index.len() ==> ((
                #[trigger] self@.index[i]).selected <==> (match vA0.selected {
                    Option::Some(p) => self@.index[i].path == p,
                    Option::None => false,
                })),
                forall|i: int| 0 <= i < other@.index.len() ==> ((
                #[trigger] other@.index[i]).selected <==> (match vB0.selected {
                    Option::Some(p) => other@.index[i].path == p,
                    Option::None => false,
                })),
                forall|i: int| 0 <= i < self@.cache.len() ==> !(
                #[trigger] self@.cache[i]).selected,
                forall|i: int| 0 <= i < other@.cache.len() ==> !(
                #[trigger] other@.cache[i]).selected,
                moved.deep_view().len() == k,
                forall|k2: int| 0 <= k2 < k ==> (#[trigger] moved.deep_view()[k2]) == entry_at(
                    sA0,
                    planv[k2],
                ).with_path(vB0.root.path.push(planv[k2].last())).with_marked(
                    false,
                ).with_selected(false),
            decreases done - k,
        {
            let ghost np = vB0.root.path.push(planv[k as int].last());
            proof {
                assert(planv[k as int] == plan@[k as int]@);
                assert(top_marked(sA0, planv[k as int]));
                assert(!moved_under(planv, k as int, planv[k as int])) by {
                    if moved_under(planv, k as int, planv[k as int]) {
                        let k2 = choose|k2: int| 0 <= k2 < k && is_prefix_of(
                            #[trigger] planv[k2],
                            planv[k as int],
                        );
                        if planv[k2] == planv[k as int] {
                            crate::path::lemma_path_lt_irrefl(planv[k2]);
                        } else {
                            assert(is_strict_prefix_of(planv[k2], planv[k as int])) by {
                                if planv[k2].len() == planv[k as int].len() {
                                    assert(planv[k2] =~= planv[k as int]);
                                }
                            }
                            let i2 = idx_of(sA0, planv[k2]);
                            lemma_entry_at(sA0, i2);
                            assert(entry_at(sA0, planv[k2]).marked);
                            assert(is_strict_prefix_of(sA0[i2].path, planv[k as int]));
                            assert(!sA0[i2].marked);
                        }
                    }
                }
                assert(contains_path(self@.index, planv[k as int]));
                assert(sorted(sA0));
                assert(planv[k as int].len() > 0) by {
                    assert(contains_path(sA0, planv[k as int]));
                    let i = idx_of(sA0, planv[k as int]);
                    lemma_entry_at(sA0, i);
                    assert(0 <= i < sA0.len());
                    assert(is_strict_prefix_of(vA0.root.path, sA0[i].path));
                }
            }
            let p_ref = &plan[k];
            let ent = match self.index.lookup(p_ref) {
                Some(e) => e,
                None => {
                    proof {
                        assert(false);
                    }
                    return moved;
                },
            };
            proof {
                let i = choose|i: int| 0 <= i < self@.index.len() && (#[trigger] self@.index[i])
                    == ent@;
                lemma_entry_at(self@.index, i);
                assert(ent@ == entry_at(self@.index, planv[k as int]));
                assert(ent@ == entry_at(sA0, planv[k as int]));
            }
            let newpath = dest.join(p_ref.basename());
            proof {
                assert(newpath@ == np);
            }
            let mut rep = ent;
            rep.set_path(newpath.duplicate());
            rep.set_marked(false);
            rep.set_selected(false);
            proof {
                assert(rep@ == entry_at(sA0, planv[k as int]).with_path(np).with_marked(
                    false,
                ).with_selected(false));
            }
            // Does the destination pane's cursor sit on the new path?
            let mut flag = false;
            match other.index.find(&newpath) {
                Some(bi) => {
                    proof {
                        lemma_entry_at(other@.index, bi as int);
                    }
                    if other.index.at(bi).is_selected() {
                        flag = true;
                    }
                },
                None => {},
            }
            proof {
                assert(flag == (vB0.selected == Some(np))) by {
                    match vB0.selected {
                        Option::Some(sp) => {
                            if sp == np && !flag {
                                // The cursor's entry is always present: it
                                // is either untouched or was re-inserted
                                // with its flag kept.
                                assert(contains_path(sB0, sp));
                                assert(!(exists|k2: int| 0 <= k2 < k && is_strict_prefix_of(
                                    vB0.root.path.push((#[trigger] planv[k2]).last()),
                                    sp,
                                ))) by {
                                    if exists|k2: int| 0 <= k2 < k && is_strict_prefix_of(
                                        vB0.root.path.push((#[trigger] planv[k2]).last()),
                                        sp,
                                    ) {
                                        let k2 = choose|k2: int| 0 <= k2 < k
                                            && is_strict_prefix_of(
                                            vB0.root.path.push((#[trigger] planv[k2]).last()),
                                            sp,
                                        );
                                        assert(vB0.root.path.push(planv[k2].last()).len()
                                            == sp.len());
                                    }
                                }
                                assert(contains_path(other@.index, sp));
                                let i = idx_of(other@.index, sp);
                                lemma_entry_at(other@.index, i);
                                assert(other@.index[i].selected);
                            }
                        },
                        Option::None => {},
                    }
                }
            }
            let mut ixe = rep.duplicate();
            ixe.set_selected(flag);
            let ghost sa_prev = self@.index;
            let ghost ca_prev = self@.cache;
            let ghost sb_prev = other@.index;
            let ghost cb_prev = other@.cache;
            let _ra = self.index.remove_subtree(p_ref, false);
            let _rc = self.cache.remove_subtree(p_ref, false);
            let _rb = other.index.remove_subtree(&newpath, false);
            let _rbc = other.cache.remove_subtree(&newpath, false);
            other.index.upsert(ixe);
            other.cache.upsert(rep.duplicate());
            let ghost d0 = moved.deep_view();
            moved.push(rep);
            proof {
                assert(moved.deep_view() =~= d0.push(entry_at(sA0, planv[k as int]).with_path(
                    np,
                ).with_marked(false).with_selected(false)));
                // Source membership advances by one planned subtree.
                assert forall|q: Seq<Seq<char>>| #[trigger] contains_path(self@.index, q) <==> (
                contains_path(sA0, q) && !moved_under(planv, k + 1, q)) by {
                    if contains_path(sA0, q) {
                        if moved_under(planv, k + 1, q) && !moved_under(planv, k as int, q) {
                            let k2 = choose|k2: int| 0 <= k2 < k + 1 && is_prefix_of(
                                #[trigger] planv[k2],
                                q,
                            );
                            assert(k2 == k as int);
                            assert(in_removed_set(planv[k as int], false, q));
                        }
                        if !moved_under(planv, k + 1, q) {
                            assert(!moved_under(planv, k as int, q)) by {
                                if moved_under(planv, k as int, q) {
                                    let k2 = choose|k2: int| 0 <= k2 < k && is_prefix_of(
                                        #[trigger] planv[k2],
                                        q,
                                    );
                                }
                            }
                            assert(!in_removed_set(planv[k as int], false, q));
                        }
                    }
                }
                assert forall|q: Seq<Seq<char>>| #[trigger] contains_path(self@.cache, q) <==> (
                contains_path(cA0, q) && !moved_under(planv, k + 1, q)) by {
                    if contains_path(cA0, q) {
                        if moved_under(planv, k + 1, q) && !moved_under(planv, k as int, q) {
                            let k2 = choose|k2: int| 0 <= k2 < k + 1 && is_prefix_of(
                                #[trigger] planv[k2],
                                q,
                            );
                            assert(k2 == k as int);
                            assert(in_removed_set(planv[k as int], false, q));
                        }
                        if !moved_under(planv, k + 1, q) {
                            assert(!moved_under(planv, k as int, q)) by {
                                if moved_under(planv, k as int, q) {
                                    let k2 = choose|k2: int| 0 <= k2 < k && is_prefix_of(
                                        #[trigger] planv[k2],
                                        q,
                                    );
                                }
                            }
                            assert(!in_removed_set(planv[k as int], false, q));
                        }
                    }
                }
                // Destination membership: the new path replaces its subtree.
                assert forall|q: Seq<Seq<char>>| #[trigger] contains_path(other@.index, q) <==> ((
                contains_path(sB0, q) || (exists|k2: int| 0 <= k2 < k + 1 && q
                    == vB0.root.path.push((#[trigger] planv[k2]).last()))) && !(exists|k2: int|
                    0 <= k2 < k + 1 && is_strict_prefix_of(
                        vB0.root.path.push((#[trigger] planv[k2]).last()),
                        q,
                    ))) by {
                    if q == np {
                        assert(contains_path(other@.index, q));
                        assert(exists|k2: int| 0 <= k2 < k + 1 && q == vB0.root.path.push(
                            (#[trigger] planv[k2]).last(),
                        )) by {
                            assert(np == vB0.root.path.push((#[trigger] planv[k as int]).last()));
                        }
                        assert(!(exists|k2: int| 0 <= k2 < k + 1 && is_strict_prefix_of(
                            vB0.root.path.push((#[trigger] planv[k2]).last()),
                            q,
                        ))) by {
                            if exists|k2: int| 0 <= k2 < k + 1 && is_strict_prefix_of(
                                vB0.root.path.push((#[trigger] planv[k2]).last()),
                                q,
                            ) {
                                let k2 = choose|k2: int| 0 <= k2 < k + 1 && is_strict_prefix_of(
                                    vB0.root.path.push((#[trigger] planv[k2]).last()),
                                    q,
                                );
                                assert(vB0.root.path.push(planv[k2].last()).len() == q.len());
                            }
                        }
                    } else {
                        if contains_path(other@.index, q) {
                            assert(contains_path(sb_prev, q) && !is_prefix_of(np, q));
                        }
                        if ((contains_path(sB0, q) || (exists|k2: int| 0 <= k2 < k + 1 && q
                            == vB0.root.path.push((#[trigger] planv[k2]).last()))) && !(exists|
                            k2: int,
                        |
                            0 <= k2 < k + 1 && is_strict_prefix_of(
                                vB0.root.path.push((#[trigger] planv[k2]).last()),
                                q,
                            ))) {
                            assert(!is_prefix_of(np, q)) by {
                                if is_prefix_of(np, q) {
                                    assert(is_strict_prefix_of(np, q)) by {
                                        if np.len() == q.len() {
                                            assert(np =~= q);
                                        }
                                    }
                                    assert(np == vB0.root.path.push(
                                        (#[trigger] planv[k as int]).last(),
                                    ));
                                }
                            }
                            if exists|k2: int| 0 <= k2 < k && q == vB0.root.path.push(
                                (#[trigger] planv[k2]).last(),
                            ) {
                                assert(contains_path(sb_prev, q));
                            } else {
                                assert(contains_path(sB0, q));
                                assert(!(exists|k2: int| 0 <= k2 < k && is_strict_prefix_of(
                                    vB0.root.path.push((#[trigger] planv[k2]).last()),
                                    q,
                                )));
                                assert(contains_path(sb_prev, q));
                            }
                        }
                    }
                }
                assert forall|q: Seq<Seq<char>>| #[trigger] contains_path(other@.cache, q) <==> ((
                contains_path(cB0, q) || (exists|k2: int| 0 <= k2 < k + 1 && q
                    == vB0.root.path.push((#[trigger] planv[k2]).last()))) && !(exists|k2: int|
                    0 <= k2 < k + 1 && is_strict_prefix_of(
                        vB0.root.path.push((#[trigger] planv[k2]).last()),
                        q,
                    ))) by {
                    if q == np {
                        assert(contains_path(other@.cache, q));
                        assert(np == vB0.root.path.push((#[trigger] planv[k as int]).last()));
                        assert(!(exists|k2: int| 0 <= k2 < k + 1 && is_strict_prefix_of(
                            vB0.root.path.push((#[trigger] planv[k2]).last()),
                            q,
                        ))) by {
                            if exists|k2: int| 0 <= k2 < k + 1 && is_strict_prefix_of(
                                vB0.root.path.push((#[trigger] planv[k2]).last()),
                                q,
                            ) {
                                let k2 = choose|k2: int| 0 <= k2 < k + 1 && is_strict_prefix_of(
                                    vB0.root.path.push((#[trigger] planv[k2]).last()),
                                    q,
                                );
                                assert(vB0.root.path.push(planv[k2].last()).len() == q.len());
                            }
                        }
                    } else {
                        if contains_path(other@.cache, q) {
                            assert(contains_path(cb_prev, q) && !is_prefix_of(np, q));
                        }
                        if ((contains_path(cB0, q) || (exists|k2: int| 0 <= k2 < k + 1 && q
                            == vB0.root.path.push((#[trigger] planv[k2]).last()))) && !(exists|
                            k2: int,
                        |
                            0 <= k2 < k + 1 && is_strict_prefix_of(
                                vB0.root.path.push((#[trigger] planv[k2]).last()),
                                q,
                            ))) {
                            assert(!is_prefix_of(np, q)) by {
                                if is_prefix_of(np, q) {
                                    assert(is_strict_prefix_of(np, q)) by {
                                        if np.len() == q.len() {
                                            assert(np =~= q);
                                        }
                                    }
                                    assert(np == vB0.root.path.push(
                                        (#[trigger] planv[k as int]).last(),
                                    ));
                                }
                            }
                            if exists|k2: int| 0 <= k2 < k && q == vB0.root.path.push(
                                (#[trigger] planv[k2]).last(),
                            ) {
                                assert(contains_path(cb_prev, q));
                            } else {
                                assert(contains_path(cB0, q));
                                assert(!(exists|k2: int| 0 <= k2 < k && is_strict_prefix_of(
                                    vB0.root.path.push((#[trigger] planv[k2]).last()),
                                    q,
                                )));
                                assert(contains_path(cb_prev, q));
                            }
                        }
                    }
                }
                // Values and flags.
                assert forall|q: Seq<Seq<char>>| contains_path(self@.index, q) implies (
                #[trigger] entry_at(self@.index, q)) == entry_at(sA0, q) by {
                    assert(contains_path(sa_prev, q));
                    assert(entry_at(self@.index, q) == entry_at(sa_prev, q));
                }
                assert forall|q: Seq<Seq<char>>| contains_path(self@.cache, q) implies (
                #[trigger] entry_at(self@.cache, q)) == entry_at(cA0, q) by {
                    assert(contains_path(ca_prev, q));
                    assert(entry_at(self@.cache, q) == entry_at(ca_prev, q));
                }
                assert forall|q: Seq<Seq<char>>| contains_path(sB0, q) && !(exists|k2: int|
                    0 <= k2 < k + 1 && is_prefix_of(
                        vB0.root.path.push((#[trigger] planv[k2]).last()),
                        q,
                    )) implies (#[trigger] entry_at(other@.index, q)) == entry_at(sB0, q) by {
                    assert(q != np) by {
                        if q == np {
                            assert(np == vB0.root.path.push((#[trigger] planv[k as int]).last()));
                            assert(is_prefix_of(np, q));
                        }
                    }
                    assert(!(exists|k2: int| 0 <= k2 < k && is_prefix_of(
                        vB0.root.path.push((#[trigger] planv[k2]).last()),
                        q,
                    )));
                    assert(!is_prefix_of(np, q)) by {
                        assert(np == vB0.root.path.push((#[trigger] planv[k as int]).last()));
                    }
                    assert(contains_path(sb_prev, q));
                    assert(entry_at(sb_prev, q) == entry_at(sB0, q));
                    assert(contains_path(other@.index, q));
                    assert(entry_at(other@.index, q) == entry_at(sb_prev, q));
                }
                assert forall|k2: int| 0 <= k2 < k + 1 implies contains_path(
                    other@.index,
                    vB0.root.path.push((#[trigger] planv[k2]).last()),
                ) && !entry_at(
                    other@.index,
                    vB0.root.path.push(planv[k2].last()),
                ).marked by {
                    let q2 = vB0.root.path.push(planv[k2].last());
                    if q2 == np {
                        assert(entry_at(other@.index, np) == ixe@);
                    } else {
                        assert(k2 < k);
                        assert(contains_path(sb_prev, q2));
                        assert(!is_prefix_of(np, q2)) by {
                            if is_prefix_of(np, q2) {
                                assert(np =~= q2);
                            }
                        }
                        assert(contains_path(other@.index, q2));
                        assert(entry_at(other@.index, q2) == entry_at(sb_prev, q2));
                    }
                }
                // Positional flags.
                assert forall|i: int| 0 <= i < self@.index.len() implies ((
                #[trigger] self@.index[i]).selected <==> (match vA0.selected {
                    Option::Some(p) => self@.index[i].path == p,
                    Option::None => false,
                })) by {
                    lemma_entry_at(self@.index, i);
                    let q = self@.index[i].path;
                    assert(contains_path(self@.index, q));
                    assert(contains_path(sa_prev, q));
                    assert(self@.index[i] == entry_at(sa_prev, q));
                    let t = idx_of(sa_prev, q);
                    lemma_entry_at(sa_prev, t);
                }
                assert forall|i: int| 0 <= i < other@.index.len() implies ((
                #[trigger] other@.index[i]).selected <==> (match vB0.selected {
                    Option::Some(p) => other@.index[i].path == p,
                    Option::None => false,
                })) by {
                    lemma_entry_at(other@.index, i);
                    let q = other@.index[i].path;
                    assert(contains_path(other@.index, q));
                    if q == np {
                        assert(other@.index[i] == ixe@);
                    } else {
                        assert(contains_path(sb_prev, q) && !is_prefix_of(np, q));
                        assert(entry_at(other@.index, q) == entry_at(sb_prev, q));
                        let t = idx_of(sb_prev, q);
                        lemma_entry_at(sb_prev, t);
                    }
                }
                assert forall|i: int| 0 <= i < self@.cache.len() implies !(
                #[trigger] self@.cache[i]).selected by {
                    lemma_entry_at(self@.cache, i);
                    let q = self@.cache[i].path;
                    assert(contains_path(self@.cache, q));
                    assert(contains_path(ca_prev, q));
                    assert(self@.cache[i] == entry_at(ca_prev, q));
                    let t = idx_of(ca_prev, q);
                    lemma_entry_at(ca_prev, t);
                }
                assert forall|i: int| 0 <= i < other@.cache.len() implies !(
                #[trigger] other@.cache[i]).selected by {
                    lemma_entry_at(other@.cache, i);
                    let q = other@.cache[i].path;
                    assert(contains_path(other@.cache, q));
                    if q == np {
                        assert(other@.cache[i] == entry_at(other@.cache, np));
                    } else {
                        assert(contains_path(cb_prev, q) && !is_prefix_of(np, q));
                        assert(entry_at(other@.cache, q) == entry_at(cb_prev, q));
                        let t = idx_of(cb_prev, q);
                        lemma_entry_at(cb_prev, t);
                    }
                }
            }
            k += 1;
        }
        proof {
            // Pin the cache facts down before the cursor fix below mutates
            // the engines.
            assert(forall|i: int| 0 <= i < self@.cache.len() ==> !(
            #[trigger] self@.cache[i]).selected);
        }
        // Drop a cursor whose entry was moved away.
        let acur = self.selected_path();
        if let Some(ap) = acur {
            match self.index.find(&ap) {
                Some(i) => {
                    proof {
                        assert(self@.index[i as int].path == ap@);
                        assert(contains_path(self@.index, ap@));
                        assert(!moved_under(planv, done as int, ap@));
                    }
                },
                None => {
                    self.selected = None;
                    proof {
                        assert(vA0.selected == Some(ap@));
                        assert(contains_path(sA0, ap@));
                        assert(moved_under(planv, done as int, ap@));
                    }
                },
            }
        }
        let bcur = other.selected_path();
        if let Some(bp) = bcur {
            match other.index.find(&bp) {
                Some(i) => {
                    proof {
                        assert(other@.index[i as int].path == bp@);
                        assert(contains_path(other@.index, bp@));
                        assert(!(exists|k2: int| 0 <= k2 < done && is_strict_prefix_of(
                            vB0.root.path.push((#[trigger] planv[k2]).last()),
                            bp@,
                        ))) by {
                            if exists|k2: int| 0 <= k2 < done && is_strict_prefix_of(
                                vB0.root.path.push((#[trigger] planv[k2]).last()),
                                bp@,
                            ) {
                                assert(contains_path(other@.index, bp@));
                            }
                        }
                    }
                },
                None => {
                    other.selected = None;
                    proof {
                        assert(vB0.selected == Some(bp@));
                        assert(contains_path(sB0, bp@));
                        assert(exists|k2: int| 0 <= k2 < done && is_strict_prefix_of(
                            vB0.root.path.push((#[trigger] planv[k2]).last()),
                            bp@,
                        )) by {
                            if !(exists|k2: int| 0 <= k2 < done && is_strict_prefix_of(
                                vB0.root.path.push((#[trigger] planv[k2]).last()),
                                bp@,
                            )) {
                                assert(contains_path(other@.index, bp@));
                            }
                        }
                    }
                },
            }
        }
        proof {
            assert(forall|i: int| 0 <= i < self@.cache.len() ==> !(
            #[trigger] self@.cache[i]).selected);
            self.lemma_moved_source_inv(vA0, planv, done as int);
            other.lemma_moved_dest_inv(vB0, planv, done as int);
        }
        moved
    }

    /// After the moved subtrees left, the source engine's invariant holds
    /// again.
    proof fn lemma_moved_source_inv(&self, v0: EngineView, planv: Seq<Seq<Seq<char>>>, done: int)
        requires
            sorted(v0.index),
            sorted(self@.cache),
            self.index.wf(),
            self@.root == v0.root,
            v0.root.kind.is_expanded_dir(),
            !v0.root.selected,
            forall|i: int| 0 <= i < v0.index.len() ==> is_strict_prefix_of(
                v0.root.path,
                (#[trigger] v0.index[i]).path,
            ),
            forall|i: int| 0 <= i < v0.index.len() ==> chain_ok(
                v0.index,
                v0.root.path.len() as int,
                (#[trigger] v0.index[i]).path,
            ),
            forall|q: Seq<Seq<char>>| #[trigger] contains_path(self@.index, q) <==> (
            contains_path(v0.index, q) && !moved_under(planv, done, q)),
            forall|q: Seq<Seq<char>>| contains_path(self@.index, q) ==> (#[trigger] entry_at(
                self@.index,
                q,
            )) == entry_at(v0.index, q),
            forall|i: int| 0 <= i < self@.cache.len() ==> !(#[trigger] self@.cache[i]).selected,
            forall|i: int| 0 <= i < self@.index.len() ==> ((#[trigger] self@.index[i]).selected
                <==> (match self@.selected {
                Option::Some(p) => self@.index[i].path == p,
                Option::None => false,
            })),
            match self@.selected {
                Option::Some(p) => contains_path(self@.index, p),
                Option::None => true,
            },
        ensures
            self.inv(),
    {
        let s2 = self@.index;
        let rootlen = self@.root.path.len() as int;
        assert forall|i: int| 0 <= i < s2.len() implies is_strict_prefix_of(
            self@.root.path,
            (#[trigger] s2[i]).path,
        ) && chain_ok(s2, rootlen, s2[i].path) by {
            lemma_entry_at(s2, i);
            let q = s2[i].path;
            assert(contains_path(s2, q));
            assert(contains_path(v0.index, q));
            let t = idx_of(v0.index, q);
            lemma_entry_at(v0.index, t);
            assert(chain_ok(v0.index, rootlen, q));
            assert forall|kk: int| rootlen < kk < q.len() implies contains_path(
                s2,
                #[trigger] q.subrange(0, kk),
            ) && entry_at(s2, q.subrange(0, kk)).kind.is_expanded_dir() by {
                let a = q.subrange(0, kk);
                assert(contains_path(v0.index, a) && entry_at(v0.index, a).kind.is_expanded_dir());
                assert(is_prefix_of(a, q)) by {
                    assert(forall|x: int| 0 <= x < kk ==> a[x] == q[x]);
                }
                assert(!moved_under(planv, done, a)) by {
                    if moved_under(planv, done, a) {
                        let k2 = choose|k2: int| 0 <= k2 < done && is_prefix_of(
                            #[trigger] planv[k2],
                            a,
                        );
                        lemma_prefix_trans(planv[k2], a, q);
                        assert(moved_under(planv, done, q));
                    }
                }
                assert(contains_path(s2, a));
                assert(entry_at(s2, a) == entry_at(v0.index, a));
            }
        }
    }

    /// After the moved entries arrived, the destination engine's invariant
    /// holds again.
    proof fn lemma_moved_dest_inv(&self, v0: EngineView, planv: Seq<Seq<Seq<char>>>, done: int)
        requires
            sorted(v0.index),
            sorted(self@.cache),
            self.index.wf(),
            self@.root == v0.root,
            v0.root.kind.is_expanded_dir(),
            !v0.root.selected,
            forall|i: int| 0 <= i < v0.index.len() ==> is_strict_prefix_of(
                v0.root.path,
                (#[trigger] v0.index[i]).path,
            ),
            forall|i: int| 0 <= i < v0.index.len() ==> chain_ok(
                v0.index,
                v0.root.path.len() as int,
                (#[trigger] v0.index[i]).path,
            ),
            forall|q: Seq<Seq<char>>| #[trigger] contains_path(self@.index, q) <==> ((
            contains_path(v0.index, q) || (exists|k2: int| 0 <= k2 < done && q
                == v0.root.path.push((#[trigger] planv[k2]).last()))) && !(exists|k2: int|
                0 <= k2 < done && is_strict_prefix_of(
                    v0.root.path.push((#[trigger] planv[k2]).last()),
                    q,
                ))),
            forall|q: Seq<Seq<char>>| contains_path(v0.index, q) && !(exists|k2: int|
                0 <= k2 < done && is_prefix_of(
                    v0.root.path.push((#[trigger] planv[k2]).last()),
                    q,
                )) ==> (#[trigger] entry_at(self@.index, q)) == entry_at(v0.index, q),
            forall|i: int| 0 <= i < self@.cache.len() ==> !(#[trigger] self@.cache[i]).selected,
            forall|i: int| 0 <= i < self@.index.len() ==> ((#[trigger] self@.index[i]).selected
                <==> (match self@.selected {
                Option::Some(p) => self@.index[i].path == p,
                Option::None => false,
            })),
            match self@.selected {
                Option::Some(p) => contains_path(self@.index, p),
                Option::None => true,
            },
        ensures
            self.inv(),
    {
        let s2 = self@.index;
        let rootlen = self@.root.path.len() as int;
        assert forall|i: int| 0 <= i < s2.len() implies is_strict_prefix_of(
            self@.root.path,
            (#[trigger] s2[i]).path,
        ) && chain_ok(s2, rootlen, s2[i].path) by {
            lemma_entry_at(s2, i);
            let q = s2[i].path;
            assert(contains_path(s2, q));
            if contains_path(v0.index, q) {
                let t = idx_of(v0.index, q);
                lemma_entry_at(v0.index, t);
                assert(is_strict_prefix_of(self@.root.path, q));
            } else {
                let k2 = choose|k2: int| 0 <= k2 < done && q == v0.root.path.push(
                    (#[trigger] planv[k2]).last(),
                );
                assert(q.len() == v0.root.path.len() + 1);
                assert(is_strict_prefix_of(self@.root.path, q)) by {
                    assert(forall|x: int| 0 <= x < v0.root.path.len() ==> v0.root.path[x] == q[x]);
                }
            }
            assert forall|kk: int| rootlen < kk < q.len() implies contains_path(
                s2,
                #[trigger] q.subrange(0, kk),
            ) && entry_at(s2, q.subrange(0, kk)).kind.is_expanded_dir() by {
                let a = q.subrange(0, kk);
                // Only an original entry can lie deeper than one level.
                assert(contains_path(v0.index, q)) by {
                    if !contains_path(v0.index, q) {
                        let k2 = choose|k2: int| 0 <= k2 < done && q == v0.root.path.push(
                            (#[trigger] planv[k2]).last(),
                        );
                        assert(q.len() == v0.root.path.len() + 1);
                    }
                }
                let t = idx_of(v0.index, q);
                lemma_entry_at(v0.index, t);
                assert(chain_ok(v0.index, rootlen, q));
                assert(contains_path(v0.index, a) && entry_at(v0.index, a).kind.is_expanded_dir());
                assert(is_prefix_of(a, q)) by {
                    assert(forall|x: int| 0 <= x < kk ==> a[x] == q[x]);
                }
                assert(!(exists|k2: int| 0 <= k2 < done && is_prefix_of(
                    v0.root.path.push((#[trigger] planv[k2]).last()),
                    a,
                ))) by {
                    if exists|k2: int| 0 <= k2 < done && is_prefix_of(
                        v0.root.path.push((#[trigger] planv[k2]).last()),
                        a,
                    ) {
                        let k2 = choose|k2: int| 0 <= k2 < done && is_prefix_of(
                            v0.root.path.push((#[trigger] planv[k2]).last()),
                            a,
                        );
                        let np2 = v0.root.path.push(planv[k2].last());
                        lemma_prefix_trans(np2, a, q);
                        assert(is_strict_prefix_of(np2, q)) by {
                            assert(np2.len() <= a.len() < q.len());
                        }
                        assert(!contains_path(s2, q));
                    }
                }
                assert(!(exists|k2: int| 0 <= k2 < done && is_strict_prefix_of(
                    v0.root.path.push((#[trigger] planv[k2]).last()),
                    a,
                ))) by {
                    if exists|k2: int| 0 <= k2 < done && is_strict_prefix_of(
                        v0.root.path.push((#[trigger] planv[k2]).last()),
                        a,
                    ) {
                        let k2 = choose|k2: int| 0 <= k2 < done && is_strict_prefix_of(
                            v0.root.path.push((#[trigger] planv[k2]).last()),
                            a,
                        );
                        assert(is_prefix_of(v0.root.path.push((planv[k2]).last()), a));
                    }
                }
                assert(contains_path(s2, a));
                assert(entry_at(s2, a) == entry_at(v0.index, a));
            }
        }
    }
}

} // verus!
