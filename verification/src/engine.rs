//! The per-pane explorer engine.
//!
//! An engine owns the root directory entry, the live index of loaded
//! entries, a cache of entries evicted by collapse or re-root, and the
//! selection cursor.  Its invariant ties the four together: the index is
//! sorted and holds only strict descendants of the root, no entry is
//! present whose ancestor chain is not fully expanded, and the `selected`
//! flag of the entries mirrors the cursor exactly.
//!
//! Operations that need the filesystem (expanding a directory, re-rooting)
//! take the relevant directory listing as an argument; the host reads the
//! directory and hands the records in.

use vstd::prelude::*;

use crate::entry::{Entry, EntryView};
use crate::index::{PathIndex, contains_path, entry_at, idx_of, sorted, lemma_entry_at,
    lemma_same_paths, lemma_distinct_paths};
use crate::path::{EntryPath, is_prefix_of, is_strict_prefix_of};

verus! {

/// Mathematical image of an [`ExplorerState`].
pub struct EngineView {
    pub root: EntryView,
    pub index: Seq<EntryView>,
    pub cache: Seq<EntryView>,
    pub selected: Option<Seq<Seq<char>>>,
}

/// Every directory strictly between the root and `p` that is present in
/// `s` is present as an expanded directory.
pub open spec fn chain_ok(s: Seq<EntryView>, rootlen: int, p: Seq<Seq<char>>) -> bool {
    forall|k: int| rootlen < k < p.len() ==> contains_path(s, #[trigger] p.subrange(0, k))
        && entry_at(s, p.subrange(0, k)).kind.is_expanded_dir()
}

/// An entry is visible when no collapsed directory present in the index
/// stands strictly between the root and it.
pub open spec fn visible_in(s: Seq<EntryView>, rootlen: int, p: Seq<Seq<char>>) -> bool {
    forall|k: int| rootlen < k < p.len() && contains_path(s, #[trigger] p.subrange(0, k))
        ==> entry_at(s, p.subrange(0, k)).kind.is_expanded_dir()
}

/// Expanded ancestor chains survive any update that keeps every entry's
/// path and kind.
pub proof fn lemma_chain_ok_same_kinds(
    s1: Seq<EntryView>,
    s2: Seq<EntryView>,
    rootlen: int,
    p: Seq<Seq<char>>,
)
    requires
        sorted(s1),
        s1.len() == s2.len(),
        forall|i: int| 0 <= i < s1.len() ==> (#[trigger] s2[i]).path == s1[i].path && s2[i].kind
            == s1[i].kind,
        chain_ok(s1, rootlen, p),
    ensures
        chain_ok(s2, rootlen, p),
{
    lemma_same_paths(s1, s2);
    assert forall|k: int| rootlen < k < p.len() implies contains_path(
        s2,
        #[trigger] p.subrange(0, k),
    ) && entry_at(s2, p.subrange(0, k)).kind.is_expanded_dir() by {
        let a = p.subrange(0, k);
        assert(contains_path(s1, a));
        assert(idx_of(s2, a) == idx_of(s1, a));
        assert(s2[idx_of(s1, a)].kind == s1[idx_of(s1, a)].kind);
    }
}

/// The `selected` flags of the entries mirror the cursor exactly: the flag
/// is set on the entry the cursor names and on no other.
pub open spec fn selected_ok(s: Seq<EntryView>, sel: Option<Seq<Seq<char>>>) -> bool {
    match sel {
        Option::None => forall|i: int| 0 <= i < s.len() ==> !(#[trigger] s[i]).selected,
        Option::Some(p) => contains_path(s, p) && forall|i: int|
            0 <= i < s.len() ==> ((#[trigger] s[i]).selected <==> s[i].path == p),
    }
}

/// The explorer engine of one pane.
#[derive(Debug)]
pub struct ExplorerState {
    pub root: Entry,
    pub index: PathIndex,
    pub cache: PathIndex,
    pub selected: Option<EntryPath>,
}

impl View for ExplorerState {
    type V = EngineView;

    open spec fn view(&self) -> EngineView {
        EngineView {
            root: self.root@,
            index: self.index@,
            cache: self.cache@,
            selected: match self.selected {
                Option::Some(ref p) => Option::Some(p@),
                Option::None => Option::None,
            },
        }
    }
}

/// The engine invariant, over the mathematical image of an engine.
pub open spec fn inv_view(v: EngineView) -> bool {
    &&& sorted(v.index)
    &&& sorted(v.cache)
    &&& v.root.kind.is_expanded_dir()
    &&& !v.root.selected
    &&& forall|i: int| 0 <= i < v.index.len() ==> is_strict_prefix_of(
        v.root.path,
        (#[trigger] v.index[i]).path,
    )
    &&& forall|i: int| 0 <= i < v.index.len() ==> chain_ok(
        v.index,
        v.root.path.len() as int,
        (#[trigger] v.index[i]).path,
    )
    &&& selected_ok(v.index, v.selected)
    &&& forall|i: int| 0 <= i < v.cache.len() ==> !(#[trigger] v.cache[i]).selected
}

impl ExplorerState {
    /// The engine invariant; it holds after construction and after every
    /// operation.
    pub open spec fn inv(&self) -> bool {
        inv_view(self@)
    }

    /// A copy of the currently selected path.
    pub fn selected_path(&self) -> (r: Option<EntryPath>)
        ensures
            match r {
                Some(p) => self@.selected == Some(p@),
                None => self@.selected is None,
            },
    {
        match &self.selected {
            Some(p) => Some(p.duplicate()),
            None => None,
        }
    }

    /// A copy of the root entry.
    pub fn root_entry(&self) -> (r: Entry)
        ensures
            r@ == self@.root,
    {
        self.root.duplicate()
    }

    /// A copy of the entry at the given path of the live index.
    pub fn entry(&self, p: &EntryPath) -> (r: Option<Entry>)
        ensures
            match r {
                Some(e) => contains_path(self@.index, p@) && e@.path == p@ && (exists|i: int|
                    0 <= i < self@.index.len() && (#[trigger] self@.index[i]) == e@),
                None => !contains_path(self@.index, p@),
            },
    {
        self.index.lookup(p)
    }

    /// The ordered sequence of entries a pane shows.  Under the engine
    /// invariant descendants of a collapsed directory are never held in the
    /// live index, so no held entry is ever excluded: the visible sequence
    /// is the whole index, in path order.
    pub fn visible_entries(&self) -> (r: Vec<Entry>)
        requires
            self.inv(),
        ensures
            r.deep_view().len() == self@.index.len(),
            forall|i: int| 0 <= i < r.deep_view().len() ==> (#[trigger] r.deep_view()[i])
                == self@.index[i],
            forall|i: int| 0 <= i < r.deep_view().len() ==> visible_in(
                self@.index,
                self@.root.path.len() as int,
                (#[trigger] r.deep_view()[i]).path,
            ),
    {
        let n = self.index.len();
        let mut r: Vec<Entry> = Vec::new();
        let mut i: usize = 0;
        while i < n
            invariant
                i <= n,
                n == self@.index.len(),
                r.deep_view().len() == i,
                forall|j: int| 0 <= j < i ==> (#[trigger] r.deep_view()[j]) == self@.index[j],
            decreases n - i,
        {
            let ghost rd0 = r.deep_view();
            r.push(self.index.at(i).duplicate());
            proof {
                assert(r.deep_view() =~= rd0.push(self@.index[i as int]));
            }
            i += 1;
        }
        proof {
            assert forall|j: int| 0 <= j < r.deep_view().len() implies visible_in(
                self@.index,
                self@.root.path.len() as int,
                (#[trigger] r.deep_view()[j]).path,
            ) by {
                assert(chain_ok(self@.index, self@.root.path.len() as int, self@.index[j].path));
            }
        }
        r
    }

    /// Move the cursor: clear the flag on the entry it leaves, set it on
    /// the entry it reaches.
    pub fn navigate_to(&mut self, target: Option<EntryPath>)
        requires
            old(self).inv(),
            match target {
                Some(ref p) => contains_path(old(self)@.index, p@),
                None => true,
            },
        ensures
            final(self).inv(),
            final(self)@.root == old(self)@.root,
            final(self)@.cache == old(self)@.cache,
            final(self)@.selected == (match target {
                Some(ref p) => Some(p@),
                None => None::<Seq<Seq<char>>>,
            }),
            final(self)@.index.len() == old(self)@.index.len(),
            forall|i: int| 0 <= i < old(self)@.index.len() ==> (#[trigger] final(self)@.index[i])
                == old(self)@.index[i].with_selected(final(self)@.index[i].selected),
    {
        let ghost s0 = self@.index;
        // Clear the flag of the entry the cursor leaves.
        let cur = match &self.selected {
            Some(p) => Some(p.duplicate()),
            None => None,
        };
        if let Some(cur) = cur {
            match self.index.find(&cur) {
                Some(i) => {
                    let ghost i0 = i as int;
                    let mut e = self.index.at(i).duplicate();
                    e.set_selected(false);
                    self.index.replace_at(i, e);
                    proof {
                        lemma_entry_at(s0, i0);
                        assert forall|j: int| 0 <= j < self@.index.len() implies (
                        #[trigger] self@.index[j]) == s0[j].with_selected(false) by {
                            if j != i0 {
                                assert(self@.index[j] == s0[j]);
                                if s0[j].selected {
                                    // the flag marks exactly the cursor's entry
                                    assert(s0[j].path == cur@);
                                    assert(s0[i0].path == cur@);
                                    lemma_distinct_paths(s0, j, i0);
                                }
                            }
                        }
                    }
                },
                None => {
                    proof {
                        assert(false);
                    }
                },
            }
        }
        self.selected = None;
        proof {
            assert forall|j: int| 0 <= j < self@.index.len() implies (#[trigger] self@.index[j])
                == s0[j].with_selected(false) by {
                match old(self)@.selected {
                    Option::Some(p) => {},
                    Option::None => {
                        assert(self@.index[j] == s0[j]);
                        assert(!s0[j].selected);
                    },
                }
            }
        }
        // Set the flag of the entry the cursor reaches.
        let ghost smid = self@.index;
        let ghost mut ti: int = 0;
        if let Some(t) = target {
            match self.index.find(&t) {
                Some(i) => {
                    let mut e = self.index.at(i).duplicate();
                    e.set_selected(true);
                    self.index.replace_at(i, e);
                    self.selected = Some(t);
                    proof {
                        ti = i as int;
                        assert(0 <= ti < self@.index.len());
                        assert(self@.index[ti] == smid[ti].with_selected(true));
                        assert(self@.index[ti].path == t@);
                        assert(forall|j: int| 0 <= j < self@.index.len() && j != ti ==> (
                        #[trigger] self@.index[j]) == smid[j]);
                    }
                },
                None => {
                    proof {
                        lemma_same_paths(s0, smid);
                        assert(false);
                    }
                },
            }
        }
        proof {
            let s2 = self@.index;
            let rootlen = self@.root.path.len() as int;
            assert(s2.len() == s0.len());
            assert forall|i: int| 0 <= i < s2.len() implies (#[trigger] s2[i]) == s0[i].with_selected(
                s2[i].selected,
            ) by {
                assert(smid[i] == s0[i].with_selected(false));
            }
            lemma_same_paths(s0, s2);
            match self@.selected {
                Option::Some(p) => {
                    assert(s2[ti].path == p);
                    assert(contains_path(s2, p));
                    assert forall|i: int| 0 <= i < s2.len() implies ((#[trigger] s2[i]).selected
                        <==> s2[i].path == p) by {
                        if i != ti {
                            assert(s2[i] == smid[i]);
                            assert(!smid[i].selected);
                            if s2[i].path == p {
                                lemma_distinct_paths(s2, i, ti);
                            }
                        }
                    }
                },
                Option::None => {},
            }
            assert forall|i: int| 0 <= i < s2.len() implies chain_ok(
                s2,
                rootlen,
                (#[trigger] s2[i]).path,
            ) by {
                assert(chain_ok(s0, rootlen, s0[i].path));
                lemma_chain_ok_same_kinds(s0, s2, rootlen, s0[i].path);
                assert(s2[i].path == s0[i].path);
            }
            assert forall|i: int| 0 <= i < s2.len() implies is_strict_prefix_of(
                self@.root.path,
                (#[trigger] s2[i]).path,
            ) by {
                assert(s0[i].path == s2[i].path);
            }
        }
    }

    /// Select the next visible entry.  With no cursor the first entry is
    /// selected; at the last entry the call leaves the engine unchanged.
    pub fn move_down(&mut self)
        requires
            old(self).inv(),
        ensures
            final(self).inv(),
            final(self)@.root == old(self)@.root,
            final(self)@.cache == old(self)@.cache,
            final(self)@.index.len() == old(self)@.index.len(),
            forall|i: int| 0 <= i < old(self)@.index.len() ==> (#[trigger] final(self)@.index[i])
                == old(self)@.index[i].with_selected(final(self)@.index[i].selected),
            match old(self)@.selected {
                Option::None => if old(self)@.index.len() > 0 {
                    final(self)@.selected == Some(old(self)@.index[0].path)
                } else {
                    final(self)@ == old(self)@
                },
                Option::Some(p) => {
                    let i = idx_of(old(self)@.index, p);
                    if i + 1 < old(self)@.index.len() {
                        final(self)@.selected == Some(old(self)@.index[i + 1].path)
                    } else {
                        final(self)@ == old(self)@
                    }
                },
            },
    {
        let ghost s0 = self@.index;
        let cur = self.selected_path();
        match cur {
            None => {
                if self.index.len() > 0 {
                    let p = self.index.at(0).path.duplicate();
                    proof {
                        lemma_entry_at(s0, 0);
                    }
                    self.navigate_to(Some(p));
                }
            },
            Some(p) => {
                match self.index.find(&p) {
                    Some(i) => {
                        proof {
                            lemma_entry_at(s0, i as int);
                        }
                        if i < self.index.len() - 1 {
                            let np = self.index.at(i + 1).path.duplicate();
                            proof {
                                lemma_entry_at(s0, i + 1);
                            }
                            self.navigate_to(Some(np));
                        }
                    },
                    None => {
                        proof {
                            assert(false);
                        }
                    },
                }
            },
        }
    }

    /// Select the previous visible entry.  With no cursor, or at the first
    /// entry, the call leaves the engine unchanged.
    pub fn move_up(&mut self)
        requires
            old(self).inv(),
        ensures
            final(self).inv(),
            final(self)@.root == old(self)@.root,
            final(self)@.cache == old(self)@.cache,
            final(self)@.index.len() == old(self)@.index.len(),
            forall|i: int| 0 <= i < old(self)@.index.len() ==> (#[trigger] final(self)@.index[i])
                == old(self)@.index[i].with_selected(final(self)@.index[i].selected),
            match old(self)@.selected {
                Option::None => final(self)@ == old(self)@,
                Option::Some(p) => {
                    let i = idx_of(old(self)@.index, p);
                    if i > 0 {
                        final(self)@.selected == Some(old(self)@.index[i - 1].path)
                    } else {
                        final(self)@ == old(self)@
                    }
                },
            },
    {
        let ghost s0 = self@.index;
        let cur = self.selected_path();
        match cur {
            None => {},
            Some(p) => {
                match self.index.find(&p) {
                    Some(i) => {
                        proof {
                            lemma_entry_at(s0, i as int);
                        }
                        if i > 0 {
                            let np = self.index.at(i - 1).path.duplicate();
                            proof {
                                lemma_entry_at(s0, i - 1);
                            }
                            self.navigate_to(Some(np));
                        }
                    },
                    None => {
                        proof {
                            assert(false);
                        }
                    },
                }
            },
        }
    }

    /// Clear the `marked` flag on every entry of the live index.  Cache
    /// entries keep whatever mark state they had.
    pub fn clear_marked(&mut self)
        requires
            old(self).inv(),
        ensures
            final(self).inv(),
            final(self)@.root == old(self)@.root,
            final(self)@.cache == old(self)@.cache,
            final(self)@.selected == old(self)@.selected,
            final(self)@.index.len() == old(self)@.index.len(),
            forall|i: int| 0 <= i < old(self)@.index.len() ==> (#[trigger] final(self)@.index[i])
                == old(self)@.index[i].with_marked(false),
    {
        let ghost s0 = self@.index;
        let n = self.index.len();
        let mut i: usize = 0;
        while i < n
            invariant
                i <= n,
                n == self@.index.len() == s0.len(),
                self@.cache == old(self)@.cache,
                self@.root == old(self)@.root,
                self@.selected == old(self)@.selected,
                forall|j: int| 0 <= j < i ==> (#[trigger] self@.index[j]) == s0[j].with_marked(
                    false,
                ),
                forall|j: int| i <= j < n ==> (#[trigger] self@.index[j]) == s0[j],
            decreases n - i,
        {
            let mut e = self.index.at(i).duplicate();
            e.set_marked(false);
            self.index.replace_at(i, e);
            i += 1;
        }
        proof {
            self.lemma_flags_only_inv(old(self)@);
        }
    }

    /// The old and new engine differ at most in the `selected` and `marked`
    /// flags of index entries and in the cursor; everything the invariant
    /// watches besides `selected_ok` carries over.
    proof fn lemma_flags_only_inv(&self, v0: EngineView)
        requires
            sorted(v0.index),
            sorted(self@.cache),
            self@.root == v0.root,
            v0.root.kind.is_expanded_dir(),
            !v0.root.selected,
            forall|i: int| 0 <= i < v0.index.len() ==> is_strict_prefix_of(
                v0.root.path,
                (#[trigger] v0.index[i]).path,
            ),
            forall|i: int| 0 <= i < v0.index.len() ==> chain_ok(
                v0.index,
                v0.root.path.len() as int,
                (#[trigger] v0.index[i]).path,
            ),
            selected_ok(v0.index, v0.selected),
            self@.selected == v0.selected,
            forall|i: int| 0 <= i < self@.cache.len() ==> !(#[trigger] self@.cache[i]).selected,
            self@.index.len() == v0.index.len(),
            forall|i: int| 0 <= i < self@.index.len() ==> (#[trigger] self@.index[i]).path
                == v0.index[i].path && self@.index[i].kind == v0.index[i].kind
                && self@.index[i].selected == v0.index[i].selected,
        ensures
            self.inv(),
    {
        let s0 = v0.index;
        let s1 = self@.index;
        let rootlen = self@.root.path.len() as int;
        lemma_same_paths(s0, s1);
        assert forall|i: int| 0 <= i < s1.len() implies is_strict_prefix_of(
            self@.root.path,
            (#[trigger] s1[i]).path,
        ) by {
            assert(s0[i].path == s1[i].path);
        }
        assert forall|i: int| 0 <= i < s1.len() implies chain_ok(
            s1,
            rootlen,
            (#[trigger] s1[i]).path,
        ) by {
            assert(chain_ok(s0, rootlen, s0[i].path));
            lemma_chain_ok_same_kinds(s0, s1, rootlen, s0[i].path);
            assert(s1[i].path == s0[i].path);
        }
        match self@.selected {
            Option::Some(p) => {
                assert(contains_path(s1, p));
                assert forall|i: int| 0 <= i < s1.len() implies ((#[trigger] s1[i]).selected
                    <==> s1[i].path == p) by {
                    assert(s0[i].selected <==> s0[i].path == p);
                }
            },
            Option::None => {
                assert forall|i: int| 0 <= i < s1.len() implies !(#[trigger] s1[i]).selected by {
                    assert(!s0[i].selected);
                }
            },
        }
    }

    /// Flip the mark on the selected entry, applying the entry's new mark
    /// state to every loaded descendant as well, and write the new values
    /// into the cache so they survive a later collapse.  Without a cursor
    /// the call leaves the engine unchanged.
    #[verifier::rlimit(60)]
    pub fn toggle_marked(&mut self)
        requires
            old(self).inv(),
        ensures
            final(self).inv(),
            final(self)@.root == old(self)@.root,
            final(self)@.selected == old(self)@.selected,
            match old(self)@.selected {
                Option::None => final(self)@ == old(self)@,
                Option::Some(p) => {
                    let m = !entry_at(old(self)@.index, p).marked;
                    &&& final(self)@.index.len() == old(self)@.index.len()
                    &&& forall|i: int| 0 <= i < old(self)@.index.len() ==> (
                    #[trigger] final(self)@.index[i]) == (if is_prefix_of(
                        p,
                        old(self)@.index[i].path,
                    ) {
                        old(self)@.index[i].with_marked(m)
                    } else {
                        old(self)@.index[i]
                    })
                    &&& forall|q: Seq<Seq<char>>| #[trigger] contains_path(final(self)@.cache, q)
                        <==> (contains_path(old(self)@.cache, q) || (contains_path(
                        old(self)@.index,
                        q,
                    ) && is_prefix_of(p, q)))
                    &&& forall|q: Seq<Seq<char>>| contains_path(old(self)@.index, q)
                        && is_prefix_of(p, q) ==> (#[trigger] entry_at(final(self)@.cache, q))
                        == entry_at(old(self)@.index, q).with_marked(m).with_selected(false)
                    &&& forall|q: Seq<Seq<char>>| contains_path(old(self)@.cache, q) && !(
                    contains_path(old(self)@.index, q) && is_prefix_of(p, q)) ==> (
                    #[trigger] entry_at(final(self)@.cache, q)) == entry_at(old(self)@.cache, q)
                },
            },
    {
        let ghost s0 = self@.index;
        let ghost c0 = self@.cache;
        let cur = self.selected_path();
        let cur = match cur {
            Some(c) => c,
            None => {
                return ;
            },
        };
        let i0 = match self.index.find(&cur) {
            Some(i) => i,
            None => {
                proof {
                    assert(false);
                }
                return ;
            },
        };
        proof {
            lemma_entry_at(s0, i0 as int);
        }
        let m = !self.index.at(i0).is_marked();
        // First pass: set the new mark on the selected entry and every
        // loaded descendant.
        let n = self.index.len();
        let mut i: usize = 0;
        while i < n
            invariant
                i <= n,
                n == self@.index.len() == s0.len(),
                self@.cache == c0,
                self@.root == old(self)@.root,
                self@.selected == old(self)@.selected,
                forall|j: int| 0 <= j < i ==> (#[trigger] self@.index[j]) == (if is_prefix_of(
                    cur@,
                    s0[j].path,
                ) {
                    s0[j].with_marked(m)
                } else {
                    s0[j]
                }),
                forall|j: int| i <= j < n ==> (#[trigger] self@.index[j]) == s0[j],
            decreases n - i,
        {
            if self.index.at(i).path.starts_with(&cur) {
                let mut e = self.index.at(i).duplicate();
                e.set_marked(m);
                self.index.replace_at(i, e);
            }
            i += 1;
        }
        proof {
            self.lemma_flags_only_inv(old(self)@);
        }
        // Second pass: write the affected entries into the cache so the new
        // mark state survives collapse and re-root.
        let ghost s1 = self@.index;
        let mut i: usize = 0;
        while i < n
            invariant
                i <= n,
                self.inv(),
                n == self@.index.len() == s0.len(),
                self@.index == s1,
                self@.root == old(self)@.root,
                self@.selected == old(self)@.selected,
                sorted(c0),
                forall|j: int| 0 <= j < s1.len() ==> ((#[trigger] s1[j]) == (if is_prefix_of(
                    cur@,
                    s0[j].path,
                ) {
                    s0[j].with_marked(m)
                } else {
                    s0[j]
                })),
                sorted(s0),
                forall|q: Seq<Seq<char>>| #[trigger] contains_path(self@.cache, q) <==> (
                contains_path(c0, q) || (exists|j: int| 0 <= j < i && (#[trigger] s0[j]).path == q
                    && is_prefix_of(cur@, q))),
                forall|j: int| 0 <= j < i && is_prefix_of(cur@, (#[trigger] s0[j]).path) ==>
                    entry_at(self@.cache, s0[j].path) == s0[j].with_marked(m).with_selected(false),
                forall|q: Seq<Seq<char>>| contains_path(c0, q) && !(contains_path(s0, q)
                    && is_prefix_of(cur@, q)) ==> (#[trigger] entry_at(self@.cache, q))
                    == entry_at(c0, q),
            decreases n - i,
        {
            let ghost cprev = self@.cache;
            if self.index.at(i).path.starts_with(&cur) {
                let mut e = self.index.at(i).duplicate();
                e.set_selected(false);
                self.cache.upsert(e);
                proof {
                    lemma_entry_at(s0, i as int);
                    assert(entry_at(self@.cache, s0[i as int].path) == s1[i as int].with_selected(
                        false,
                    ));
                    assert forall|t: int| 0 <= t < self@.cache.len() implies !(
                    #[trigger] self@.cache[t]).selected by {
                        lemma_entry_at(self@.cache, t);
                        let q = self@.cache[t].path;
                        if q == s1[i as int].path {
                            assert(self@.cache[t] == s1[i as int].with_selected(false));
                        } else {
                            assert(contains_path(cprev, q));
                            assert(entry_at(self@.cache, q) == entry_at(cprev, q));
                            let j = idx_of(cprev, q);
                            lemma_entry_at(cprev, j);
                            assert(!cprev[j].selected);
                        }
                    }
                    assert forall|j: int| 0 <= j < i + 1 && is_prefix_of(
                        cur@,
                        (#[trigger] s0[j]).path,
                    ) implies entry_at(self@.cache, s0[j].path) == s0[j].with_marked(
                        m,
                    ).with_selected(false) by {
                        if j < i {
                            assert(entry_at(cprev, s0[j].path) == s0[j].with_marked(
                                m,
                            ).with_selected(false));
                            if s0[j].path == s0[i as int].path {
                                lemma_distinct_paths(s0, j, i as int);
                            }
                        }
                    }
                    assert forall|q: Seq<Seq<char>>| contains_path(c0, q) && !(contains_path(
                        s0,
                        q,
                    ) && is_prefix_of(cur@, q)) implies (#[trigger] entry_at(self@.cache, q))
                        == entry_at(c0, q) by {
                        assert(q != s0[i as int].path);
                        assert(entry_at(cprev, q) == entry_at(c0, q));
                        assert(contains_path(cprev, q));
                    }
                }
            }
            i += 1;
        }
        proof {
            assert forall|q: Seq<Seq<char>>| #[trigger] contains_path(self@.cache, q) <==> (
            contains_path(c0, q) || (contains_path(s0, q) && is_prefix_of(cur@, q))) by {
                if contains_path(s0, q) && is_prefix_of(cur@, q) {
                    let j = idx_of(s0, q);
                    lemma_entry_at(s0, j);
                }
            }
            assert forall|q: Seq<Seq<char>>| contains_path(s0, q) && is_prefix_of(
                cur@,
                q,
            ) implies (#[trigger] entry_at(self@.cache, q)) == entry_at(s0, q).with_marked(
                m,
            ).with_selected(false) by {
                let j = idx_of(s0, q);
                lemma_entry_at(s0, j);
                assert(entry_at(self@.cache, s0[j].path) == s0[j].with_marked(m).with_selected(
                    false,
                ));
            }
        }
    }
}

} // verus!
