//! The path index: an ordered mapping from absolute path to entry.
//!
//! Entries are kept in a vector strictly sorted by the lexicographic path
//! order of [`crate::path`].  Because a child path extends its parent's
//! component sequence, a directory's descendants occupy one contiguous
//! block immediately after it, which is the traversal order used for
//! navigation.  The same structure serves as the live view of an explorer
//! pane and as its cache of evicted entries.

use vstd::prelude::*;

use crate::entry::{Entry, EntryView};
use crate::path::{EntryPath, is_prefix_of, path_lt, lemma_path_lt_irrefl, lemma_path_lt_total,
    lemma_path_lt_trans, lemma_path_lt_asym};

verus! {

/// Strictly ascending path order; in particular no path occurs twice.
pub open spec fn sorted(s: Seq<EntryView>) -> bool {
    forall|i: int, j: int| 0 <= i < j < s.len() ==> path_lt(#[trigger] s[i].path, #[trigger] s[j].path)
}

/// Some entry of `s` has path `p`.
pub open spec fn contains_path(s: Seq<EntryView>, p: Seq<Seq<char>>) -> bool {
    exists|i: int| 0 <= i < s.len() && (#[trigger] s[i].path) == p
}

/// The position of the entry with path `p`; meaningful under [`sorted`]
/// when [`contains_path`] holds.
pub open spec fn idx_of(s: Seq<EntryView>, p: Seq<Seq<char>>) -> int {
    choose|i: int| 0 <= i < s.len() && (#[trigger] s[i].path) == p
}

/// The entry of `s` with path `p`.
pub open spec fn entry_at(s: Seq<EntryView>, p: Seq<Seq<char>>) -> EntryView {
    s[idx_of(s, p)]
}

/// The paths evicted when the subtree below `base` leaves an index:
/// everything at or below `base`, except `base` itself when it is kept.
pub open spec fn in_removed_set(
    base: Seq<Seq<char>>,
    keep_base: bool,
    p: Seq<Seq<char>>,
) -> bool {
    is_prefix_of(base, p) && (!keep_base || p != base)
}

/// Under [`sorted`], positions determine paths uniquely.
pub proof fn lemma_distinct_paths(s: Seq<EntryView>, i: int, j: int)
    requires
        sorted(s),
        0 <= i < s.len(),
        0 <= j < s.len(),
        i != j,
    ensures
        s[i].path != s[j].path,
{
    if i < j {
        lemma_path_lt_irrefl(s[i].path);
    } else {
        lemma_path_lt_irrefl(s[i].path);
    }
}

/// Under [`sorted`], `entry_at` recovers exactly the entry at any position.
pub proof fn lemma_entry_at(s: Seq<EntryView>, i: int)
    requires
        sorted(s),
        0 <= i < s.len(),
    ensures
        contains_path(s, s[i].path),
        idx_of(s, s[i].path) == i,
        entry_at(s, s[i].path) == s[i],
{
    assert(contains_path(s, s[i].path));
    let j = idx_of(s, s[i].path);
    if j != i {
        lemma_distinct_paths(s, i, j);
    }
}

/// Two entry sequences with the same paths in the same positions agree on
/// sortedness, membership and positions.
pub proof fn lemma_same_paths(s1: Seq<EntryView>, s2: Seq<EntryView>)
    requires
        sorted(s1),
        s1.len() == s2.len(),
        forall|i: int| 0 <= i < s1.len() ==> (#[trigger] s2[i]).path == s1[i].path,
    ensures
        sorted(s2),
        forall|q: Seq<Seq<char>>| #[trigger] contains_path(s2, q) <==> contains_path(s1, q),
        forall|q: Seq<Seq<char>>| #[trigger] contains_path(s1, q) ==> idx_of(s2, q) == idx_of(
            s1,
            q,
        ),
{
    assert forall|x: int, y: int| 0 <= x < y < s2.len() implies path_lt(
        s2[x].path,
        s2[y].path,
    ) by {
        assert(s2[x].path == s1[x].path);
        assert(s2[y].path == s1[y].path);
    }
    assert forall|q: Seq<Seq<char>>| #[trigger] contains_path(s2, q) implies contains_path(
        s1,
        q,
    ) by {
        let i = choose|i: int| 0 <= i < s2.len() && (#[trigger] s2[i].path) == q;
        assert(s1[i].path == q);
    }
    assert forall|q: Seq<Seq<char>>| #[trigger] contains_path(s1, q) implies contains_path(
        s2,
        q,
    ) by {
        let i = choose|i: int| 0 <= i < s1.len() && (#[trigger] s1[i].path) == q;
        assert(s2[i].path == q);
    }
    assert forall|q: Seq<Seq<char>>| #[trigger] contains_path(s1, q) implies idx_of(s2, q)
        == idx_of(s1, q) by {
        let i = idx_of(s1, q);
        assert(0 <= i < s1.len() && s1[i].path == q);
        assert(s2[i].path == q);
        lemma_entry_at(s2, i);
    }
}

/// The path index.
#[derive(Debug)]
pub struct PathIndex {
    pub entries: Vec<Entry>,
}

impl View for PathIndex {
    type V = Seq<EntryView>;

    open spec fn view(&self) -> Seq<EntryView> {
        self.entries.deep_view()
    }
}

impl PathIndex {
    /// The ordering invariant.
    pub open spec fn wf(&self) -> bool {
        sorted(self@)
    }

    pub fn new() -> (r: PathIndex)
        ensures
            r@ == Seq::<EntryView>::empty(),
            r.wf(),
    {
        let r = PathIndex { entries: Vec::new() };
        proof {
            assert(r@ =~= Seq::<EntryView>::empty());
        }
        r
    }

    pub fn len(&self) -> (n: usize)
        ensures
            n == self@.len(),
    {
        self.entries.len()
    }

    /// Structural copy; the view is preserved exactly.
    pub fn duplicate(&self) -> (r: PathIndex)
        ensures
            r@ == self@,
    {
        let n = self.entries.len();
        let mut entries: Vec<Entry> = Vec::new();
        let mut i: usize = 0;
        while i < n
            invariant
                i <= n,
                n == self@.len(),
                entries.deep_view().len() == i,
                forall|j: int| 0 <= j < i ==> (#[trigger] entries.deep_view()[j]) == self@[j],
            decreases n - i,
        {
            let ghost d0 = entries.deep_view();
            entries.push(self.entries[i].duplicate());
            proof {
                assert(entries.deep_view() =~= d0.push(self@[i as int]));
            }
            i += 1;
        }
        let r = PathIndex { entries };
        proof {
            assert(r@ =~= self@);
        }
        r
    }

    pub fn at(&self, i: usize) -> (r: &Entry)
        requires
            i < self@.len(),
        ensures
            r@ == self@[i as int],
    {
        &self.entries[i]
    }

    /// Linear search for the entry with the given path.
    pub fn find(&self, p: &EntryPath) -> (r: Option<usize>)
        ensures
            match r {
                Some(i) => i < self@.len() && self@[i as int].path == p@,
                None => !contains_path(self@, p@),
            },
    {
        let n = self.entries.len();
        let mut i: usize = 0;
        while i < n
            invariant
                i <= n,
                n == self@.len(),
                forall|j: int| 0 <= j < i ==> (#[trigger] self@[j].path) != p@,
            decreases n - i,
        {
            if self.entries[i].path.eq_path(p) {
                return Some(i);
            }
            i += 1;
        }
        None
    }

    /// A copy of the entry with the given path, if present.
    pub fn lookup(&self, p: &EntryPath) -> (r: Option<Entry>)
        ensures
            match r {
                Some(e) => contains_path(self@, p@) && e@.path == p@ && (exists|i: int|
                    0 <= i < self@.len() && (#[trigger] self@[i]) == e@),
                None => !contains_path(self@, p@),
            },
    {
        match self.find(p) {
            Some(i) => {
                let e = self.entries[i].duplicate();
                proof {
                    assert(self@[i as int] == e@);
                }
                Some(e)
            },
            None => None,
        }
    }

    /// Replace the entry at a position by another with the same path.
    pub fn replace_at(&mut self, i: usize, e: Entry)
        requires
            i < old(self)@.len(),
            e@.path == old(self)@[i as int].path,
        ensures
            final(self)@ == old(self)@.update(i as int, e@),
            old(self).wf() ==> final(self).wf(),
    {
        self.entries[i] = e;
        proof {
            assert(final(self)@ =~= old(self)@.update(i as int, e@));
            if old(self).wf() {
                assert forall|x: int, y: int| 0 <= x < y < final(self)@.len() implies path_lt(
                    final(self)@[x].path,
                    final(self)@[y].path,
                ) by {
                    assert(old(self)@[x].path == final(self)@[x].path);
                    assert(old(self)@[y].path == final(self)@[y].path);
                }
            }
        }
    }

    /// Insert an entry, replacing any entry that already has its path.
    pub fn upsert(&mut self, e: Entry)
        requires
            old(self).wf(),
        ensures
            final(self).wf(),
            contains_path(final(self)@, e@.path),
            entry_at(final(self)@, e@.path) == e@,
            forall|q: Seq<Seq<char>>| #[trigger] contains_path(final(self)@, q) <==> (contains_path(
                old(self)@,
                q,
            ) || q == e@.path),
            forall|q: Seq<Seq<char>>| contains_path(old(self)@, q) && q != e@.path ==> (
            #[trigger] entry_at(final(self)@, q)) == entry_at(old(self)@, q),
    {
        let ghost s0 = self@;
        let n = self.entries.len();
        let mut pos: usize = 0;
        while pos < n && self.entries[pos].path.lt(&e.path)
            invariant
                pos <= n,
                n == self@.len(),
                self@ == s0,
                forall|j: int| 0 <= j < pos ==> path_lt(#[trigger] self@[j].path, e@.path),
            decreases n - pos,
        {
            pos += 1;
        }
        // pos is the first position whose path is not below e's path.
        proof {
            if pos < n {
                if self@[pos as int].path != e@.path {
                    lemma_path_lt_total(self@[pos as int].path, e@.path);
                }
            }
        }
        if pos < n && self.entries[pos].path.eq_path(&e.path) {
            let ghost epath = e@.path;
            self.replace_at(pos, e);
            proof {
                self.lemma_upsert_replace(s0, epath, pos as int);
            }
        } else {
            let ghost epath = e@.path;
            let ghost entries0 = self.entries@;
            self.entries.insert(pos, e);
            proof {
                entries0.insert_ensures(pos as int, self.entries@[pos as int]);
                assert(forall|j: int| 0 <= j < pos ==> self@[j] == s0[j]);
                assert forall|j: int| pos < j < self@.len() implies self@[j] == s0[j - 1] by {
                    assert(self.entries@[j] == entries0[j - 1]);
                }
                self.lemma_upsert_insert(s0, epath, pos as int);
            }
        }
    }

    /// Move the whole subtree below `base` out of the index, returning the
    /// evicted entries in ascending path order.  With `keep_base` the entry
    /// at `base` itself stays.
    #[verifier::spinoff_prover]
    #[verifier::rlimit(100)]
    pub fn remove_subtree(&mut self, base: &EntryPath, keep_base: bool) -> (removed: Vec<Entry>)
        requires
            old(self).wf(),
        ensures
            final(self).wf(),
            sorted(removed.deep_view()),
            forall|q: Seq<Seq<char>>| #[trigger] contains_path(final(self)@, q) <==> (
            contains_path(old(self)@, q) && !in_removed_set(base@, keep_base, q)),
            forall|q: Seq<Seq<char>>| #[trigger] contains_path(removed.deep_view(), q) <==> (
            contains_path(old(self)@, q) && in_removed_set(base@, keep_base, q)),
            forall|q: Seq<Seq<char>>| contains_path(final(self)@, q) ==> (#[trigger] entry_at(
                final(self)@,
                q,
            )) == entry_at(old(self)@, q),
            forall|q: Seq<Seq<char>>| contains_path(removed.deep_view(), q) ==> (
            #[trigger] entry_at(removed.deep_view(), q)) == entry_at(old(self)@, q),
    {
        let ghost s0 = self@;
        let mut kept: Vec<Entry> = Vec::new();
        let mut rem: Vec<Entry> = Vec::new();
        let ghost mut ksrc: Seq<int> = Seq::empty();
        let ghost mut rsrc: Seq<int> = Seq::empty();
        let n = self.entries.len();
        let mut i: usize = 0;
        while i < n
            invariant
                i <= n,
                n == self@.len(),
                self@ == s0,
                sorted(s0),
                kept.deep_view().len() == ksrc.len(),
                rem.deep_view().len() == rsrc.len(),
                forall|k: int| 0 <= k < ksrc.len() ==> 0 <= #[trigger] ksrc[k] < i,
                forall|k: int| 0 <= k < ksrc.len() ==> #[trigger] kept.deep_view()[k] == s0[ksrc[k]]
                    && !in_removed_set(base@, keep_base, s0[ksrc[k]].path),
                forall|k: int| 0 <= k < rsrc.len() ==> 0 <= #[trigger] rsrc[k] < i,
                forall|k: int| 0 <= k < rsrc.len() ==> #[trigger] rem.deep_view()[k] == s0[rsrc[k]]
                    && in_removed_set(base@, keep_base, s0[rsrc[k]].path),
                forall|k1: int, k2: int| 0 <= k1 < k2 < ksrc.len() ==> #[trigger] ksrc[k1]
                    < #[trigger] ksrc[k2],
                forall|k1: int, k2: int| 0 <= k1 < k2 < rsrc.len() ==> #[trigger] rsrc[k1]
                    < #[trigger] rsrc[k2],
                forall|j: int| 0 <= j < i && !in_removed_set(base@, keep_base, (#[trigger] s0[j]).path)
                    ==> exists|k: int| 0 <= k < ksrc.len() && ksrc[k] == j,
                forall|j: int| 0 <= j < i && in_removed_set(base@, keep_base, (#[trigger] s0[j]).path)
                    ==> exists|k: int| 0 <= k < rsrc.len() && rsrc[k] == j,
            decreases n - i,
        {
            let e = self.entries[i].duplicate();
            proof {
                assert(e@ == s0[i as int]);
            }
            let in_sub = e.path.starts_with(base);
            let is_base = if keep_base {
                e.path.eq_path(base)
            } else {
                false
            };
            if in_sub && !is_base {
                let ghost rdeep0 = rem.deep_view();
                rem.push(e);
                proof {
                    assert(rem.deep_view() =~= rdeep0.push(s0[i as int]));
                    let rsrc0 = rsrc;
                    rsrc = rsrc.push(i as int);
                    assert forall|j: int| 0 <= j < i + 1 && in_removed_set(
                        base@,
                        keep_base,
                        (#[trigger] s0[j]).path,
                    ) implies exists|k: int| 0 <= k < rsrc.len() && rsrc[k] == j by {
                        if j == i {
                            assert(rsrc[rsrc.len() - 1] == j);
                        } else {
                            let k = choose|k: int| 0 <= k < rsrc0.len() && rsrc0[k] == j;
                            assert(rsrc[k] == j);
                        }
                    }
                }
            } else {
                let ghost kdeep0 = kept.deep_view();
                kept.push(e);
                proof {
                    assert(kept.deep_view() =~= kdeep0.push(s0[i as int]));
                    let ksrc0 = ksrc;
                    ksrc = ksrc.push(i as int);
                    assert forall|j: int| 0 <= j < i + 1 && !in_removed_set(
                        base@,
                        keep_base,
                        (#[trigger] s0[j]).path,
                    ) implies exists|k: int| 0 <= k < ksrc.len() && ksrc[k] == j by {
                        if j == i {
                            assert(ksrc[ksrc.len() - 1] == j);
                        } else {
                            let k = choose|k: int| 0 <= k < ksrc0.len() && ksrc0[k] == j;
                            assert(ksrc[k] == j);
                        }
                    }
                }
            }
            i += 1;
        }
        self.entries = kept;
        proof {
            let s1 = self@;
            let rd = rem.deep_view();
            assert forall|x: int, y: int| 0 <= x < y < s1.len() implies path_lt(
                s1[x].path,
                s1[y].path,
            ) by {
                assert(s1[x] == s0[ksrc[x]]);
                assert(s1[y] == s0[ksrc[y]]);
            }
            assert forall|x: int, y: int| 0 <= x < y < rd.len() implies path_lt(
                rd[x].path,
                rd[y].path,
            ) by {
                assert(rd[x] == s0[rsrc[x]]);
                assert(rd[y] == s0[rsrc[y]]);
            }
            assert forall|q: Seq<Seq<char>>| #[trigger] contains_path(s1, q) implies (
            contains_path(s0, q) && !in_removed_set(base@, keep_base, q)) by {
                let k = choose|k: int| 0 <= k < s1.len() && (#[trigger] s1[k].path) == q;
                assert(s1[k] == s0[ksrc[k]]);
                assert(s0[ksrc[k]].path == q);
            }
            assert forall|q: Seq<Seq<char>>| contains_path(s0, q) && !in_removed_set(
                base@,
                keep_base,
                q,
            ) implies #[trigger] contains_path(s1, q) by {
                let j = choose|j: int| 0 <= j < s0.len() && (#[trigger] s0[j].path) == q;
                let k = choose|k: int| 0 <= k < ksrc.len() && ksrc[k] == j;
                assert(s1[k].path == q);
            }
            assert forall|q: Seq<Seq<char>>| #[trigger] contains_path(rd, q) implies (
            contains_path(s0, q) && in_removed_set(base@, keep_base, q)) by {
                let k = choose|k: int| 0 <= k < rd.len() && (#[trigger] rd[k].path) == q;
                assert(rd[k] == s0[rsrc[k]]);
                assert(s0[rsrc[k]].path == q);
            }
            assert forall|q: Seq<Seq<char>>| contains_path(s0, q) && in_removed_set(
                base@,
                keep_base,
                q,
            ) implies #[trigger] contains_path(rd, q) by {
                let j = choose|j: int| 0 <= j < s0.len() && (#[trigger] s0[j].path) == q;
                let k = choose|k: int| 0 <= k < rsrc.len() && rsrc[k] == j;
                assert(rd[k].path == q);
            }
            assert forall|q: Seq<Seq<char>>| contains_path(s1, q) implies (#[trigger] entry_at(
                s1,
                q,
            )) == entry_at(s0, q) by {
                let k = idx_of(s1, q);
                assert(0 <= k < s1.len() && s1[k].path == q);
                assert(s1[k] == s0[ksrc[k]]);
                lemma_entry_at(s1, k);
                lemma_entry_at(s0, ksrc[k]);
            }
            assert forall|q: Seq<Seq<char>>| contains_path(rd, q) implies (#[trigger] entry_at(
                rd,
                q,
            )) == entry_at(s0, q) by {
                let k = idx_of(rd, q);
                assert(0 <= k < rd.len() && rd[k].path == q);
                assert(rd[k] == s0[rsrc[k]]);
                lemma_entry_at(rd, k);
                lemma_entry_at(s0, rsrc[k]);
            }
        }
        rem
    }

    proof fn lemma_upsert_replace(&self, s0: Seq<EntryView>, epath: Seq<Seq<char>>, pos: int)
        requires
            sorted(s0),
            0 <= pos < s0.len(),
            s0[pos].path == epath,
            self@ == s0.update(pos, self@[pos]),
            self@[pos].path == epath,
        ensures
            self.wf(),
            contains_path(self@, epath),
            entry_at(self@, epath) == self@[pos],
            forall|q: Seq<Seq<char>>| #[trigger] contains_path(self@, q) <==> (contains_path(
                s0,
                q,
            ) || q == epath),
            forall|q: Seq<Seq<char>>| contains_path(s0, q) && q != epath ==> (#[trigger] entry_at(
                self@,
                q,
            )) == entry_at(s0, q),
    {
        let s1 = self@;
        assert forall|x: int, y: int| 0 <= x < y < s1.len() implies path_lt(
            s1[x].path,
            s1[y].path,
        ) by {
            assert(s1[x].path == s0[x].path);
            assert(s1[y].path == s0[y].path);
        }
        lemma_entry_at(s1, pos);
        assert forall|q: Seq<Seq<char>>| #[trigger] contains_path(s1, q) implies (contains_path(
            s0,
            q,
        ) || q == epath) by {
            let i = choose|i: int| 0 <= i < s1.len() && (#[trigger] s1[i].path) == q;
            if i != pos {
                assert(s0[i].path == q);
            }
        }
        assert forall|q: Seq<Seq<char>>| contains_path(s0, q) || q == epath implies
            #[trigger] contains_path(s1, q) by {
            if q == epath {
                assert(s1[pos].path == q);
            } else {
                let i = choose|i: int| 0 <= i < s0.len() && (#[trigger] s0[i].path) == q;
                if i == pos {
                    assert(q == epath);
                } else {
                    assert(s1[i].path == q);
                }
            }
        }
        assert forall|q: Seq<Seq<char>>| contains_path(s0, q) && q != epath implies
            (#[trigger] entry_at(s1, q)) == entry_at(s0, q) by {
            let i = choose|i: int| 0 <= i < s0.len() && (#[trigger] s0[i].path) == q;
            assert(i != pos);
            assert(s1[i] == s0[i]);
            lemma_entry_at(s1, i);
            lemma_entry_at(s0, i);
        }
    }

    proof fn lemma_upsert_insert(&self, s0: Seq<EntryView>, epath: Seq<Seq<char>>, pos: int)
        requires
            sorted(s0),
            0 <= pos <= s0.len(),
            self@.len() == s0.len() + 1,
            forall|j: int| 0 <= j < pos ==> #[trigger] self@[j] == s0[j],
            forall|j: int| pos < j < self@.len() ==> #[trigger] self@[j] == s0[j - 1],
            self@[pos].path == epath,
            forall|j: int| 0 <= j < pos ==> path_lt(#[trigger] s0[j].path, epath),
            pos < s0.len() ==> path_lt(epath, s0[pos].path),
        ensures
            self.wf(),
            contains_path(self@, epath),
            entry_at(self@, epath) == self@[pos],
            forall|q: Seq<Seq<char>>| #[trigger] contains_path(self@, q) <==> (contains_path(
                s0,
                q,
            ) || q == epath),
            forall|q: Seq<Seq<char>>| contains_path(s0, q) && q != epath ==> (#[trigger] entry_at(
                self@,
                q,
            )) == entry_at(s0, q),
    {
        let s1 = self@;
        assert forall|x: int, y: int| 0 <= x < y < s1.len() implies path_lt(
            s1[x].path,
            s1[y].path,
        ) by {
            if x < pos && y == pos {
            } else if x == pos && y > pos {
                if pos < s0.len() && y - 1 > pos {
                    lemma_path_lt_trans(epath, s0[pos].path, s0[y - 1].path);
                }
            } else if x < pos && y > pos {
                // s1[x] == s0[x] and s1[y] == s0[y - 1]; either y - 1 == pos
                // (use the collected bound on the prefix) or sortedness of s0
                // applies directly.
            }
        }
        lemma_entry_at(s1, pos);
        assert forall|q: Seq<Seq<char>>| #[trigger] contains_path(s1, q) implies (contains_path(
            s0,
            q,
        ) || q == epath) by {
            let i = choose|i: int| 0 <= i < s1.len() && (#[trigger] s1[i].path) == q;
            if i < pos {
                assert(s0[i].path == q);
            } else if i > pos {
                assert(s0[i - 1].path == q);
            }
        }
        assert forall|q: Seq<Seq<char>>| contains_path(s0, q) || q == epath implies
            #[trigger] contains_path(s1, q) by {
            if q == epath {
                assert(s1[pos].path == q);
            } else {
                let i = choose|i: int| 0 <= i < s0.len() && (#[trigger] s0[i].path) == q;
                if i < pos {
                    assert(s1[i].path == q);
                } else {
                    assert(s1[i + 1].path == q);
                }
            }
        }
        assert forall|q: Seq<Seq<char>>| contains_path(s0, q) && q != epath implies
            (#[trigger] entry_at(s1, q)) == entry_at(s0, q) by {
            let i = choose|i: int| 0 <= i < s0.len() && (#[trigger] s0[i].path) == q;
            lemma_entry_at(s0, i);
            if i < pos {
                assert(s1[i] == s0[i]);
                lemma_entry_at(s1, i);
            } else {
                assert(s1[i + 1] == s0[i]);
                lemma_entry_at(s1, i + 1);
            }
        }
    }
}

} // verus!
