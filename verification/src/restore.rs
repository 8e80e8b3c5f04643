//! Loading one directory level and restoring cached state beneath it.
//!
//! When a directory is expanded or becomes a root, its children are taken
//! from a fresh listing; names seen before keep their cached `expanded` and
//! `marked` flags.  Beneath those children, subtrees that the cache knows
//! and whose whole ancestor chain is recorded as expanded are restored
//! without any further disk read.

use vstd::prelude::*;

use crate::entry::{Entry, EntryKind, EntryView, FsMeta, FsNodeKind, FsRecord, FsRecordView};
use crate::index::{PathIndex, contains_path, entry_at, idx_of, sorted, lemma_entry_at};
use crate::path::{EntryPath, is_prefix_of, is_strict_prefix_of, path_lt, lemma_prefix_lt,
    lemma_path_lt_asym};

verus! {

/// Record `i` of a listing survives sanitizing: its name is not empty and
/// no earlier record claims the same name.
pub open spec fn keeps(rs: Seq<FsRecordView>, i: int) -> bool {
    0 <= i < rs.len() && rs[i].name.len() > 0 && forall|j: int|
        0 <= j < i ==> (#[trigger] rs[j]).name != rs[i].name
}

/// Some surviving record of the listing carries this name.
pub open spec fn has_fresh_name(rs: Seq<FsRecordView>, n: Seq<char>) -> bool {
    exists|i: int| #[trigger] keeps(rs, i) && rs[i].name == n
}

/// The surviving record with this name.
pub open spec fn rec_for(rs: Seq<FsRecordView>, n: Seq<char>) -> FsRecordView {
    rs[choose|i: int| #[trigger] keeps(rs, i) && rs[i].name == n]
}

/// `q` is the path of a child the listing yields.
pub open spec fn is_fresh_child(
    rs: Seq<FsRecordView>,
    base: Seq<Seq<char>>,
    q: Seq<Seq<char>>,
) -> bool {
    q.len() == base.len() + 1 && is_prefix_of(base, q) && has_fresh_name(rs, q.last())
}

/// A name names at most one surviving record.
pub proof fn lemma_keeps_unique(rs: Seq<FsRecordView>, i: int, j: int)
    requires
        keeps(rs, i),
        keeps(rs, j),
        rs[i].name == rs[j].name,
    ensures
        i == j,
{
}

/// A nonempty name that occurs at all occurs at a surviving record no
/// later than its first occurrence.
pub proof fn lemma_first_occurrence(rs: Seq<FsRecordView>, j: int)
    requires
        0 <= j < rs.len(),
        rs[j].name.len() > 0,
    ensures
        exists|k: int| 0 <= k <= j && #[trigger] keeps(rs, k) && rs[k].name == rs[j].name,
    decreases j,
{
    if keeps(rs, j) {
        assert(keeps(rs, j) && rs[j].name == rs[j].name);
    } else {
        let j2 = choose|j2: int| 0 <= j2 < j && (#[trigger] rs[j2]).name == rs[j].name;
        lemma_first_occurrence(rs, j2);
    }
}

/// The entry one fresh listing record yields, with cached flags re-applied
/// when the cache knows the path as the same kind of object.
pub open spec fn merged_child(
    cm: Seq<EntryView>,
    base: Seq<Seq<char>>,
    r: FsRecordView,
) -> EntryView {
    let p = base.push(r.name);
    let cached = contains_path(cm, p) && r.same_kind(entry_at(cm, p).kind);
    EntryView {
        path: p,
        kind: if cached {
            r.fresh_kind().with_expanded(entry_at(cm, p).kind.is_expanded_dir())
        } else {
            r.fresh_kind()
        },
        meta: r.meta(),
        selected: false,
        marked: if cached {
            entry_at(cm, p).marked
        } else {
            false
        },
    }
}

/// A cached path deeper than one level below `base` is restored exactly
/// when the cache holds it and its whole ancestor chain down from `base`
/// consists of directories recorded as expanded, rooted in a fresh child
/// that the listing confirms as a directory.
pub open spec fn deep_restored(
    cm: Seq<EntryView>,
    rs: Seq<FsRecordView>,
    base: Seq<Seq<char>>,
    q: Seq<Seq<char>>,
) -> bool
    decreases q.len(),
{
    &&& q.len() > base.len() + 1
    &&& is_strict_prefix_of(base, q)
    &&& contains_path(cm, q)
    &&& {
        let a = q.subrange(0, q.len() - 1);
        &&& contains_path(cm, a)
        &&& entry_at(cm, a).kind.is_expanded_dir()
        &&& if a.len() == base.len() + 1 {
            is_fresh_child(rs, base, a) && rec_for(rs, a.last()).kind is Directory
        } else {
            deep_restored(cm, rs, base, a)
        }
    }
}

/// The entry a built path carries: a merged fresh child at depth one, a
/// cached entry (with the cursor flag cleared) deeper down.
pub open spec fn built_entry(
    cm: Seq<EntryView>,
    rs: Seq<FsRecordView>,
    base: Seq<Seq<char>>,
    q: Seq<Seq<char>>,
) -> EntryView {
    if q.len() == base.len() + 1 {
        merged_child(cm, base, rec_for(rs, q.last()))
    } else {
        entry_at(cm, q).with_selected(false)
    }
}

/// Every proper prefix of a restored path strictly below `base` is itself
/// a fresh child or a restored path, recorded in the cache as an expanded
/// directory.
pub proof fn lemma_deep_prefix(
    cm: Seq<EntryView>,
    rs: Seq<FsRecordView>,
    base: Seq<Seq<char>>,
    q: Seq<Seq<char>>,
    k: int,
)
    requires
        deep_restored(cm, rs, base, q),
        base.len() < k < q.len(),
    ensures
        k == base.len() + 1 ==> is_fresh_child(rs, base, q.subrange(0, k)) && rec_for(
            rs,
            q.subrange(0, k).last(),
        ).kind is Directory && contains_path(cm, q.subrange(0, k)) && entry_at(
            cm,
            q.subrange(0, k),
        ).kind.is_expanded_dir(),
        k > base.len() + 1 ==> deep_restored(cm, rs, base, q.subrange(0, k)) && contains_path(
            cm,
            q.subrange(0, k),
        ) && entry_at(cm, q.subrange(0, k)).kind.is_expanded_dir(),
    decreases q.len(),
{
    let a = q.subrange(0, q.len() - 1);
    if k == q.len() - 1 {
        assert(q.subrange(0, k) == a);
    } else {
        assert(a.len() > base.len() + 1) by {
            if a.len() == base.len() + 1 {
                assert(k < q.len() - 1 && k > base.len());
            }
        }
        assert(deep_restored(cm, rs, base, a));
        assert(q.subrange(0, k) =~= a.subrange(0, k));
        lemma_deep_prefix(cm, rs, base, a, k);
    }
}

/// An index that holds exactly the built entries below `p` satisfies the
/// engine's structural conditions with `p` as the root path: every entry
/// lies strictly below `p`, every ancestor chain is expanded, and nothing
/// carries the cursor flag.
pub proof fn lemma_built_index_inv(
    s2: Seq<EntryView>,
    c2: Seq<EntryView>,
    rs: Seq<FsRecordView>,
    p: Seq<Seq<char>>,
)
    requires
        sorted(s2),
        forall|q: Seq<Seq<char>>| #[trigger] contains_path(s2, q) <==> (is_fresh_child(rs, p, q)
            || deep_restored(c2, rs, p, q)),
        forall|q: Seq<Seq<char>>| contains_path(s2, q) ==> (#[trigger] entry_at(s2, q))
            == built_entry(c2, rs, p, q),
    ensures
        forall|i: int| 0 <= i < s2.len() ==> is_strict_prefix_of(p, (#[trigger] s2[i]).path),
        forall|i: int| 0 <= i < s2.len() ==> crate::engine::chain_ok(
            s2,
            p.len() as int,
            (#[trigger] s2[i]).path,
        ),
        forall|i: int| 0 <= i < s2.len() ==> !(#[trigger] s2[i]).selected,
{
    assert forall|i: int| 0 <= i < s2.len() implies is_strict_prefix_of(
        p,
        (#[trigger] s2[i]).path,
    ) && crate::engine::chain_ok(s2, p.len() as int, s2[i].path) && !s2[i].selected by {
        lemma_entry_at(s2, i);
        let q = s2[i].path;
        assert(contains_path(s2, q));
        assert(s2[i] == built_entry(c2, rs, p, q));
        assert(is_strict_prefix_of(p, q)) by {
            if is_fresh_child(rs, p, q) {
            } else {
                assert(deep_restored(c2, rs, p, q));
            }
        }
        assert forall|k: int| p.len() < k < q.len() implies contains_path(
            s2,
            #[trigger] q.subrange(0, k),
        ) && entry_at(s2, q.subrange(0, k)).kind.is_expanded_dir() by {
            let a = q.subrange(0, k);
            assert(deep_restored(c2, rs, p, q)) by {
                if is_fresh_child(rs, p, q) {
                    assert(q.len() == p.len() + 1);
                }
            }
            lemma_deep_prefix(c2, rs, p, q, k);
            if k == p.len() + 1 {
                assert(is_fresh_child(rs, p, a));
                assert(contains_path(s2, a));
                assert(entry_at(s2, a) == built_entry(c2, rs, p, a));
                assert(entry_at(c2, a).kind.is_expanded_dir());
            } else {
                assert(deep_restored(c2, rs, p, a));
                assert(contains_path(s2, a));
                assert(entry_at(s2, a) == built_entry(c2, rs, p, a));
                assert(entry_at(s2, a) == entry_at(c2, a).with_selected(false));
            }
        }
    }
}

/// In a sorted sequence an ancestor stands before its descendant.
pub proof fn lemma_positions_ordered(s: Seq<EntryView>, a: Seq<Seq<char>>, q: Seq<Seq<char>>)
    requires
        sorted(s),
        contains_path(s, a),
        contains_path(s, q),
        is_strict_prefix_of(a, q),
    ensures
        idx_of(s, a) < idx_of(s, q),
{
    let ia = idx_of(s, a);
    let iq = idx_of(s, q);
    assert(0 <= ia < s.len() && s[ia].path == a);
    assert(0 <= iq < s.len() && s[iq].path == q);
    lemma_prefix_lt(a, q);
    if ia == iq {
        assert(a == q);
        assert(a.len() < q.len());
    } else if ia > iq {
        assert(path_lt(s[iq].path, s[ia].path));
        lemma_path_lt_asym(a, q);
    }
}

/// During the restore pass, the parent of a cached path is present and
/// expanded in the index built so far exactly when the path qualifies for
/// restoration.
#[verifier::rlimit(60)]
proof fn lemma_deep_step(
    sprev: Seq<EntryView>,
    sa: Seq<EntryView>,
    s00: Seq<EntryView>,
    cm: Seq<EntryView>,
    rs: Seq<FsRecordView>,
    base: Seq<Seq<char>>,
    k: int,
    cond: bool,
)
    requires
        sorted(cm),
        sorted(s00),
        sorted(sa),
        sorted(sprev),
        0 <= k < cm.len(),
        cm[k].path.len() >= 2,
        cm[k].path.len() - 1 > base.len(),
        is_prefix_of(base, cm[k].path),
        forall|i: int| 0 <= i < s00.len() ==> !is_strict_prefix_of(
            base,
            (#[trigger] s00[i]).path,
        ),
        forall|q2: Seq<Seq<char>>| #[trigger] contains_path(sa, q2) <==> (contains_path(s00, q2)
            || is_fresh_child(rs, base, q2)),
        forall|q2: Seq<Seq<char>>| is_fresh_child(rs, base, q2) ==> (#[trigger] entry_at(sa, q2))
            == built_entry(cm, rs, base, q2),
        forall|q2: Seq<Seq<char>>| #[trigger] contains_path(sprev, q2) <==> (contains_path(
            sa,
            q2,
        ) || (deep_restored(cm, rs, base, q2) && idx_of(cm, q2) < k)),
        forall|q2: Seq<Seq<char>>| contains_path(sa, q2) ==> (#[trigger] entry_at(sprev, q2))
            == entry_at(sa, q2),
        forall|q2: Seq<Seq<char>>| deep_restored(cm, rs, base, q2) && idx_of(cm, q2) < k ==> (
        #[trigger] entry_at(sprev, q2)) == entry_at(cm, q2).with_selected(false),
        cond == (contains_path(sprev, cm[k].path.subrange(0, cm[k].path.len() - 1)) && entry_at(
            sprev,
            cm[k].path.subrange(0, cm[k].path.len() - 1),
        ).kind.is_expanded_dir()),
    ensures
        idx_of(cm, cm[k].path) == k,
        cond == deep_restored(cm, rs, base, cm[k].path),
{
    let q = cm[k].path;
    let a = q.subrange(0, q.len() - 1);
    lemma_entry_at(cm, k);
    assert(is_prefix_of(base, a)) by {
        assert(forall|x: int| 0 <= x < base.len() ==> base[x] == q[x]);
        assert(forall|x: int| 0 <= x < a.len() ==> a[x] == q[x]);
    }
    assert(is_strict_prefix_of(base, q));
    assert(a.len() == q.len() - 1);
    if cond {
        assert(contains_path(sprev, a));
        if contains_path(sa, a) {
            assert(!contains_path(s00, a)) by {
                if contains_path(s00, a) {
                    let i = idx_of(s00, a);
                    lemma_entry_at(s00, i);
                    assert(is_strict_prefix_of(base, s00[i].path));
                }
            }
            assert(is_fresh_child(rs, base, a));
            assert(entry_at(sprev, a) == built_entry(cm, rs, base, a));
            let r = rec_for(rs, a.last());
            assert(entry_at(sprev, a) == merged_child(cm, base, r));
            // An expanded merged child means the cache knew the path as an
            // expanded directory and the listing confirms a directory.
            assert(contains_path(cm, a) && r.same_kind(entry_at(cm, a).kind));
            assert(entry_at(cm, a).kind.is_expanded_dir());
            assert(r.kind is Directory);
            assert(deep_restored(cm, rs, base, q));
        } else {
            assert(deep_restored(cm, rs, base, a) && idx_of(cm, a) < k);
            assert(entry_at(sprev, a) == entry_at(cm, a).with_selected(false));
            assert(entry_at(cm, a).kind.is_expanded_dir());
            assert(deep_restored(cm, rs, base, q));
        }
    } else {
        if deep_restored(cm, rs, base, q) {
            assert(contains_path(cm, a) && entry_at(cm, a).kind.is_expanded_dir());
            if a.len() == base.len() + 1 {
                assert(is_fresh_child(rs, base, a) && rec_for(rs, a.last()).kind is Directory);
                assert(contains_path(sa, a));
                assert(contains_path(sprev, a));
                assert(entry_at(sprev, a) == built_entry(cm, rs, base, a));
                let r = rec_for(rs, a.last());
                assert(r.same_kind(entry_at(cm, a).kind));
                assert(entry_at(sprev, a).kind.is_expanded_dir());
            } else {
                assert(deep_restored(cm, rs, base, a));
                lemma_positions_ordered(cm, a, q);
                assert(idx_of(cm, a) < k);
                assert(contains_path(sprev, a));
                assert(entry_at(sprev, a) == entry_at(cm, a).with_selected(false));
                assert(entry_at(sprev, a).kind.is_expanded_dir());
            }
        }
    }
}

/// Build the entry a listing record denotes, taking `expanded` and
/// `marked` from the cache when it knows the path as the same kind.
pub fn make_merged_child(base: &EntryPath, rec: &FsRecord, cm: &PathIndex) -> (e: Entry)
    requires
        cm.wf(),
    ensures
        e@ == merged_child(cm@, base@, rec@),
{
    let path = base.join(&rec.name);
    let cached = cm.lookup(&path);
    proof {
        match cached {
            Some(ref ce) => {
                let i = choose|i: int| 0 <= i < cm@.len() && (#[trigger] cm@[i]) == ce@;
                lemma_entry_at(cm@, i);
                assert(entry_at(cm@, path@) == ce@);
            },
            None => {},
        }
    }
    let mut expanded = false;
    let mut marked = false;
    match &cached {
        Some(ce) => {
            match (&rec.kind, &ce.kind) {
                (FsNodeKind::File, EntryKind::File) => {
                    marked = ce.marked;
                },
                (FsNodeKind::Directory, EntryKind::Directory { expanded: ex }) => {
                    expanded = *ex;
                    marked = ce.marked;
                },
                (FsNodeKind::Symlink { .. }, EntryKind::Symlink { .. }) => {
                    marked = ce.marked;
                },
                _ => {},
            }
        },
        None => {},
    }
    let kind = match &rec.kind {
        FsNodeKind::File => EntryKind::File,
        FsNodeKind::Directory => EntryKind::Directory { expanded },
        FsNodeKind::Symlink { target } => EntryKind::Symlink { target: target.clone() },
    };
    Entry {
        path,
        kind,
        meta: FsMeta { size: rec.size, modified: rec.modified, mode: rec.mode },
        selected: false,
        marked,
    }
}

impl PathIndex {
    /// Insert the children one listing yields below `base`, then restore
    /// every cached subtree beneath them whose recorded ancestor chain is
    /// expanded throughout.  The index must not yet hold anything strictly
    /// below `base`.
    #[verifier::spinoff_prover]
    #[verifier::rlimit(100)]
    pub fn build_children(&mut self, base: &EntryPath, listing: &Vec<FsRecord>, cm: &PathIndex)
        requires
            old(self).wf(),
            cm.wf(),
            forall|i: int| 0 <= i < old(self)@.len() ==> !is_strict_prefix_of(
                base@,
                (#[trigger] old(self)@[i]).path,
            ),
        ensures
            final(self).wf(),
            forall|q: Seq<Seq<char>>| #[trigger] contains_path(final(self)@, q) <==> (
            contains_path(old(self)@, q) || is_fresh_child(listing.deep_view(), base@, q)
                || deep_restored(cm@, listing.deep_view(), base@, q)),
            forall|q: Seq<Seq<char>>| contains_path(old(self)@, q) ==> (#[trigger] entry_at(
                final(self)@,
                q,
            )) == entry_at(old(self)@, q),
            forall|q: Seq<Seq<char>>| is_fresh_child(listing.deep_view(), base@, q)
                || deep_restored(cm@, listing.deep_view(), base@, q) ==> (#[trigger] entry_at(
                final(self)@,
                q,
            )) == built_entry(cm@, listing.deep_view(), base@, q),
    {
        let ghost rs = listing.deep_view();
        let ghost s00 = self@;
        let m = listing.len();
        let mut t: usize = 0;
        while t < m
            invariant
                t <= m,
                m == rs.len(),
                rs == listing.deep_view(),
                self.wf(),
                cm.wf(),
                sorted(s00),
                forall|i: int| 0 <= i < s00.len() ==> !is_strict_prefix_of(
                    base@,
                    (#[trigger] s00[i]).path,
                ),
                forall|q: Seq<Seq<char>>| #[trigger] contains_path(self@, q) <==> (contains_path(
                    s00,
                    q,
                ) || (exists|i: int| 0 <= i < t && #[trigger] keeps(rs, i) && q == base@.push(
                    rs[i].name,
                ))),
                forall|q: Seq<Seq<char>>| contains_path(s00, q) ==> (#[trigger] entry_at(self@, q))
                    == entry_at(s00, q),
                forall|i: int| 0 <= i < t && #[trigger] keeps(rs, i) ==> entry_at(
                    self@,
                    base@.push(rs[i].name),
                ) == merged_child(cm@, base@, rs[i]),
            decreases m - t,
        {
            let ghost sprev = self@;
            let name_len = listing[t].name.as_str().unicode_len();
            if name_len > 0 {
                let child = base.join(&listing[t].name);
                proof {
                    assert(listing.deep_view()[t as int] == listing@[t as int]@);
                    assert(child@ == base@.push(rs[t as int].name));
                }
                match self.find(&child) {
                    Some(_) => {
                        proof {
                            // The path is present, so an earlier surviving
                            // record claimed this name already.
                            assert(contains_path(sprev, child@));
                            assert(!contains_path(s00, child@)) by {
                                if contains_path(s00, child@) {
                                    let i = idx_of(s00, child@);
                                    lemma_entry_at(s00, i);
                                    assert(is_strict_prefix_of(base@, s00[i].path));
                                }
                            }
                            let i = choose|i: int| 0 <= i < t && #[trigger] keeps(rs, i)
                                && child@ == base@.push(rs[i].name);
                            assert(rs[i].name == rs[t as int].name) by {
                                assert(base@.push(rs[i].name).last() == rs[i].name);
                                assert(base@.push(rs[t as int].name).last() == rs[t as int].name);
                            }
                            assert(!keeps(rs, t as int));
                        }
                    },
                    None => {
                        let e = make_merged_child(base, &listing[t], cm);
                        proof {
                            assert(e@.path == child@);
                            assert(keeps(rs, t as int)) by {
                                if !keeps(rs, t as int) {
                                    let j = choose|j: int| 0 <= j < t && (#[trigger] rs[j]).name
                                        == rs[t as int].name;
                                    lemma_first_occurrence(rs, j);
                                    let k = choose|k: int| 0 <= k <= j && #[trigger] keeps(rs, k)
                                        && rs[k].name == rs[j].name;
                                    assert(contains_path(sprev, base@.push(rs[k].name)));
                                }
                            }
                        }
                        self.upsert(e);
                        proof {
                            assert forall|q: Seq<Seq<char>>| #[trigger] contains_path(self@, q)
                                <==> (contains_path(s00, q) || (exists|i: int| 0 <= i < t + 1
                                && #[trigger] keeps(rs, i) && q == base@.push(rs[i].name))) by {
                                if contains_path(self@, q) {
                                    if q == e@.path {
                                        assert(keeps(rs, t as int) && q == base@.push(
                                            rs[t as int].name,
                                        ));
                                    } else {
                                        assert(contains_path(sprev, q));
                                    }
                                } else {
                                    assert(!contains_path(sprev, q) && q != e@.path);
                                }
                            }
                            assert forall|i: int| 0 <= i < t + 1 && #[trigger] keeps(rs, i)
                                implies entry_at(self@, base@.push(rs[i].name)) == merged_child(
                                cm@,
                                base@,
                                rs[i],
                            ) by {
                                if i == t as int {
                                    assert(entry_at(self@, e@.path) == e@);
                                } else {
                                    let q = base@.push(rs[i].name);
                                    if q == e@.path {
                                        assert(rs[i].name == rs[t as int].name) by {
                                            assert(base@.push(rs[i].name).last() == rs[i].name);
                                        }
                                        lemma_keeps_unique(rs, i, t as int);
                                    } else {
                                        assert(entry_at(self@, q) == entry_at(sprev, q));
                                    }
                                }
                            }
                            assert forall|q: Seq<Seq<char>>| contains_path(s00, q) implies (
                            #[trigger] entry_at(self@, q)) == entry_at(s00, q) by {
                                if q == e@.path {
                                    let i = idx_of(s00, q);
                                    lemma_entry_at(s00, i);
                                    assert(is_strict_prefix_of(base@, s00[i].path));
                                } else {
                                    assert(entry_at(self@, q) == entry_at(sprev, q));
                                }
                            }
                        }
                    },
                }
            } else {
                proof {
                    assert(!keeps(rs, t as int));
                }
            }
            proof {
                assert forall|q: Seq<Seq<char>>| #[trigger] contains_path(self@, q) <==> (
                contains_path(s00, q) || (exists|i: int| 0 <= i < t + 1 && #[trigger] keeps(rs, i)
                    && q == base@.push(rs[i].name))) by {
                    if !keeps(rs, t as int) {
                        assert forall|i: int| 0 <= i < t + 1 && #[trigger] keeps(rs, i) && q
                            == base@.push(rs[i].name) implies (exists|i2: int| 0 <= i2 < t
                            && #[trigger] keeps(rs, i2) && q == base@.push(rs[i2].name)) by {
                            assert(i != t as int);
                        }
                    }
                }
            }
            t += 1;
        }
        proof {
            assert forall|q: Seq<Seq<char>>| #[trigger] contains_path(self@, q) <==> (
            contains_path(s00, q) || is_fresh_child(rs, base@, q)) by {
                if contains_path(self@, q) && !contains_path(s00, q) {
                    let i = choose|i: int| 0 <= i < m && #[trigger] keeps(rs, i) && q
                        == base@.push(rs[i].name);
                    assert(base@.push(rs[i].name).last() == rs[i].name);
                    assert(is_prefix_of(base@, q));
                }
                if is_fresh_child(rs, base@, q) {
                    let i = choose|i: int| #[trigger] keeps(rs, i) && rs[i].name == q.last();
                    assert(q =~= base@.push(rs[i].name));
                }
            }
            assert forall|q: Seq<Seq<char>>| is_fresh_child(rs, base@, q) implies (
            #[trigger] entry_at(self@, q)) == built_entry(cm@, rs, base@, q) by {
                let i = choose|i: int| #[trigger] keeps(rs, i) && rs[i].name == q.last();
                assert(q =~= base@.push(rs[i].name));
                assert(entry_at(self@, base@.push(rs[i].name)) == merged_child(cm@, base@, rs[i]));
                let j = choose|j: int| #[trigger] keeps(rs, j) && rs[j].name == q.last();
                lemma_keeps_unique(rs, i, j);
            }
        }
        // Second pass: restore cached subtrees beneath the fresh children.
        let ghost sa = self@;
        let cn = cm.len();
        let mut k: usize = 0;
        while k < cn
            invariant
                k <= cn,
                cn == cm@.len(),
                rs == listing.deep_view(),
                self.wf(),
                cm.wf(),
                sorted(s00),
                sorted(sa),
                forall|i: int| 0 <= i < s00.len() ==> !is_strict_prefix_of(
                    base@,
                    (#[trigger] s00[i]).path,
                ),
                forall|q: Seq<Seq<char>>| #[trigger] contains_path(sa, q) <==> (contains_path(
                    s00,
                    q,
                ) || is_fresh_child(rs, base@, q)),
                forall|q: Seq<Seq<char>>| contains_path(s00, q) ==> (#[trigger] entry_at(sa, q))
                    == entry_at(s00, q),
                forall|q: Seq<Seq<char>>| is_fresh_child(rs, base@, q) ==> (#[trigger] entry_at(
                    sa,
                    q,
                )) == built_entry(cm@, rs, base@, q),
                forall|q: Seq<Seq<char>>| #[trigger] contains_path(self@, q) <==> (contains_path(
                    sa,
                    q,
                ) || (deep_restored(cm@, rs, base@, q) && idx_of(cm@, q) < k)),
                forall|q: Seq<Seq<char>>| contains_path(sa, q) ==> (#[trigger] entry_at(self@, q))
                    == entry_at(sa, q),
                forall|q: Seq<Seq<char>>| deep_restored(cm@, rs, base@, q) && idx_of(cm@, q) < k
                    ==> (#[trigger] entry_at(self@, q)) == entry_at(cm@, q).with_selected(false),
            decreases cn - k,
        {
            let ghost sprev = self@;
            let ce = cm.at(k);
            proof {
                lemma_entry_at(cm@, k as int);
            }
            let dep = ce.path.depth();
            let based = base.depth();
            if dep >= 2 && dep - 1 > based && ce.path.starts_with(base) {
                let parent = match ce.path.parent() {
                    Some(p) => p,
                    None => {
                        proof {
                            assert(false);
                        }
                        return ;
                    },
                };
                proof {
                    assert(parent@ == cm@[k as int].path.subrange(
                        0,
                        cm@[k as int].path.len() - 1,
                    )) by {
                        assert(parent@.len() == cm@[k as int].path.len() - 1);
                        assert forall|x: int| 0 <= x < parent@.len() implies parent@[x]
                            == cm@[k as int].path.subrange(0, cm@[k as int].path.len() - 1)[x] by {
                            assert(parent@[x] == cm@[k as int].path[x]);
                        }
                        assert(parent@ =~= cm@[k as int].path.subrange(
                            0,
                            cm@[k as int].path.len() - 1,
                        ));
                    }
                }
                let mut insert_it = false;
                match self.find(&parent) {
                    Some(pi) => {
                        if self.at(pi).is_expanded_dir() {
                            insert_it = true;
                        }
                        proof {
                            lemma_entry_at(self@, pi as int);
                        }
                    },
                    None => {},
                }
                proof {
                    lemma_deep_step(sprev, sa, s00, cm@, rs, base@, k as int, (
                    contains_path(sprev, parent@) && entry_at(
                        sprev,
                        parent@,
                    ).kind.is_expanded_dir()));
                }
                if insert_it {
                    let mut e = ce.duplicate();
                    e.set_selected(false);
                    proof {
                        assert(e@ == cm@[k as int].with_selected(false));
                        assert(deep_restored(cm@, rs, base@, cm@[k as int].path));
                    }
                    self.upsert(e);
                    proof {
                        let q = cm@[k as int].path;
                        assert forall|q2: Seq<Seq<char>>| #[trigger] contains_path(self@, q2)
                            <==> (contains_path(sa, q2) || (deep_restored(cm@, rs, base@, q2)
                            && idx_of(cm@, q2) < k + 1)) by {
                            if q2 == q {
                                assert(idx_of(cm@, q2) == k);
                            } else {
                                if deep_restored(cm@, rs, base@, q2) && idx_of(cm@, q2) == k {
                                    assert(cm@[k as int].path == q2);
                                }
                            }
                        }
                        assert forall|q2: Seq<Seq<char>>| contains_path(sa, q2) implies (
                        #[trigger] entry_at(self@, q2)) == entry_at(sa, q2) by {
                            if q2 == q {
                                assert(q.len() > base@.len() + 1);
                                assert(!contains_path(s00, q2)) by {
                                    if contains_path(s00, q2) {
                                        let i = idx_of(s00, q2);
                                        lemma_entry_at(s00, i);
                                    }
                                }
                            } else {
                                assert(entry_at(self@, q2) == entry_at(sprev, q2));
                            }
                        }
                        assert forall|q2: Seq<Seq<char>>| deep_restored(cm@, rs, base@, q2)
                            && idx_of(cm@, q2) < k + 1 implies (#[trigger] entry_at(self@, q2))
                            == entry_at(cm@, q2).with_selected(false) by {
                            if idx_of(cm@, q2) == k {
                                assert(cm@[k as int].path == q2);
                                assert(entry_at(self@, q) == cm@[k as int].with_selected(false));
                            } else {
                                assert(q2 != q) by {
                                    if q2 == q {
                                        assert(idx_of(cm@, q2) == k);
                                    }
                                }
                                assert(entry_at(self@, q2) == entry_at(sprev, q2));
                            }
                        }
                    }
                } else {
                    proof {
                        let q = cm@[k as int].path;
                        assert forall|q2: Seq<Seq<char>>| #[trigger] contains_path(self@, q2)
                            <==> (contains_path(sa, q2) || (deep_restored(cm@, rs, base@, q2)
                            && idx_of(cm@, q2) < k + 1)) by {
                            if deep_restored(cm@, rs, base@, q2) && idx_of(cm@, q2) == k {
                                assert(cm@[k as int].path == q2);
                                assert(!deep_restored(cm@, rs, base@, q));
                            }
                        }
                    }
                }
            } else {
                proof {
                    // Too shallow or outside the subtree: not a restorable path.
                    let q = cm@[k as int].path;
                    assert forall|q2: Seq<Seq<char>>| #[trigger] contains_path(self@, q2) <==> (
                    contains_path(sa, q2) || (deep_restored(cm@, rs, base@, q2) && idx_of(cm@, q2)
                        < k + 1)) by {
                        if deep_restored(cm@, rs, base@, q2) && idx_of(cm@, q2) == k {
                            lemma_entry_at(cm@, k as int);
                            assert(q2 == q);
                            assert(q.len() > base@.len() + 1 && is_strict_prefix_of(base@, q));
                        }
                    }
                }
            }
            k += 1;
        }
        proof {
            assert forall|q: Seq<Seq<char>>| #[trigger] contains_path(self@, q) <==> (
            contains_path(s00, q) || is_fresh_child(rs, base@, q) || deep_restored(
                cm@,
                rs,
                base@,
                q,
            )) by {
                if deep_restored(cm@, rs, base@, q) {
                    let i = idx_of(cm@, q);
                    lemma_entry_at(cm@, i);
                }
            }
            assert forall|q: Seq<Seq<char>>| is_fresh_child(rs, base@, q) || deep_restored(
                cm@,
                rs,
                base@,
                q,
            ) implies (#[trigger] entry_at(self@, q)) == built_entry(cm@, rs, base@, q) by {
                if is_fresh_child(rs, base@, q) {
                    assert(entry_at(self@, q) == entry_at(sa, q));
                } else {
                    let i = idx_of(cm@, q);
                    lemma_entry_at(cm@, i);
                    assert(q.len() > base@.len() + 1);
                }
            }
            assert forall|q: Seq<Seq<char>>| contains_path(s00, q) implies (#[trigger] entry_at(
                self@,
                q,
            )) == entry_at(s00, q) by {
                assert(entry_at(self@, q) == entry_at(sa, q));
            }
        }
    }
}

} // verus!
