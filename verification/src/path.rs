//! Absolute filesystem paths as sequences of name components.
//!
//! A path is stored as its components, without separators: `/tmp/x` is
//! `["tmp", "x"]` and the filesystem root is the empty sequence.  Paths are
//! ordered lexicographically, component by component and character by
//! character, so that a directory's descendants sort immediately after it
//! and before any later sibling.

use vstd::prelude::*;
use vstd::string::StrSliceExecFns;

verus! {

/// One filesystem path, viewed as the sequence of its components' character
/// sequences.
#[derive(Debug)]
pub struct EntryPath {
    pub parts: Vec<String>,
}

impl View for EntryPath {
    type V = Seq<Seq<char>>;

    open spec fn view(&self) -> Seq<Seq<char>> {
        self.parts.deep_view()
    }
}

impl DeepView for EntryPath {
    type V = Seq<Seq<char>>;

    open spec fn deep_view(&self) -> Seq<Seq<char>> {
        self.view()
    }
}

/// Comparison of one component pair from position `i` on: by character code,
/// a proper prefix sorts first.
pub open spec fn comp_lt_from(a: Seq<char>, b: Seq<char>, i: int) -> bool
    decreases a.len() - i,
{
    if i >= b.len() {
        false
    } else if i >= a.len() {
        true
    } else if a[i] == b[i] {
        comp_lt_from(a, b, i + 1)
    } else {
        (a[i] as u32) < (b[i] as u32)
    }
}

/// Lexicographic order on one component.
pub open spec fn comp_lt(a: Seq<char>, b: Seq<char>) -> bool {
    comp_lt_from(a, b, 0)
}

/// Comparison of two paths from component `i` on.
pub open spec fn path_lt_from(a: Seq<Seq<char>>, b: Seq<Seq<char>>, i: int) -> bool
    decreases a.len() - i,
{
    if i >= b.len() {
        false
    } else if i >= a.len() {
        true
    } else if a[i] == b[i] {
        path_lt_from(a, b, i + 1)
    } else {
        comp_lt(a[i], b[i])
    }
}

/// Lexicographic order on whole paths, component by component: an ancestor
/// sorts before each of its descendants.
pub open spec fn path_lt(a: Seq<Seq<char>>, b: Seq<Seq<char>>) -> bool {
    path_lt_from(a, b, 0)
}

/// `a` is `b` itself or an ancestor of `b`.
pub open spec fn is_prefix_of(a: Seq<Seq<char>>, b: Seq<Seq<char>>) -> bool {
    a.len() <= b.len() && forall|i: int| 0 <= i < a.len() ==> a[i] == b[i]
}

/// `a` is a strict ancestor of `b`.
pub open spec fn is_strict_prefix_of(a: Seq<Seq<char>>, b: Seq<Seq<char>>) -> bool {
    is_prefix_of(a, b) && a.len() < b.len()
}

/// `a` is the immediate parent of `b`.
pub open spec fn is_parent_of(a: Seq<Seq<char>>, b: Seq<Seq<char>>) -> bool {
    b.len() == a.len() + 1 && is_prefix_of(a, b)
}

proof fn lemma_comp_lt_irrefl_from(a: Seq<char>, i: int)
    ensures
        !comp_lt_from(a, a, i),
    decreases a.len() - i,
{
    if i < a.len() {
        lemma_comp_lt_irrefl_from(a, i + 1);
    }
}

pub proof fn lemma_comp_lt_irrefl(a: Seq<char>)
    ensures
        !comp_lt(a, a),
{
    lemma_comp_lt_irrefl_from(a, 0);
}

proof fn lemma_comp_lt_asym_from(a: Seq<char>, b: Seq<char>, i: int)
    requires
        comp_lt_from(a, b, i),
    ensures
        !comp_lt_from(b, a, i),
    decreases a.len() - i,
{
    if i < a.len() && i < b.len() && a[i] == b[i] {
        lemma_comp_lt_asym_from(a, b, i + 1);
    }
}

pub proof fn lemma_comp_lt_asym(a: Seq<char>, b: Seq<char>)
    requires
        comp_lt(a, b),
    ensures
        !comp_lt(b, a),
{
    lemma_comp_lt_asym_from(a, b, 0);
}

proof fn lemma_comp_lt_trans_from(a: Seq<char>, b: Seq<char>, c: Seq<char>, i: int)
    requires
        comp_lt_from(a, b, i),
        comp_lt_from(b, c, i),
    ensures
        comp_lt_from(a, c, i),
    decreases a.len() - i,
{
    if i < a.len() && i < b.len() && i < c.len() && a[i] == b[i] && b[i] == c[i] {
        lemma_comp_lt_trans_from(a, b, c, i + 1);
    }
}

pub proof fn lemma_comp_lt_trans(a: Seq<char>, b: Seq<char>, c: Seq<char>)
    requires
        comp_lt(a, b),
        comp_lt(b, c),
    ensures
        comp_lt(a, c),
{
    lemma_comp_lt_trans_from(a, b, c, 0);
}

proof fn lemma_comp_lt_total_from(a: Seq<char>, b: Seq<char>, i: int)
    requires
        0 <= i <= a.len(),
        i <= b.len(),
        forall|j: int| 0 <= j < i ==> a[j] == b[j],
        a != b,
    ensures
        comp_lt_from(a, b, i) || comp_lt_from(b, a, i),
    decreases a.len() - i,
{
    if i == a.len() && i == b.len() {
        assert(a =~= b);
    } else if i < a.len() && i < b.len() && a[i] == b[i] {
        lemma_comp_lt_total_from(a, b, i + 1);
    } else if i < a.len() && i < b.len() {
        let ca = a[i];
        let cb = b[i];
        assert((ca as u32) != (cb as u32)) by {
            lemma_char_codes_injective(ca, cb);
        }
    }
}

proof fn lemma_char_codes_injective(a: char, b: char)
    requires
        a != b,
    ensures
        (a as u32) != (b as u32),
{
}

pub proof fn lemma_comp_lt_total(a: Seq<char>, b: Seq<char>)
    requires
        a != b,
    ensures
        comp_lt(a, b) || comp_lt(b, a),
{
    lemma_comp_lt_total_from(a, b, 0);
}

proof fn lemma_path_lt_irrefl_from(a: Seq<Seq<char>>, i: int)
    ensures
        !path_lt_from(a, a, i),
    decreases a.len() - i,
{
    if i < a.len() {
        lemma_path_lt_irrefl_from(a, i + 1);
        lemma_comp_lt_irrefl(a[i]);
    }
}

pub proof fn lemma_path_lt_irrefl(a: Seq<Seq<char>>)
    ensures
        !path_lt(a, a),
{
    lemma_path_lt_irrefl_from(a, 0);
}

proof fn lemma_path_lt_asym_from(a: Seq<Seq<char>>, b: Seq<Seq<char>>, i: int)
    requires
        path_lt_from(a, b, i),
    ensures
        !path_lt_from(b, a, i),
    decreases a.len() - i,
{
    if i < a.len() && i < b.len() {
        if a[i] == b[i] {
            lemma_path_lt_asym_from(a, b, i + 1);
        } else {
            lemma_comp_lt_asym(a[i], b[i]);
        }
    }
}

pub proof fn lemma_path_lt_asym(a: Seq<Seq<char>>, b: Seq<Seq<char>>)
    requires
        path_lt(a, b),
    ensures
        !path_lt(b, a),
{
    lemma_path_lt_asym_from(a, b, 0);
}

proof fn lemma_path_lt_trans_from(a: Seq<Seq<char>>, b: Seq<Seq<char>>, c: Seq<Seq<char>>, i: int)
    requires
        path_lt_from(a, b, i),
        path_lt_from(b, c, i),
    ensures
        path_lt_from(a, c, i),
    decreases a.len() - i,
{
    if i < a.len() && i < b.len() && i < c.len() {
        if a[i] == b[i] && b[i] == c[i] {
            lemma_path_lt_trans_from(a, b, c, i + 1);
        } else if a[i] != b[i] && b[i] != c[i] {
            lemma_comp_lt_trans(a[i], b[i], c[i]);
            if a[i] == c[i] {
                lemma_comp_lt_asym(a[i], b[i]);
            }
        }
    }
}

pub proof fn lemma_path_lt_trans(a: Seq<Seq<char>>, b: Seq<Seq<char>>, c: Seq<Seq<char>>)
    requires
        path_lt(a, b),
        path_lt(b, c),
    ensures
        path_lt(a, c),
{
    lemma_path_lt_trans_from(a, b, c, 0);
}

proof fn lemma_path_lt_total_from(a: Seq<Seq<char>>, b: Seq<Seq<char>>, i: int)
    requires
        0 <= i <= a.len(),
        i <= b.len(),
        forall|j: int| 0 <= j < i ==> a[j] == b[j],
        a != b,
    ensures
        path_lt_from(a, b, i) || path_lt_from(b, a, i),
    decreases a.len() - i,
{
    if i == a.len() && i == b.len() {
        assert(a =~= b);
    } else if i < a.len() && i < b.len() {
        if a[i] == b[i] {
            lemma_path_lt_total_from(a, b, i + 1);
        } else {
            lemma_comp_lt_total(a[i], b[i]);
        }
    }
}

pub proof fn lemma_path_lt_total(a: Seq<Seq<char>>, b: Seq<Seq<char>>)
    requires
        a != b,
    ensures
        path_lt(a, b) || path_lt(b, a),
{
    lemma_path_lt_total_from(a, b, 0);
}

proof fn lemma_prefix_lt_from(a: Seq<Seq<char>>, b: Seq<Seq<char>>, i: int)
    requires
        is_strict_prefix_of(a, b),
        0 <= i <= a.len(),
    ensures
        path_lt_from(a, b, i),
    decreases a.len() - i,
{
    if i < a.len() {
        lemma_prefix_lt_from(a, b, i + 1);
    }
}

/// A strict ancestor sorts before its descendant.
pub proof fn lemma_prefix_lt(a: Seq<Seq<char>>, b: Seq<Seq<char>>)
    requires
        is_strict_prefix_of(a, b),
    ensures
        path_lt(a, b),
{
    lemma_prefix_lt_from(a, b, 0);
}

proof fn lemma_between_from(p: Seq<Seq<char>>, x: Seq<Seq<char>>, q: Seq<Seq<char>>, i: int)
    requires
        path_lt_from(p, x, i),
        path_lt_from(x, q, i),
        is_prefix_of(p, q),
        0 <= i <= p.len(),
        i <= x.len(),
        i <= q.len(),
        forall|j: int| 0 <= j < i ==> p[j] == x[j],
    ensures
        is_prefix_of(p, x),
    decreases p.len() - i,
{
    if i >= x.len() {
        // path_lt_from(p, x, i) would be false
    } else if i >= p.len() {
        // p ends at or before i; the collected equalities make it a prefix
    } else {
        // i is within p, x and (since p is a prefix of q) q
        if p[i] == x[i] {
            if x[i] == q[i] {
                lemma_between_from(p, x, q, i + 1);
            }
            // x[i] != q[i] is impossible: q[i] == p[i] == x[i]
        } else {
            // comp_lt(p[i], x[i]) holds; q[i] == p[i]
            if x[i] == q[i] {
                // then x[i] == p[i], contradiction
            } else {
                lemma_comp_lt_trans(p[i], x[i], q[i]);
                lemma_comp_lt_irrefl(p[i]);
            }
        }
    }
}

/// Being an ancestor is transitive.
pub proof fn lemma_prefix_trans(a: Seq<Seq<char>>, b: Seq<Seq<char>>, c: Seq<Seq<char>>)
    requires
        is_prefix_of(a, b),
        is_prefix_of(b, c),
    ensures
        is_prefix_of(a, c),
{
}

/// Everything that sorts between an ancestor and one of its descendants is
/// itself a descendant of that ancestor: a subtree forms one contiguous
/// block in path order.
pub proof fn lemma_between_is_descendant(
    p: Seq<Seq<char>>,
    x: Seq<Seq<char>>,
    q: Seq<Seq<char>>,
)
    requires
        path_lt(p, x),
        path_lt(x, q),
        is_prefix_of(p, q),
    ensures
        is_prefix_of(p, x),
{
    lemma_between_from(p, x, q, 0);
}

impl EntryPath {
    /// The filesystem root: no components.
    pub fn root() -> (r: EntryPath)
        ensures
            r@ == Seq::<Seq<char>>::empty(),
    {
        let r = EntryPath { parts: Vec::new() };
        proof {
            assert(r@ =~= Seq::<Seq<char>>::empty());
        }
        r
    }

    pub fn from_parts(parts: Vec<String>) -> (r: EntryPath)
        ensures
            r@ == parts.deep_view(),
    {
        EntryPath { parts }
    }

    pub fn depth(&self) -> (n: usize)
        ensures
            n == self@.len(),
    {
        self.parts.len()
    }

    /// Structural copy; the view is preserved exactly.
    pub fn duplicate(&self) -> (r: EntryPath)
        ensures
            r@ == self@,
    {
        let mut parts: Vec<String> = Vec::new();
        let mut i: usize = 0;
        while i < self.parts.len()
            invariant
                i <= self.parts.len(),
                parts.deep_view().len() == i,
                forall|j: int| 0 <= j < i ==> parts.deep_view()[j] == self@[j],
            decreases self.parts.len() - i,
        {
            parts.push(self.parts[i].clone());
            i += 1;
        }
        let r = EntryPath { parts };
        proof {
            assert(r@ =~= self@);
        }
        r
    }

    /// Component-wise equality test.
    pub fn eq_path(&self, other: &EntryPath) -> (r: bool)
        ensures
            r == (self@ == other@),
    {
        if self.parts.len() != other.parts.len() {
            proof {
                if self@ == other@ {
                    assert(self@.len() == other@.len());
                }
            }
            return false;
        }
        let n = self.parts.len();
        let mut i: usize = 0;
        while i < n
            invariant
                i <= n,
                n == self@.len() == other@.len(),
                forall|j: int| 0 <= j < i ==> self@[j] == other@[j],
            decreases n - i,
        {
            if !(self.parts[i] == other.parts[i]) {
                proof {
                    if self@ == other@ {
                        assert(self@[i as int] == other@[i as int]);
                    }
                }
                return false;
            }
            i += 1;
        }
        proof {
            assert(self@ =~= other@);
        }
        true
    }

    /// True when `prefix` is this path or one of its ancestors.
    pub fn starts_with(&self, prefix: &EntryPath) -> (r: bool)
        ensures
            r == is_prefix_of(prefix@, self@),
    {
        if prefix.parts.len() > self.parts.len() {
            return false;
        }
        let n = prefix.parts.len();
        let mut i: usize = 0;
        while i < n
            invariant
                i <= n,
                n == prefix@.len() <= self@.len(),
                forall|j: int| 0 <= j < i ==> prefix@[j] == self@[j],
            decreases n - i,
        {
            if !(prefix.parts[i] == self.parts[i]) {
                proof {
                    if is_prefix_of(prefix@, self@) {
                        assert(prefix@[i as int] == self@[i as int]);
                    }
                }
                return false;
            }
            i += 1;
        }
        true
    }

    /// The path one level up, or `None` at the filesystem root.
    pub fn parent(&self) -> (r: Option<EntryPath>)
        ensures
            match r {
                Some(p) => is_parent_of(p@, self@),
                None => self@.len() == 0,
            },
    {
        if self.parts.len() == 0 {
            return None;
        }
        let mut p = self.duplicate();
        let _ = p.parts.pop();
        proof {
            assert(p@.len() == self@.len() - 1);
            assert(forall|j: int| 0 <= j < p@.len() ==> p@[j] == self@[j]);
        }
        Some(p)
    }

    /// This path extended by one more component.
    pub fn join(&self, name: &String) -> (r: EntryPath)
        ensures
            r@ == self@.push(name@),
    {
        let mut r = self.duplicate();
        r.parts.push(name.clone());
        proof {
            assert(r@ =~= self@.push(name@));
        }
        r
    }

    /// The final component.
    pub fn basename(&self) -> (r: &String)
        requires
            self@.len() > 0,
        ensures
            r@ == self@.last(),
    {
        &self.parts[self.parts.len() - 1]
    }

    /// Lexicographic comparison of one component pair.
    fn component_lt(a: &String, b: &String) -> (r: bool)
        ensures
            r == comp_lt(a@, b@),
    {
        let alen = a.as_str().unicode_len();
        let blen = b.as_str().unicode_len();
        let mut i: usize = 0;
        loop
            invariant
                i <= alen,
                i <= blen,
                alen == a@.len(),
                blen == b@.len(),
                comp_lt(a@, b@) == comp_lt_from(a@, b@, i as int),
            decreases alen - i,
        {
            if i == alen {
                return i < blen;
            }
            if i == blen {
                return false;
            }
            let ca = a.as_str().get_char(i);
            let cb = b.as_str().get_char(i);
            if ca == cb {
                i += 1;
            } else {
                return (ca as u32) < (cb as u32);
            }
        }
    }

    /// Lexicographic comparison of whole paths.
    pub fn lt(&self, other: &EntryPath) -> (r: bool)
        ensures
            r == path_lt(self@, other@),
    {
        let alen = self.parts.len();
        let blen = other.parts.len();
        let mut i: usize = 0;
        loop
            invariant
                i <= alen,
                i <= blen,
                alen == self@.len(),
                blen == other@.len(),
                path_lt(self@, other@) == path_lt_from(self@, other@, i as int),
            decreases alen - i,
        {
            if i == alen {
                return i < blen;
            }
            if i == blen {
                return false;
            }
            if self.parts[i] == other.parts[i] {
                i += 1;
            } else {
                return Self::component_lt(&self.parts[i], &other.parts[i]);
            }
        }
    }
}

} // verus!
