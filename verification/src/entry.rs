//! The entry model: one filesystem object together with its UI flags.
//!
//! An entry is a file, a directory or a symlink, at an absolute path, with
//! the metadata a directory listing yields.  Directories carry the
//! `expanded` flag; every entry carries `selected` (the navigation cursor)
//! and `marked` (the multi-selection used by cross-pane moves).

use vstd::prelude::*;

use crate::path::EntryPath;

verus! {

/// Plain metadata of one filesystem object: size in bytes, modification
/// time in seconds, and permission bits.
#[derive(Debug, Clone, Copy, PartialEq, Eq, Structural)]
pub struct FsMeta {
    pub size: u64,
    pub modified: u64,
    pub mode: u32,
}

impl FsMeta {
    pub fn zero() -> (r: FsMeta)
        ensures
            r == (FsMeta { size: 0, modified: 0, mode: 0 }),
    {
        FsMeta { size: 0, modified: 0, mode: 0 }
    }
}

/// The closed set of entry kinds.  Only a directory can be expanded; a
/// symlink records the path it points to, not followed.
#[derive(Debug)]
pub enum EntryKind {
    File,
    Directory { expanded: bool },
    Symlink { target: String },
}

/// Mathematical image of an [`EntryKind`].
pub enum EntryKindView {
    File,
    Directory { expanded: bool },
    Symlink { target: Seq<char> },
}

impl View for EntryKind {
    type V = EntryKindView;

    open spec fn view(&self) -> EntryKindView {
        match self {
            EntryKind::File => EntryKindView::File,
            EntryKind::Directory { expanded } => EntryKindView::Directory { expanded: *expanded },
            EntryKind::Symlink { target } => EntryKindView::Symlink { target: target@ },
        }
    }
}

impl EntryKindView {
    /// Directory, whether expanded or not.
    pub open spec fn is_dir(self) -> bool {
        self is Directory
    }

    /// Expanded directory.
    pub open spec fn is_expanded_dir(self) -> bool {
        match self {
            EntryKindView::Directory { expanded } => expanded,
            _ => false,
        }
    }

    /// Same basic kind: both files, both directories, or both symlinks,
    /// flags and targets aside.
    pub open spec fn matches(self, o: EntryKindView) -> bool {
        match (self, o) {
            (EntryKindView::File, EntryKindView::File) => true,
            (EntryKindView::Directory { .. }, EntryKindView::Directory { .. }) => true,
            (EntryKindView::Symlink { .. }, EntryKindView::Symlink { .. }) => true,
            _ => false,
        }
    }

    /// The same kind with the expansion flag forced, where it exists.
    pub open spec fn with_expanded(self, e: bool) -> EntryKindView {
        match self {
            EntryKindView::Directory { expanded: _ } => EntryKindView::Directory { expanded: e },
            k => k,
        }
    }
}

impl EntryKind {
    /// Structural copy; the view is preserved exactly.
    pub fn duplicate(&self) -> (r: EntryKind)
        ensures
            r@ == self@,
    {
        match self {
            EntryKind::File => EntryKind::File,
            EntryKind::Directory { expanded } => EntryKind::Directory { expanded: *expanded },
            EntryKind::Symlink { target } => EntryKind::Symlink { target: target.clone() },
        }
    }
}

/// One filesystem entry with its UI state.
#[derive(Debug)]
pub struct Entry {
    pub path: EntryPath,
    pub kind: EntryKind,
    pub meta: FsMeta,
    pub selected: bool,
    pub marked: bool,
}

/// Mathematical image of an [`Entry`].
pub struct EntryView {
    pub path: Seq<Seq<char>>,
    pub kind: EntryKindView,
    pub meta: FsMeta,
    pub selected: bool,
    pub marked: bool,
}

impl View for Entry {
    type V = EntryView;

    open spec fn view(&self) -> EntryView {
        EntryView {
            path: self.path@,
            kind: self.kind@,
            meta: self.meta,
            selected: self.selected,
            marked: self.marked,
        }
    }
}

impl DeepView for Entry {
    type V = EntryView;

    open spec fn deep_view(&self) -> EntryView {
        self.view()
    }
}

impl EntryView {
    pub open spec fn with_selected(self, v: bool) -> EntryView {
        EntryView { selected: v, ..self }
    }

    pub open spec fn with_marked(self, v: bool) -> EntryView {
        EntryView { marked: v, ..self }
    }

    pub open spec fn with_expanded(self, v: bool) -> EntryView {
        EntryView { kind: self.kind.with_expanded(v), ..self }
    }

    pub open spec fn with_path(self, p: Seq<Seq<char>>) -> EntryView {
        EntryView { path: p, ..self }
    }
}

impl Entry {
    /// A fresh directory entry, collapsed, with no flags set.
    pub fn new_dir(path: EntryPath, meta: FsMeta) -> (r: Entry)
        ensures
            r@ == (EntryView {
                path: path@,
                kind: EntryKindView::Directory { expanded: false },
                meta,
                selected: false,
                marked: false,
            }),
    {
        Entry {
            path,
            kind: EntryKind::Directory { expanded: false },
            meta,
            selected: false,
            marked: false,
        }
    }

    /// Structural copy; the view is preserved exactly.
    pub fn duplicate(&self) -> (r: Entry)
        ensures
            r@ == self@,
    {
        Entry {
            path: self.path.duplicate(),
            kind: self.kind.duplicate(),
            meta: self.meta,
            selected: self.selected,
            marked: self.marked,
        }
    }

    /// The entry's display name: the last component of its path.
    pub fn name(&self) -> (r: &String)
        requires
            self@.path.len() > 0,
        ensures
            r@ == self@.path.last(),
    {
        self.path.basename()
    }

    pub fn is_dir(&self) -> (r: bool)
        ensures
            r == self@.kind.is_dir(),
    {
        match &self.kind {
            EntryKind::Directory { .. } => true,
            _ => false,
        }
    }

    pub fn set_selected(&mut self, v: bool)
        ensures
            final(self)@ == old(self)@.with_selected(v),
    {
        self.selected = v;
    }

    pub fn set_marked(&mut self, v: bool)
        ensures
            final(self)@ == old(self)@.with_marked(v),
    {
        self.marked = v;
    }

    /// Force the expansion flag; entries that are not directories are left
    /// unchanged.
    pub fn set_expanded(&mut self, v: bool)
        ensures
            final(self)@ == old(self)@.with_expanded(v),
    {
        match &mut self.kind {
            EntryKind::Directory { expanded } => {
                *expanded = v;
            },
            _ => {},
        }
    }

    pub fn set_path(&mut self, p: EntryPath)
        ensures
            final(self)@ == old(self)@.with_path(p@),
    {
        self.path = p;
    }

    pub fn is_expanded_dir(&self) -> (r: bool)
        ensures
            r == self@.kind.is_expanded_dir(),
    {
        match &self.kind {
            EntryKind::Directory { expanded } => *expanded,
            _ => false,
        }
    }

    pub fn is_marked(&self) -> (r: bool)
        ensures
            r == self@.marked,
    {
        self.marked
    }

    pub fn is_selected(&self) -> (r: bool)
        ensures
            r == self@.selected,
    {
        self.selected
    }
}

/// The kind field of one directory-listing record.
#[derive(Debug)]
pub enum FsNodeKind {
    File,
    Directory,
    Symlink { target: String },
}

/// Mathematical image of an [`FsNodeKind`].
pub enum FsNodeKindView {
    File,
    Directory,
    Symlink { target: Seq<char> },
}

impl View for FsNodeKind {
    type V = FsNodeKindView;

    open spec fn view(&self) -> FsNodeKindView {
        match self {
            FsNodeKind::File => FsNodeKindView::File,
            FsNodeKind::Directory => FsNodeKindView::Directory,
            FsNodeKind::Symlink { target } => FsNodeKindView::Symlink { target: target@ },
        }
    }
}

/// One record of a directory listing, as the host hands it in: the child's
/// name (one component, no separators) with its kind and metadata.
#[derive(Debug)]
pub struct FsRecord {
    pub name: String,
    pub kind: FsNodeKind,
    pub size: u64,
    pub modified: u64,
    pub mode: u32,
}

/// Mathematical image of an [`FsRecord`].
pub struct FsRecordView {
    pub name: Seq<char>,
    pub kind: FsNodeKindView,
    pub size: u64,
    pub modified: u64,
    pub mode: u32,
}

impl View for FsRecord {
    type V = FsRecordView;

    open spec fn view(&self) -> FsRecordView {
        FsRecordView {
            name: self.name@,
            kind: self.kind@,
            size: self.size,
            modified: self.modified,
            mode: self.mode,
        }
    }
}

impl DeepView for FsRecord {
    type V = FsRecordView;

    open spec fn deep_view(&self) -> FsRecordView {
        self.view()
    }
}

impl FsRecordView {
    /// The entry kind a listing record denotes, before any cached flags are
    /// re-applied: directories start collapsed.
    pub open spec fn fresh_kind(self) -> EntryKindView {
        match self.kind {
            FsNodeKindView::File => EntryKindView::File,
            FsNodeKindView::Directory => EntryKindView::Directory { expanded: false },
            FsNodeKindView::Symlink { target } => EntryKindView::Symlink { target },
        }
    }

    pub open spec fn meta(self) -> FsMeta {
        FsMeta { size: self.size, modified: self.modified, mode: self.mode }
    }

    /// Record and entry agree on the basic kind (flags aside).
    pub open spec fn same_kind(self, k: EntryKindView) -> bool {
        match (self.kind, k) {
            (FsNodeKindView::File, EntryKindView::File) => true,
            (FsNodeKindView::Directory, EntryKindView::Directory { .. }) => true,
            (FsNodeKindView::Symlink { .. }, EntryKindView::Symlink { .. }) => true,
            _ => false,
        }
    }
}

impl FsRecord {
    pub fn is_dir(&self) -> (r: bool)
        ensures
            r == (self@.kind is Directory),
    {
        match &self.kind {
            FsNodeKind::Directory => true,
            _ => false,
        }
    }
}

} // verus!
