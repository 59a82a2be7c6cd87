//! A virtual file system of roots that are resolved lazily.
//!
//! A node is a directory or a file; a directory starts unresolved, with its
//! contents unknown until they are read.
use vstd::prelude::*;

verus! {

/// A set of roots, the starting points for resolution.
pub struct Vfs {
    roots: Vec<VfsNode>,
}

/// A directory or a file.
pub enum VfsNode {
    Directory(VfsDirectory),
    File(VfsFile),
}

/// A directory: its path, and its entries once resolved.
pub struct VfsDirectory {
    dirname: String,
    contents: Option<Vec<VfsNode>>,
}

/// A file.
pub struct VfsFile;

impl VfsDirectory {
    pub closed spec fn dirname_view(&self) -> Seq<char> {
        self.dirname@
    }

    pub closed spec fn is_resolved(&self) -> bool {
        self.contents is Some
    }

    /// An unresolved directory at `dirname`.
    pub fn new(dirname: &str) -> (r: VfsDirectory)
        ensures
            r.dirname_view() == dirname@,
            !r.is_resolved(),
    {
        VfsDirectory { dirname: dirname.to_string(), contents: None }
    }

    /// The directory's path.
    pub fn dirname(&self) -> (r: &str)
        ensures
            r@ == self.dirname_view(),
    {
        self.dirname.as_str()
    }

    /// Whether the directory's entries have been read.
    pub fn resolved(&self) -> (r: bool)
        ensures
            r == self.is_resolved(),
    {
        self.contents.is_some()
    }
}

/// An unresolved directory at the given path.
pub open spec fn unresolved_dir(node: VfsNode, dirname: Seq<char>) -> bool {
    match node {
        VfsNode::Directory(d) => d.dirname_view() == dirname && !d.is_resolved(),
        VfsNode::File(_) => false,
    }
}

impl Vfs {
    pub closed spec fn roots(&self) -> Seq<VfsNode> {
        self.roots@
    }

    /// A file system with no roots.
    pub fn empty() -> (r: Vfs)
        ensures
            r.roots() == Seq::<VfsNode>::empty(),
    {
        Vfs { roots: Vec::new() }
    }

    /// Adds an unresolved directory at `dir` as the last root.
    pub fn add_root_from_dir(&mut self, dir: &str)
        ensures
            final(self).roots().len() == old(self).roots().len() + 1,
            final(self).roots().subrange(0, old(self).roots().len() as int) == old(self).roots(),
            unresolved_dir(final(self).roots().last(), dir@),
    {
        let dir_node = VfsDirectory::new(dir);
        self.roots.push(VfsNode::Directory(dir_node));
        proof {
            assert(self.roots@.subrange(0, old(self).roots@.len() as int) =~= old(self).roots@);
        }
    }

    /// The number of roots.
    pub fn root_count(&self) -> (r: usize)
        ensures
            r == self.roots().len(),
    {
        self.roots.len()
    }

    /// The path of the root at `index`, where that root is a directory.
    pub fn root_dirname(&self, index: usize) -> (r: Option<&str>)
        requires
            index < self.roots().len(),
        ensures
            match self.roots()[index as int] {
                VfsNode::Directory(d) => r is Some && r->Some_0@ == d.dirname_view(),
                VfsNode::File(_) => r is None,
            },
    {
        match &self.roots[index] {
            VfsNode::Directory(d) => Some(d.dirname()),
            VfsNode::File(_) => None,
        }
    }
}

} // verus!
