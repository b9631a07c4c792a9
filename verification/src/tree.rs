//! In-memory directory trees.
//!
//! The comparator works on plain values: a tree node is either a file (any
//! non-directory) or a directory carrying its immediate children, each child
//! a raw name with the subtree below it.

use vstd::prelude::*;
use crate::order::lex_lt;

verus! {

/// One immediate child of a directory: its name (the final path component,
/// raw bytes, the comparison key) and what hangs below it.
#[derive(PartialEq, Eq, Debug)]
pub struct Child {
    pub name: Vec<u8>,
    pub tree: Tree,
}

/// A node of an in-memory directory tree. Anything that is not a directory
/// is a `File`; a directory carries its children.
#[derive(PartialEq, Eq, Debug)]
pub enum Tree {
    File,
    Dir(Vec<Child>),
}

impl Tree {
    /// Whether this node is a directory.
    pub open spec fn spec_is_dir(self) -> bool {
        self is Dir
    }

    /// Whether this node is a directory.
    pub fn is_dir(&self) -> (r: bool)
        ensures
            r == self.spec_is_dir(),
    {
        match self {
            Tree::Dir(_) => true,
            Tree::File => false,
        }
    }

    /// The children of this node; a file has none, as the directory
    /// listing of a non-directory path is empty.
    pub open spec fn sub_children(self) -> Seq<Child> {
        match self {
            Tree::File => Seq::empty(),
            Tree::Dir(cs) => cs@,
        }
    }
}

/// Number of entries anywhere below a node (the node itself not counted).
pub open spec fn tree_size(t: Tree) -> nat
    decreases t,
{
    match t {
        Tree::File => 0,
        Tree::Dir(cs) => list_size(cs@),
    }
}

/// Number of entries in a child list, each child counting itself and
/// everything below it.
pub open spec fn list_size(s: Seq<Child>) -> nat
    decreases s,
{
    if s.len() == 0 {
        0
    } else {
        1 + tree_size(s[0].tree) + list_size(s.subrange(1, s.len() as int))
    }
}

/// Names strictly increase along a child list: sorted, and no name occurs
/// twice (a filesystem guarantee the comparator may rely on).
pub open spec fn sorted_names(s: Seq<Child>) -> bool {
    forall|i: int, j: int| 0 <= i < j < s.len() ==> lex_lt(s[i].name@, s[j].name@)
}

/// A well-formed tree: every directory level is strictly sorted by name.
pub open spec fn tree_wf(t: Tree) -> bool
    decreases t,
{
    match t {
        Tree::File => true,
        Tree::Dir(cs) => list_wf(cs@),
    }
}

/// A well-formed child list: strictly sorted, every subtree well-formed.
pub open spec fn list_wf(s: Seq<Child>) -> bool
    decreases s,
{
    sorted_names(s) && (forall|i: int| 0 <= i < s.len() ==> tree_wf(#[trigger] s[i].tree))
}

/// The children of a well-formed tree form a well-formed list.
pub proof fn lemma_tree_wf_sub(t: Tree)
    requires
        tree_wf(t),
    ensures
        list_wf(t.sub_children()),
{
    match t {
        Tree::File => {
            assert(t.sub_children().len() == 0);
        }
        Tree::Dir(_) => {}
    }
}

/// Each child of a list accounts for at least itself and its subtree
/// within the list's total size.
pub proof fn lemma_list_size_elem(s: Seq<Child>, i: int)
    requires
        0 <= i < s.len(),
    ensures
        1 + tree_size(s[i].tree) <= list_size(s),
    decreases s.len(),
{
    if i > 0 {
        lemma_list_size_elem(s.subrange(1, s.len() as int), i - 1);
        assert(s.subrange(1, s.len() as int)[i - 1] == s[i]);
    }
}

/// Dropping a prefix of a child list cannot grow its size.
pub proof fn lemma_list_size_skip(s: Seq<Child>, i: int)
    requires
        0 <= i <= s.len(),
    ensures
        list_size(s.skip(i)) <= list_size(s),
    decreases i,
{
    if i > 0 {
        lemma_list_size_skip(s.subrange(1, s.len() as int), i - 1);
        assert(s.subrange(1, s.len() as int).skip(i - 1) =~= s.skip(i));
    } else {
        assert(s.skip(0) =~= s);
    }
}

} // verus!
