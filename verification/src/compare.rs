//! The merge-based recursive comparison.
//!
//! Two sorted child lists are walked with two cursors; equal names form a
//! matched row, a name present on one side only forms a row whose other
//! half is a synthesized absent entry. A directory's row is followed at
//! once by the rows of its recursive descent, before its later siblings.

use vstd::prelude::*;
use crate::order::{lex_lt, cmp_name, NameOrd, lemma_lex_lt_total};
use crate::tree::{Child, Tree, tree_size, list_size, lemma_list_size_elem, lemma_list_size_skip};

verus! {

/// One side of a comparison row: the entry's name, whether it was actually
/// found on disk on that side, and whether it is a directory. A synthesized
/// partner of a one-sided entry has `exists == false`; its `is_dir` flag is
/// copied from the found side purely for layout symmetry.
#[derive(PartialEq, Eq, Debug)]
pub struct Entry {
    pub name: Vec<u8>,
    pub exists: bool,
    pub is_dir: bool,
}

/// The mathematical value of an `Entry`.
pub ghost struct EntryV {
    pub name: Seq<u8>,
    pub exists: bool,
    pub is_dir: bool,
}

impl View for Entry {
    type V = EntryV;

    open spec fn view(&self) -> EntryV {
        EntryV { name: self.name@, exists: self.exists, is_dir: self.is_dir }
    }
}

impl Entry {
    /// The synthesized partner of a one-sided entry: the same name, marked
    /// as not found.
    pub fn as_nonexistent(&self) -> (e: Entry)
        ensures
            e@ == (EntryV { exists: false, ..self@ }),
    {
        Entry { name: self.name.clone(), exists: false, is_dir: self.is_dir }
    }
}

/// One unit of output: a left and a right entry for the same name, at the
/// recursion depth that indents the rendered line.
#[derive(PartialEq, Eq, Debug)]
pub struct Row {
    pub depth: usize,
    pub left: Entry,
    pub right: Entry,
}

/// The mathematical value of a `Row`.
pub ghost struct RowV {
    pub depth: nat,
    pub left: EntryV,
    pub right: EntryV,
}

impl View for Row {
    type V = RowV;

    open spec fn view(&self) -> RowV {
        RowV { depth: self.depth as nat, left: self.left@, right: self.right@ }
    }
}

/// The values of a sequence of rows.
pub open spec fn rows_view(s: Seq<Row>) -> Seq<RowV> {
    s.map_values(|r: Row| r@)
}

/// The entry value of a child that was found on its side.
pub open spec fn present_of(c: Child) -> EntryV {
    EntryV { name: c.name@, exists: true, is_dir: c.tree is Dir }
}

/// The synthesized entry value for the side on which a child is missing.
pub open spec fn absent_of(c: Child) -> EntryV {
    EntryV { name: c.name@, exists: false, is_dir: c.tree is Dir }
}

/// The rows the merge walk owes for two sorted child lists at one depth:
/// the smaller head (or the only remaining head) goes first as a one-sided
/// row, equal heads form one matched row, and a directory's descent is
/// spliced in right after its row. A file contributes no descent, since
/// its listing on either side is empty.
pub open spec fn spec_rows(a: Seq<Child>, b: Seq<Child>, depth: nat) -> Seq<RowV>
    decreases list_size(a) + list_size(b),
{
    if a.len() > 0 && (b.len() == 0 || lex_lt(a[0].name@, b[0].name@)) {
        proof {
            lemma_list_size_elem(a, 0);
        }
        seq![RowV { depth, left: present_of(a[0]), right: absent_of(a[0]) }]
            + spec_rows(a[0].tree.sub_children(), Seq::empty(), depth + 1)
            + spec_rows(a.subrange(1, a.len() as int), b, depth)
    } else if b.len() > 0 && (a.len() == 0 || lex_lt(b[0].name@, a[0].name@)) {
        proof {
            lemma_list_size_elem(b, 0);
        }
        seq![RowV { depth, left: absent_of(b[0]), right: present_of(b[0]) }]
            + spec_rows(Seq::empty(), b[0].tree.sub_children(), depth + 1)
            + spec_rows(a, b.subrange(1, b.len() as int), depth)
    } else if a.len() > 0 && b.len() > 0 {
        proof {
            lemma_list_size_elem(a, 0);
            lemma_list_size_elem(b, 0);
        }
        seq![RowV { depth, left: present_of(a[0]), right: present_of(b[0]) }]
            + spec_rows(a[0].tree.sub_children(), b[0].tree.sub_children(), depth + 1)
            + spec_rows(a.subrange(1, a.len() as int), b.subrange(1, b.len() as int), depth)
    } else {
        Seq::empty()
    }
}

/// How one cursor step looks on the remaining suffix of a child list.
proof fn lemma_skip_step(s: Seq<Child>, i: int)
    requires
        0 <= i < s.len(),
    ensures
        s.skip(i).len() == s.len() - i,
        s.skip(i)[0] == s[i],
        s.skip(i).subrange(1, s.skip(i).len() as int) =~= s.skip(i + 1),
        list_size(s.skip(i)) == 1 + tree_size(s[i].tree) + list_size(s.skip(i + 1)),
{
    assert(s.skip(i).subrange(1, s.skip(i).len() as int) =~= s.skip(i + 1));
}

/// Append to `out` the comparison rows for two child lists at one depth:
/// the merge walk over both lists, splicing in each directory's descent.
#[verifier::rlimit(100)]
pub fn compare_children(a: &Vec<Child>, b: &Vec<Child>, depth: usize, out: &mut Vec<Row>)
    requires
        depth + list_size(a@) + list_size(b@) <= usize::MAX,
    ensures
        rows_view(final(out)@) == rows_view(old(out)@) + spec_rows(a@, b@, depth as nat),
    decreases list_size(a@) + list_size(b@),
{
    let no_children: Vec<Child> = Vec::new();
    let mut i: usize = 0;
    let mut j: usize = 0;
    proof {
        assert(a@.skip(0) =~= a@);
        assert(b@.skip(0) =~= b@);
    }
    while i < a.len() || j < b.len()
        invariant
            i <= a.len(),
            j <= b.len(),
            no_children@.len() == 0,
            depth + list_size(a@.skip(i as int)) + list_size(b@.skip(j as int)) <= usize::MAX,
            rows_view(out@) + spec_rows(a@.skip(i as int), b@.skip(j as int), depth as nat)
                == rows_view(old(out)@) + spec_rows(a@, b@, depth as nat),
        decreases a.len() - i + b.len() - j,
    {
        let ghost sa = a@.skip(i as int);
        let ghost sb = b@.skip(j as int);
        let ghost rows0 = out@;
        let take_left: bool;
        let take_right: bool;
        if i < a.len() && j < b.len() {
            match cmp_name(&a[i].name, &b[j].name) {
                NameOrd::Lt => {
                    take_left = true;
                    take_right = false;
                }
                NameOrd::Gt => {
                    take_left = false;
                    take_right = true;
                }
                NameOrd::Eq => {
                    take_left = true;
                    take_right = true;
                }
            }
            proof {
                lemma_lex_lt_total(a@[i as int].name@, b@[j as int].name@);
            }
        } else if i < a.len() {
            take_left = true;
            take_right = false;
        } else {
            take_left = false;
            take_right = true;
        }
        if take_left && take_right {
            proof {
                lemma_skip_step(a@, i as int);
                lemma_skip_step(b@, j as int);
                lemma_list_size_elem(a@, i as int);
                lemma_list_size_elem(b@, j as int);
                lemma_list_size_skip(a@, i as int);
                lemma_list_size_skip(b@, j as int);
            }
            let left = Entry {
                name: a[i].name.clone(),
                exists: true,
                is_dir: a[i].tree.is_dir(),
            };
            let right = Entry {
                name: b[j].name.clone(),
                exists: true,
                is_dir: b[j].tree.is_dir(),
            };
            out.push(Row { depth, left, right });
            let sub_a: &Vec<Child> = match &a[i].tree {
                Tree::Dir(cs) => cs,
                Tree::File => &no_children,
            };
            let sub_b: &Vec<Child> = match &b[j].tree {
                Tree::Dir(cs) => cs,
                Tree::File => &no_children,
            };
            proof {
                assert(sub_a@ =~= a@[i as int].tree.sub_children());
                assert(sub_b@ =~= b@[j as int].tree.sub_children());
            }
            compare_children(sub_a, sub_b, depth + 1, out);
            proof {
                assert(spec_rows(sa, sb, depth as nat)
                    =~= seq![RowV {
                        depth: depth as nat,
                        left: present_of(sa[0]),
                        right: present_of(sb[0]),
                    }] + spec_rows(sub_a@, sub_b@, depth as nat + 1)
                        + spec_rows(a@.skip(i as int + 1), b@.skip(j as int + 1), depth as nat));
                assert(rows_view(out@) =~= rows_view(rows0)
                    + seq![RowV {
                        depth: depth as nat,
                        left: present_of(sa[0]),
                        right: present_of(sb[0]),
                    }] + spec_rows(sub_a@, sub_b@, depth as nat + 1));
                assert(rows_view(out@)
                    + spec_rows(a@.skip(i as int + 1), b@.skip(j as int + 1), depth as nat)
                    =~= rows_view(rows0) + spec_rows(sa, sb, depth as nat));
            }
            i = i + 1;
            j = j + 1;
        } else if take_left {
            proof {
                lemma_skip_step(a@, i as int);
                lemma_list_size_elem(a@, i as int);
                lemma_list_size_skip(a@, i as int);
            }
            let found = Entry {
                name: a[i].name.clone(),
                exists: true,
                is_dir: a[i].tree.is_dir(),
            };
            let missing = found.as_nonexistent();
            out.push(Row { depth, left: found, right: missing });
            let sub_a: &Vec<Child> = match &a[i].tree {
                Tree::Dir(cs) => cs,
                Tree::File => &no_children,
            };
            proof {
                assert(sub_a@ =~= a@[i as int].tree.sub_children());
            }
            compare_children(sub_a, &no_children, depth + 1, out);
            proof {
                assert(no_children@ =~= Seq::<Child>::empty());
                assert(list_size(no_children@) == 0);
                assert(spec_rows(sa, sb, depth as nat)
                    =~= seq![RowV {
                        depth: depth as nat,
                        left: present_of(sa[0]),
                        right: absent_of(sa[0]),
                    }] + spec_rows(sub_a@, Seq::empty(), depth as nat + 1)
                        + spec_rows(a@.skip(i as int + 1), sb, depth as nat));
                assert(rows_view(out@) =~= rows_view(rows0)
                    + seq![RowV {
                        depth: depth as nat,
                        left: present_of(sa[0]),
                        right: absent_of(sa[0]),
                    }] + spec_rows(sub_a@, Seq::empty(), depth as nat + 1));
                assert(rows_view(out@) + spec_rows(a@.skip(i as int + 1), sb, depth as nat)
                    =~= rows_view(rows0) + spec_rows(sa, sb, depth as nat));
            }
            i = i + 1;
        } else {
            proof {
                lemma_skip_step(b@, j as int);
                lemma_list_size_elem(b@, j as int);
                lemma_list_size_skip(b@, j as int);
            }
            let found = Entry {
                name: b[j].name.clone(),
                exists: true,
                is_dir: b[j].tree.is_dir(),
            };
            let missing = found.as_nonexistent();
            out.push(Row { depth, left: missing, right: found });
            let sub_b: &Vec<Child> = match &b[j].tree {
                Tree::Dir(cs) => cs,
                Tree::File => &no_children,
            };
            proof {
                assert(sub_b@ =~= b@[j as int].tree.sub_children());
            }
            compare_children(&no_children, sub_b, depth + 1, out);
            proof {
                assert(no_children@ =~= Seq::<Child>::empty());
                assert(list_size(no_children@) == 0);
                assert(spec_rows(sa, sb, depth as nat)
                    =~= seq![RowV {
                        depth: depth as nat,
                        left: absent_of(sb[0]),
                        right: present_of(sb[0]),
                    }] + spec_rows(Seq::empty(), sub_b@, depth as nat + 1)
                        + spec_rows(sa, b@.skip(j as int + 1), depth as nat));
                assert(rows_view(out@) =~= rows_view(rows0)
                    + seq![RowV {
                        depth: depth as nat,
                        left: absent_of(sb[0]),
                        right: present_of(sb[0]),
                    }] + spec_rows(Seq::empty(), sub_b@, depth as nat + 1));
                assert(rows_view(out@) + spec_rows(sa, b@.skip(j as int + 1), depth as nat)
                    =~= rows_view(rows0) + spec_rows(sa, sb, depth as nat));
            }
            j = j + 1;
        }
    }
    proof {
        assert(a@.skip(a@.len() as int) =~= Seq::<Child>::empty());
        assert(b@.skip(b@.len() as int) =~= Seq::<Child>::empty());
        assert(rows_view(out@) + Seq::<RowV>::empty() =~= rows_view(out@));
    }
}

/// Compare two whole trees: the rows for their root child lists at depth
/// zero, in traversal order. A root that is not a directory contributes an
/// empty listing, the same treatment an unreadable path receives.
pub fn compare_trees(left: &Tree, right: &Tree) -> (rows: Vec<Row>)
    requires
        tree_size(*left) + tree_size(*right) <= usize::MAX,
    ensures
        rows_view(rows@) == spec_rows(left.sub_children(), right.sub_children(), 0),
{
    let no_children: Vec<Child> = Vec::new();
    let a: &Vec<Child> = match left {
        Tree::Dir(cs) => cs,
        Tree::File => &no_children,
    };
    let b: &Vec<Child> = match right {
        Tree::Dir(cs) => cs,
        Tree::File => &no_children,
    };
    proof {
        assert(a@ =~= left.sub_children());
        assert(b@ =~= right.sub_children());
    }
    let mut rows: Vec<Row> = Vec::new();
    compare_children(a, b, 0, &mut rows);
    proof {
        assert(rows_view(Seq::<Row>::empty()) =~= Seq::<RowV>::empty());
        assert(Seq::<RowV>::empty() + spec_rows(a@, b@, 0) =~= spec_rows(a@, b@, 0));
    }
    rows
}

} // verus!
