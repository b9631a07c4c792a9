use biff::compare::{compare_trees, Entry, Row};
use biff::tree::{Child, Tree};

fn file(name: &str) -> Child {
    Child { name: name.as_bytes().to_vec(), tree: Tree::File }
}

fn dir(name: &str, children: Vec<Child>) -> Child {
    Child { name: name.as_bytes().to_vec(), tree: Tree::Dir(children) }
}

fn entry(name: &str, exists: bool, is_dir: bool) -> Entry {
    Entry { name: name.as_bytes().to_vec(), exists, is_dir }
}

fn row(depth: usize, left: Entry, right: Entry) -> Row {
    Row { depth, left, right }
}

#[test]
fn scenario_one_sided_directory() {
    // A = {x.txt, y/}, B = {x.txt}: one matched row, then y/ with the
    // right side absent.
    let a = Tree::Dir(vec![file("x.txt"), dir("y", vec![])]);
    let b = Tree::Dir(vec![file("x.txt")]);
    let rows = compare_trees(&a, &b);
    assert_eq!(
        rows,
        vec![
            row(0, entry("x.txt", true, false), entry("x.txt", true, false)),
            row(0, entry("y", true, true), entry("y", false, true)),
        ]
    );
}

#[test]
fn scenario_one_sided_directory_with_contents() {
    // As above, but y/ has contents: they are recursed and all reported
    // as left-only, right after y's own row.
    let a = Tree::Dir(vec![file("x.txt"), dir("y", vec![file("z.txt")])]);
    let b = Tree::Dir(vec![file("x.txt")]);
    let rows = compare_trees(&a, &b);
    assert_eq!(
        rows,
        vec![
            row(0, entry("x.txt", true, false), entry("x.txt", true, false)),
            row(0, entry("y", true, true), entry("y", false, true)),
            row(1, entry("z.txt", true, false), entry("z.txt", false, false)),
        ]
    );
}

#[test]
fn scenario_both_empty() {
    // Two empty directories: no rows at all.
    let a = Tree::Dir(vec![]);
    let b = Tree::Dir(vec![]);
    let rows = compare_trees(&a, &b);
    assert!(rows.is_empty());
}

#[test]
fn scenario_deep_one_sided() {
    // A has sub/deep/file.txt, B has sub/ only: matched sub, then the
    // deeper levels all left-only at increasing depths.
    let a = Tree::Dir(vec![dir("sub", vec![dir("deep", vec![file("file.txt")])])]);
    let b = Tree::Dir(vec![dir("sub", vec![])]);
    let rows = compare_trees(&a, &b);
    assert_eq!(
        rows,
        vec![
            row(0, entry("sub", true, true), entry("sub", true, true)),
            row(1, entry("deep", true, true), entry("deep", false, true)),
            row(2, entry("file.txt", true, false), entry("file.txt", false, false)),
        ]
    );
}

#[test]
fn scenario_file_versus_directory() {
    // m is a file under A and a directory under B: one matched row for m,
    // then B/m's children reported as right-only.
    let a = Tree::Dir(vec![file("m")]);
    let b = Tree::Dir(vec![dir("m", vec![file("n.txt")])]);
    let rows = compare_trees(&a, &b);
    assert_eq!(
        rows,
        vec![
            row(0, entry("m", true, false), entry("m", true, true)),
            row(1, entry("n.txt", false, false), entry("n.txt", true, false)),
        ]
    );
}

#[test]
fn symmetry_swaps_sides() {
    // Comparing (B, A) gives the same names and depths with the two
    // halves of every row exchanged.
    let a = Tree::Dir(vec![dir("sub", vec![dir("deep", vec![file("file.txt")])]), file("top")]);
    let b = Tree::Dir(vec![file("extra"), dir("sub", vec![])]);
    let ab = compare_trees(&a, &b);
    let ba = compare_trees(&b, &a);
    assert_eq!(ab.len(), ba.len());
    for (r1, r2) in ab.iter().zip(ba.iter()) {
        assert_eq!(r1.depth, r2.depth);
        assert_eq!(r1.left, r2.right);
        assert_eq!(r1.right, r2.left);
    }
}

#[test]
fn idempotent_reruns_match() {
    // Two runs on unchanged trees yield identical output.
    let mk_a = || Tree::Dir(vec![dir("d", vec![file("inner")]), file("f")]);
    let mk_b = || Tree::Dir(vec![file("d"), file("g")]);
    let first = compare_trees(&mk_a(), &mk_b());
    let second = compare_trees(&mk_a(), &mk_b());
    assert_eq!(first, second);
}

#[test]
fn level_rows_complete_ordered_unique() {
    // Every top-level name of either side appears exactly once, in
    // strictly increasing byte order, flagged with the side that has it.
    let a = Tree::Dir(vec![dir("alpha", vec![]), file("delta")]);
    let b = Tree::Dir(vec![file("bravo"), file("delta")]);
    let rows = compare_trees(&a, &b);
    let top: Vec<&Row> = rows.iter().filter(|r| r.depth == 0).collect();
    let names: Vec<&[u8]> = top.iter().map(|r| r.left.name.as_slice()).collect();
    assert_eq!(names, vec![b"alpha".as_slice(), b"bravo", b"delta"]);
    for w in names.windows(2) {
        assert!(w[0] < w[1]);
    }
    assert!(top[0].left.exists && !top[0].right.exists);
    assert!(!top[1].left.exists && top[1].right.exists);
    assert!(top[2].left.exists && top[2].right.exists);
    for r in &rows {
        assert!(r.left.exists || r.right.exists);
        assert_eq!(r.left.name, r.right.name);
    }
}

#[test]
fn non_directory_root_is_empty_listing() {
    // A root that is not a directory contributes an empty listing, so
    // everything on the other side is one-sided.
    let a = Tree::File;
    let b = Tree::Dir(vec![file("only.txt")]);
    let rows = compare_trees(&a, &b);
    assert_eq!(
        rows,
        vec![row(0, entry("only.txt", false, false), entry("only.txt", true, false))]
    );
}
