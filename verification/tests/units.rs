use biff::compare::Entry;
use biff::order::{cmp_name, name_lt, NameOrd};
use biff::sort::sort_children;
use biff::tree::{Child, Tree};

fn name(s: &str) -> Vec<u8> {
    s.as_bytes().to_vec()
}

#[test]
fn cmp_name_byte_order() {
    assert_eq!(cmp_name(&name("a"), &name("b")), NameOrd::Lt);
    assert_eq!(cmp_name(&name("b"), &name("a")), NameOrd::Gt);
    assert_eq!(cmp_name(&name("same"), &name("same")), NameOrd::Eq);
    // a strict prefix comes first
    assert_eq!(cmp_name(&name("a"), &name("ab")), NameOrd::Lt);
    assert_eq!(cmp_name(&name("ab"), &name("a")), NameOrd::Gt);
    // raw byte order, so upper case sorts before lower case
    assert_eq!(cmp_name(&name("B"), &name("a")), NameOrd::Lt);
    // the empty name comes before any other
    assert_eq!(cmp_name(&name(""), &name("x")), NameOrd::Lt);
    assert_eq!(cmp_name(&name(""), &name("")), NameOrd::Eq);
}

#[test]
fn name_lt_matches_cmp() {
    assert!(name_lt(&name("aa"), &name("ab")));
    assert!(!name_lt(&name("ab"), &name("aa")));
    assert!(!name_lt(&name("aa"), &name("aa")));
}

#[test]
fn sort_children_orders_by_name() {
    let mut cs = vec![
        Child { name: name("c"), tree: Tree::File },
        Child { name: name("a"), tree: Tree::Dir(vec![]) },
        Child { name: name("b"), tree: Tree::File },
    ];
    sort_children(&mut cs);
    let names: Vec<&[u8]> = cs.iter().map(|c| c.name.as_slice()).collect();
    assert_eq!(names, vec![b"a".as_slice(), b"b", b"c"]);
    // each child kept its own subtree
    assert_eq!(cs[0].tree, Tree::Dir(vec![]));
    assert_eq!(cs[1].tree, Tree::File);
    assert_eq!(cs[2].tree, Tree::File);
}

#[test]
fn sort_children_already_sorted() {
    let mut cs = vec![
        Child { name: name("x"), tree: Tree::File },
        Child { name: name("y"), tree: Tree::File },
    ];
    sort_children(&mut cs);
    assert_eq!(cs.len(), 2);
    assert_eq!(cs[0].name, name("x"));
    assert_eq!(cs[1].name, name("y"));
}

#[test]
fn sort_children_empty() {
    let mut cs: Vec<Child> = vec![];
    sort_children(&mut cs);
    assert!(cs.is_empty());
}

#[test]
fn as_nonexistent_keeps_name_and_kind() {
    let e = Entry { name: name("thing"), exists: true, is_dir: true };
    let gone = e.as_nonexistent();
    assert_eq!(gone.name, name("thing"));
    assert!(!gone.exists);
    assert!(gone.is_dir);
}
