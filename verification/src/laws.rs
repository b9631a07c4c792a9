//! Properties of the comparison, proved once and for all trees.

use vstd::prelude::*;
use crate::order::{lex_lt, lemma_lex_lt_total, lemma_lex_lt_trans};
use crate::tree::{Child, list_size, list_wf, tree_wf, sorted_names, lemma_list_size_elem, lemma_tree_wf_sub};
use crate::compare::{RowV, spec_rows, present_of, absent_of};

verus! {

/// The mirror of a row: the two sides exchanged, the depth kept.
pub open spec fn swap_row(r: RowV) -> RowV {
    RowV { depth: r.depth, left: r.right, right: r.left }
}

/// Symmetry of absence: comparing the trees the other way round yields the
/// same rows in the same order and at the same depths, with the left and
/// right halves of every row exchanged.
pub proof fn lemma_symmetry(a: Seq<Child>, b: Seq<Child>, depth: nat)
    ensures
        spec_rows(b, a, depth) == spec_rows(a, b, depth).map_values(|r: RowV| swap_row(r)),
    decreases list_size(a) + list_size(b),
{
    if a.len() > 0 && b.len() > 0 {
        lemma_lex_lt_total(a[0].name@, b[0].name@);
    }
    if a.len() > 0 && (b.len() == 0 || lex_lt(a[0].name@, b[0].name@)) {
        lemma_list_size_elem(a, 0);
        lemma_symmetry(a[0].tree.sub_children(), Seq::empty(), depth + 1);
        lemma_symmetry(a.subrange(1, a.len() as int), b, depth);
        assert(spec_rows(b, a, depth)
            =~= spec_rows(a, b, depth).map_values(|r: RowV| swap_row(r)));
    } else if b.len() > 0 && (a.len() == 0 || lex_lt(b[0].name@, a[0].name@)) {
        lemma_list_size_elem(b, 0);
        lemma_symmetry(Seq::empty(), b[0].tree.sub_children(), depth + 1);
        lemma_symmetry(a, b.subrange(1, b.len() as int), depth);
        assert(spec_rows(b, a, depth)
            =~= spec_rows(a, b, depth).map_values(|r: RowV| swap_row(r)));
    } else if a.len() > 0 && b.len() > 0 {
        lemma_list_size_elem(a, 0);
        lemma_list_size_elem(b, 0);
        lemma_symmetry(a[0].tree.sub_children(), b[0].tree.sub_children(), depth + 1);
        lemma_symmetry(a.subrange(1, a.len() as int), b.subrange(1, b.len() as int), depth);
        assert(spec_rows(b, a, depth)
            =~= spec_rows(a, b, depth).map_values(|r: RowV| swap_row(r)));
    } else {
        assert(spec_rows(b, a, depth)
            =~= spec_rows(a, b, depth).map_values(|r: RowV| swap_row(r)));
    }
}

/// Idempotence: the rows owed for a pair of trees are a function of the
/// trees alone, so two runs over unchanged trees yield identical output.
pub proof fn lemma_deterministic(
    r1: Seq<RowV>,
    r2: Seq<RowV>,
    a: Seq<Child>,
    b: Seq<Child>,
    depth: nat,
)
    requires
        r1 == spec_rows(a, b, depth),
        r2 == spec_rows(a, b, depth),
    ensures
        r1 == r2,
{
}

/// No row of a walk started at some depth lies above that depth: the rows
/// of a recursive descent all lie strictly below their directory's row.
pub proof fn lemma_rows_depth(a: Seq<Child>, b: Seq<Child>, depth: nat)
    ensures
        forall|k: int|
            0 <= k < spec_rows(a, b, depth).len()
                ==> (#[trigger] spec_rows(a, b, depth)[k]).depth >= depth,
    decreases list_size(a) + list_size(b),
{
    let r = spec_rows(a, b, depth);
    if a.len() > 0 && (b.len() == 0 || lex_lt(a[0].name@, b[0].name@)) {
        lemma_list_size_elem(a, 0);
        lemma_rows_depth(a[0].tree.sub_children(), Seq::empty(), depth + 1);
        lemma_rows_depth(a.subrange(1, a.len() as int), b, depth);
        let d1 = spec_rows(a[0].tree.sub_children(), Seq::empty(), depth + 1);
        let d2 = spec_rows(a.subrange(1, a.len() as int), b, depth);
        assert forall|k: int| 0 <= k < r.len() implies (#[trigger] r[k]).depth >= depth by {
            if 1 <= k < 1 + d1.len() {
                assert(r[k] == d1[k - 1]);
            } else if k >= 1 + d1.len() {
                assert(r[k] == d2[k - 1 - d1.len()]);
            }
        }
    } else if b.len() > 0 && (a.len() == 0 || lex_lt(b[0].name@, a[0].name@)) {
        lemma_list_size_elem(b, 0);
        lemma_rows_depth(Seq::empty(), b[0].tree.sub_children(), depth + 1);
        lemma_rows_depth(a, b.subrange(1, b.len() as int), depth);
        let d1 = spec_rows(Seq::empty(), b[0].tree.sub_children(), depth + 1);
        let d2 = spec_rows(a, b.subrange(1, b.len() as int), depth);
        assert forall|k: int| 0 <= k < r.len() implies (#[trigger] r[k]).depth >= depth by {
            if 1 <= k < 1 + d1.len() {
                assert(r[k] == d1[k - 1]);
            } else if k >= 1 + d1.len() {
                assert(r[k] == d2[k - 1 - d1.len()]);
            }
        }
    } else if a.len() > 0 && b.len() > 0 {
        lemma_list_size_elem(a, 0);
        lemma_list_size_elem(b, 0);
        lemma_rows_depth(a[0].tree.sub_children(), b[0].tree.sub_children(), depth + 1);
        lemma_rows_depth(a.subrange(1, a.len() as int), b.subrange(1, b.len() as int), depth);
        let d1 = spec_rows(a[0].tree.sub_children(), b[0].tree.sub_children(), depth + 1);
        let d2 = spec_rows(a.subrange(1, a.len() as int), b.subrange(1, b.len() as int), depth);
        assert forall|k: int| 0 <= k < r.len() implies (#[trigger] r[k]).depth >= depth by {
            if 1 <= k < 1 + d1.len() {
                assert(r[k] == d1[k - 1]);
            } else if k >= 1 + d1.len() {
                assert(r[k] == d2[k - 1 - d1.len()]);
            }
        }
    }
}

/// A name is that of some child of the list.
pub open spec fn has_name(s: Seq<Child>, n: Seq<u8>) -> bool {
    exists|i: int| 0 <= i < s.len() && s[i].name@ == n
}

/// The rows of one directory level: those at the level's own depth, kept
/// in their output order.
pub open spec fn rows_at_depth(rows: Seq<RowV>, depth: nat) -> Seq<RowV>
    decreases rows.len(),
{
    if rows.len() == 0 {
        Seq::empty()
    } else if rows[0].depth == depth {
        seq![rows[0]] + rows_at_depth(rows.drop_first(), depth)
    } else {
        rows_at_depth(rows.drop_first(), depth)
    }
}

proof fn lemma_rows_at_depth_add(s1: Seq<RowV>, s2: Seq<RowV>, depth: nat)
    ensures
        rows_at_depth(s1 + s2, depth) == rows_at_depth(s1, depth) + rows_at_depth(s2, depth),
    decreases s1.len(),
{
    if s1.len() == 0 {
        assert(s1 + s2 =~= s2);
        assert(rows_at_depth(s1, depth) + rows_at_depth(s2, depth) =~= rows_at_depth(s2, depth));
    } else {
        assert((s1 + s2).drop_first() =~= s1.drop_first() + s2);
        assert((s1 + s2)[0] == s1[0]);
        lemma_rows_at_depth_add(s1.drop_first(), s2, depth);
        if s1[0].depth == depth {
            assert(seq![s1[0]] + (rows_at_depth(s1.drop_first(), depth) + rows_at_depth(s2, depth))
                =~= (seq![s1[0]] + rows_at_depth(s1.drop_first(), depth)) + rows_at_depth(
                s2,
                depth,
            ));
        }
    }
}

proof fn lemma_rows_at_depth_none(rows: Seq<RowV>, depth: nat)
    requires
        forall|k: int| 0 <= k < rows.len() ==> (#[trigger] rows[k]).depth > depth,
    ensures
        rows_at_depth(rows, depth) == Seq::<RowV>::empty(),
    decreases rows.len(),
{
    if rows.len() > 0 {
        assert(forall|k: int|
            0 <= k < rows.drop_first().len()
                ==> (#[trigger] rows.drop_first()[k]).depth > depth);
        lemma_rows_at_depth_none(rows.drop_first(), depth);
    }
}

proof fn lemma_sorted_tail(s: Seq<Child>)
    requires
        s.len() > 0,
        sorted_names(s),
    ensures
        sorted_names(s.subrange(1, s.len() as int)),
{
    let t = s.subrange(1, s.len() as int);
    assert forall|i: int, j: int| #![trigger t[i], t[j]]
        0 <= i < j < t.len() implies lex_lt(t[i].name@, t[j].name@) by {
        assert(t[i] == s[i + 1]);
        assert(t[j] == s[j + 1]);
    }
}

/// What one directory level of the output shows, for sorted child lists:
/// every child name of either list appears in a row of that level, those
/// rows come in strictly increasing name order (so no name twice), both
/// halves of a row carry the name, and each half's existence flag says
/// exactly whether that side has the name.
#[verifier::rlimit(100)]
pub proof fn lemma_level_rows(a: Seq<Child>, b: Seq<Child>, depth: nat)
    requires
        sorted_names(a),
        sorted_names(b),
    ensures
        ({
            let lvl = rows_at_depth(spec_rows(a, b, depth), depth);
            &&& forall|k: int|
                0 <= k < lvl.len() ==> {
                    let r = #[trigger] lvl[k];
                    &&& r.depth == depth
                    &&& r.left.name == r.right.name
                    &&& r.left.exists == has_name(a, r.left.name)
                    &&& r.right.exists == has_name(b, r.left.name)
                    &&& (has_name(a, r.left.name) || has_name(b, r.left.name))
                }
            &&& forall|n: Seq<u8>|
                #[trigger] has_name(a, n) ==> exists|k: int|
                    0 <= k < lvl.len() && (#[trigger] lvl[k]).left.name == n
            &&& forall|n: Seq<u8>|
                #[trigger] has_name(b, n) ==> exists|k: int|
                    0 <= k < lvl.len() && (#[trigger] lvl[k]).left.name == n
            &&& forall|p: int, q: int|
                0 <= p < q < lvl.len() ==> lex_lt(
                    (#[trigger] lvl[p]).left.name,
                    (#[trigger] lvl[q]).left.name,
                )
        }),
    decreases list_size(a) + list_size(b),
{
    let lvl = rows_at_depth(spec_rows(a, b, depth), depth);
    if a.len() > 0 && (b.len() == 0 || lex_lt(a[0].name@, b[0].name@)) {
        lemma_list_size_elem(a, 0);
        let r0 = RowV { depth, left: present_of(a[0]), right: absent_of(a[0]) };
        let d1 = spec_rows(a[0].tree.sub_children(), Seq::empty(), depth + 1);
        let tail = a.subrange(1, a.len() as int);
        let d2 = spec_rows(tail, b, depth);
        assert(spec_rows(a, b, depth) == seq![r0] + d1 + d2);
        lemma_rows_depth(a[0].tree.sub_children(), Seq::empty(), depth + 1);
        lemma_rows_at_depth_none(d1, depth);
        lemma_rows_at_depth_add(seq![r0], d1, depth);
        lemma_rows_at_depth_add(seq![r0] + d1, d2, depth);
        assert(seq![r0].drop_first() =~= Seq::<RowV>::empty());
        assert(rows_at_depth(Seq::<RowV>::empty(), depth) =~= Seq::<RowV>::empty());
        assert(seq![r0][0] == r0 && r0.depth == depth);
        assert(rows_at_depth(seq![r0], depth) =~= seq![r0]);
        lemma_sorted_tail(a);
        lemma_level_rows(tail, b, depth);
        let lvlr = rows_at_depth(d2, depth);
        assert(lvl =~= seq![r0] + lvlr);
        // the head name is on the left side and, being smaller than every
        // name on the right, not on the right side
        let n0 = a[0].name@;
        assert(has_name(a, n0));
        assert forall|i: int| 0 <= i < b.len() implies (#[trigger] b[i]).name@ != n0 by {
            if i > 0 {
                lemma_lex_lt_trans(n0, b[0].name@, b[i].name@);
            }
            lemma_lex_lt_total(n0, b[i].name@);
        }
        assert(!has_name(b, n0));
        // every name of the remaining merge lies strictly above the head name
        assert forall|n: Seq<u8>| has_name(tail, n) || has_name(b, n) implies lex_lt(n0, n)
            && n != n0 by {
            if has_name(tail, n) {
                let i = choose|i: int| 0 <= i < tail.len() && tail[i].name@ == n;
                assert(tail[i] == a[i + 1]);
                assert(lex_lt(a[0].name@, a[i + 1].name@));
            } else {
                let i = choose|i: int| 0 <= i < b.len() && b[i].name@ == n;
                if i > 0 {
                    lemma_lex_lt_trans(n0, b[0].name@, b[i].name@);
                }
            }
            lemma_lex_lt_total(n0, n);
        }
        // a name other than the head is on the left side iff the left tail has it
        assert forall|n: Seq<u8>| n != n0 implies (has_name(a, n) == has_name(tail, n)) by {
            if has_name(a, n) {
                let i = choose|i: int| 0 <= i < a.len() && a[i].name@ == n;
                assert(tail[i - 1] == a[i]);
                assert(has_name(tail, n));
            }
            if has_name(tail, n) {
                let i = choose|i: int| 0 <= i < tail.len() && tail[i].name@ == n;
                assert(tail[i] == a[i + 1]);
                assert(has_name(a, n));
            }
        }
        assert forall|n: Seq<u8>| #[trigger] has_name(a, n) implies exists|k: int|
            0 <= k < lvl.len() && (#[trigger] lvl[k]).left.name == n by {
            if n == n0 {
                assert(lvl[0].left.name == n);
            } else {
                assert(has_name(tail, n));
                let k = choose|k: int|
                    0 <= k < lvlr.len() && (#[trigger] lvlr[k]).left.name == n;
                assert(lvl[k + 1].left.name == n);
            }
        }
        assert forall|n: Seq<u8>| #[trigger] has_name(b, n) implies exists|k: int|
            0 <= k < lvl.len() && (#[trigger] lvl[k]).left.name == n by {
            let k = choose|k: int| 0 <= k < lvlr.len() && (#[trigger] lvlr[k]).left.name == n;
            assert(lvl[k + 1].left.name == n);
        }
        assert forall|k: int| 0 <= k < lvl.len() implies {
            let r = #[trigger] lvl[k];
            &&& r.depth == depth
            &&& r.left.name == r.right.name
            &&& r.left.exists == has_name(a, r.left.name)
            &&& r.right.exists == has_name(b, r.left.name)
            &&& (has_name(a, r.left.name) || has_name(b, r.left.name))
        } by {
            if k > 0 {
                assert(lvl[k] == lvlr[k - 1]);
                let r = lvl[k];
                assert(has_name(tail, r.left.name) || has_name(b, r.left.name));
                assert(r.left.name != n0);
            }
        }
        assert forall|p: int, q: int| 0 <= p < q < lvl.len() implies lex_lt(
            (#[trigger] lvl[p]).left.name,
            (#[trigger] lvl[q]).left.name,
        ) by {
            assert(lvl[q] == lvlr[q - 1]);
            assert(has_name(tail, lvlr[q - 1].left.name) || has_name(b, lvlr[q - 1].left.name));
            if p > 0 {
                assert(lvl[p] == lvlr[p - 1]);
            }
        }
    } else if b.len() > 0 && (a.len() == 0 || lex_lt(b[0].name@, a[0].name@)) {
        lemma_list_size_elem(b, 0);
        let r0 = RowV { depth, left: absent_of(b[0]), right: present_of(b[0]) };
        let d1 = spec_rows(Seq::empty(), b[0].tree.sub_children(), depth + 1);
        let tail = b.subrange(1, b.len() as int);
        let d2 = spec_rows(a, tail, depth);
        assert(spec_rows(a, b, depth) == seq![r0] + d1 + d2);
        lemma_rows_depth(Seq::empty(), b[0].tree.sub_children(), depth + 1);
        lemma_rows_at_depth_none(d1, depth);
        lemma_rows_at_depth_add(seq![r0], d1, depth);
        lemma_rows_at_depth_add(seq![r0] + d1, d2, depth);
        assert(seq![r0].drop_first() =~= Seq::<RowV>::empty());
        assert(rows_at_depth(Seq::<RowV>::empty(), depth) =~= Seq::<RowV>::empty());
        assert(seq![r0][0] == r0 && r0.depth == depth);
        assert(rows_at_depth(seq![r0], depth) =~= seq![r0]);
        lemma_sorted_tail(b);
        lemma_level_rows(a, tail, depth);
        let lvlr = rows_at_depth(d2, depth);
        assert(lvl =~= seq![r0] + lvlr);
        let n0 = b[0].name@;
        assert(has_name(b, n0));
        assert forall|i: int| 0 <= i < a.len() implies (#[trigger] a[i]).name@ != n0 by {
            if i > 0 {
                lemma_lex_lt_trans(n0, a[0].name@, a[i].name@);
            }
            lemma_lex_lt_total(n0, a[i].name@);
        }
        assert(!has_name(a, n0));
        assert forall|n: Seq<u8>| has_name(a, n) || has_name(tail, n) implies lex_lt(n0, n)
            && n != n0 by {
            if has_name(tail, n) {
                let i = choose|i: int| 0 <= i < tail.len() && tail[i].name@ == n;
                assert(tail[i] == b[i + 1]);
                assert(lex_lt(b[0].name@, b[i + 1].name@));
            } else {
                let i = choose|i: int| 0 <= i < a.len() && a[i].name@ == n;
                if i > 0 {
                    lemma_lex_lt_trans(n0, a[0].name@, a[i].name@);
                }
            }
            lemma_lex_lt_total(n0, n);
        }
        assert forall|n: Seq<u8>| n != n0 implies (has_name(b, n) == has_name(tail, n)) by {
            if has_name(b, n) {
                let i = choose|i: int| 0 <= i < b.len() && b[i].name@ == n;
                assert(tail[i - 1] == b[i]);
                assert(has_name(tail, n));
            }
            if has_name(tail, n) {
                let i = choose|i: int| 0 <= i < tail.len() && tail[i].name@ == n;
                assert(tail[i] == b[i + 1]);
                assert(has_name(b, n));
            }
        }
        assert forall|n: Seq<u8>| #[trigger] has_name(b, n) implies exists|k: int|
            0 <= k < lvl.len() && (#[trigger] lvl[k]).left.name == n by {
            if n == n0 {
                assert(lvl[0].left.name == n);
            } else {
                assert(has_name(tail, n));
                let k = choose|k: int|
                    0 <= k < lvlr.len() && (#[trigger] lvlr[k]).left.name == n;
                assert(lvl[k + 1].left.name == n);
            }
        }
        assert forall|n: Seq<u8>| #[trigger] has_name(a, n) implies exists|k: int|
            0 <= k < lvl.len() && (#[trigger] lvl[k]).left.name == n by {
            let k = choose|k: int| 0 <= k < lvlr.len() && (#[trigger] lvlr[k]).left.name == n;
            assert(lvl[k + 1].left.name == n);
        }
        assert forall|k: int| 0 <= k < lvl.len() implies {
            let r = #[trigger] lvl[k];
            &&& r.depth == depth
            &&& r.left.name == r.right.name
            &&& r.left.exists == has_name(a, r.left.name)
            &&& r.right.exists == has_name(b, r.left.name)
            &&& (has_name(a, r.left.name) || has_name(b, r.left.name))
        } by {
            if k > 0 {
                assert(lvl[k] == lvlr[k - 1]);
                let r = lvl[k];
                assert(has_name(a, r.left.name) || has_name(tail, r.left.name));
                assert(r.left.name != n0);
            }
        }
        assert forall|p: int, q: int| 0 <= p < q < lvl.len() implies lex_lt(
            (#[trigger] lvl[p]).left.name,
            (#[trigger] lvl[q]).left.name,
        ) by {
            assert(lvl[q] == lvlr[q - 1]);
            assert(has_name(a, lvlr[q - 1].left.name) || has_name(tail, lvlr[q - 1].left.name));
            if p > 0 {
                assert(lvl[p] == lvlr[p - 1]);
            }
        }
    } else if a.len() > 0 && b.len() > 0 {
        lemma_lex_lt_total(a[0].name@, b[0].name@);
        lemma_list_size_elem(a, 0);
        lemma_list_size_elem(b, 0);
        let r0 = RowV { depth, left: present_of(a[0]), right: present_of(b[0]) };
        let d1 = spec_rows(a[0].tree.sub_children(), b[0].tree.sub_children(), depth + 1);
        let tail_a = a.subrange(1, a.len() as int);
        let tail_b = b.subrange(1, b.len() as int);
        let d2 = spec_rows(tail_a, tail_b, depth);
        assert(spec_rows(a, b, depth) == seq![r0] + d1 + d2);
        lemma_rows_depth(a[0].tree.sub_children(), b[0].tree.sub_children(), depth + 1);
        lemma_rows_at_depth_none(d1, depth);
        lemma_rows_at_depth_add(seq![r0], d1, depth);
        lemma_rows_at_depth_add(seq![r0] + d1, d2, depth);
        assert(seq![r0].drop_first() =~= Seq::<RowV>::empty());
        assert(rows_at_depth(Seq::<RowV>::empty(), depth) =~= Seq::<RowV>::empty());
        assert(seq![r0][0] == r0 && r0.depth == depth);
        assert(rows_at_depth(seq![r0], depth) =~= seq![r0]);
        lemma_sorted_tail(a);
        lemma_sorted_tail(b);
        lemma_level_rows(tail_a, tail_b, depth);
        let lvlr = rows_at_depth(d2, depth);
        assert(lvl =~= seq![r0] + lvlr);
        let n0 = a[0].name@;
        assert(a[0].name@ == b[0].name@);
        assert(has_name(a, n0));
        assert(has_name(b, n0));
        assert forall|n: Seq<u8>| has_name(tail_a, n) || has_name(tail_b, n) implies lex_lt(
            n0,
            n,
        ) && n != n0 by {
            if has_name(tail_a, n) {
                let i = choose|i: int| 0 <= i < tail_a.len() && tail_a[i].name@ == n;
                assert(tail_a[i] == a[i + 1]);
                assert(lex_lt(a[0].name@, a[i + 1].name@));
            } else {
                let i = choose|i: int| 0 <= i < tail_b.len() && tail_b[i].name@ == n;
                assert(tail_b[i] == b[i + 1]);
                assert(lex_lt(b[0].name@, b[i + 1].name@));
            }
            lemma_lex_lt_total(n0, n);
        }
        assert forall|n: Seq<u8>| n != n0 implies (has_name(a, n) == has_name(tail_a, n))
            && (has_name(b, n) == has_name(tail_b, n)) by {
            if has_name(a, n) {
                let i = choose|i: int| 0 <= i < a.len() && a[i].name@ == n;
                assert(tail_a[i - 1] == a[i]);
                assert(has_name(tail_a, n));
            }
            if has_name(tail_a, n) {
                let i = choose|i: int| 0 <= i < tail_a.len() && tail_a[i].name@ == n;
                assert(tail_a[i] == a[i + 1]);
                assert(has_name(a, n));
            }
            if has_name(b, n) {
                let i = choose|i: int| 0 <= i < b.len() && b[i].name@ == n;
                assert(tail_b[i - 1] == b[i]);
                assert(has_name(tail_b, n));
            }
            if has_name(tail_b, n) {
                let i = choose|i: int| 0 <= i < tail_b.len() && tail_b[i].name@ == n;
                assert(tail_b[i] == b[i + 1]);
                assert(has_name(b, n));
            }
        }
        assert forall|n: Seq<u8>| #[trigger] has_name(a, n) implies exists|k: int|
            0 <= k < lvl.len() && (#[trigger] lvl[k]).left.name == n by {
            if n == n0 {
                assert(lvl[0].left.name == n);
            } else {
                assert(has_name(tail_a, n));
                let k = choose|k: int|
                    0 <= k < lvlr.len() && (#[trigger] lvlr[k]).left.name == n;
                assert(lvl[k + 1].left.name == n);
            }
        }
        assert forall|n: Seq<u8>| #[trigger] has_name(b, n) implies exists|k: int|
            0 <= k < lvl.len() && (#[trigger] lvl[k]).left.name == n by {
            if n == n0 {
                assert(lvl[0].left.name == n);
            } else {
                assert(has_name(tail_b, n));
                let k = choose|k: int|
                    0 <= k < lvlr.len() && (#[trigger] lvlr[k]).left.name == n;
                assert(lvl[k + 1].left.name == n);
            }
        }
        assert forall|k: int| 0 <= k < lvl.len() implies {
            let r = #[trigger] lvl[k];
            &&& r.depth == depth
            &&& r.left.name == r.right.name
            &&& r.left.exists == has_name(a, r.left.name)
            &&& r.right.exists == has_name(b, r.left.name)
            &&& (has_name(a, r.left.name) || has_name(b, r.left.name))
        } by {
            if k > 0 {
                assert(lvl[k] == lvlr[k - 1]);
                let r = lvl[k];
                assert(has_name(tail_a, r.left.name) || has_name(tail_b, r.left.name));
                assert(r.left.name != n0);
            }
        }
        assert forall|p: int, q: int| 0 <= p < q < lvl.len() implies lex_lt(
            (#[trigger] lvl[p]).left.name,
            (#[trigger] lvl[q]).left.name,
        ) by {
            assert(lvl[q] == lvlr[q - 1]);
            assert(has_name(tail_a, lvlr[q - 1].left.name) || has_name(
                tail_b,
                lvlr[q - 1].left.name,
            ));
            if p > 0 {
                assert(lvl[p] == lvlr[p - 1]);
            }
        }
    } else {
        assert(spec_rows(a, b, depth) == Seq::<RowV>::empty());
    }
}


/// A relative path (a nonempty run of names) leads to an entry under the
/// child list: its first name is a child, the rest leads on below it.
pub open spec fn has_path(s: Seq<Child>, p: Seq<Seq<u8>>) -> bool
    decreases p.len(),
{
    p.len() > 0 && exists|i: int|
        0 <= i < s.len() && (#[trigger] s[i]).name@ == p[0] && (p.len() == 1 || has_path(
            s[i].tree.sub_children(),
            p.drop_first(),
        ))
}

/// The relative path of each row of the walk, in output order, from the
/// walk's own level down.
pub open spec fn spec_paths(a: Seq<Child>, b: Seq<Child>) -> Seq<Seq<Seq<u8>>>
    decreases list_size(a) + list_size(b),
{
    if a.len() > 0 && (b.len() == 0 || lex_lt(a[0].name@, b[0].name@)) {
        proof {
            lemma_list_size_elem(a, 0);
        }
        seq![seq![a[0].name@]]
            + spec_paths(a[0].tree.sub_children(), Seq::empty()).map_values(
            |p: Seq<Seq<u8>>| seq![a[0].name@] + p,
        ) + spec_paths(a.subrange(1, a.len() as int), b)
    } else if b.len() > 0 && (a.len() == 0 || lex_lt(b[0].name@, a[0].name@)) {
        proof {
            lemma_list_size_elem(b, 0);
        }
        seq![seq![b[0].name@]]
            + spec_paths(Seq::empty(), b[0].tree.sub_children()).map_values(
            |p: Seq<Seq<u8>>| seq![b[0].name@] + p,
        ) + spec_paths(a, b.subrange(1, b.len() as int))
    } else if a.len() > 0 && b.len() > 0 {
        proof {
            lemma_list_size_elem(a, 0);
            lemma_list_size_elem(b, 0);
        }
        seq![seq![a[0].name@]]
            + spec_paths(a[0].tree.sub_children(), b[0].tree.sub_children()).map_values(
            |p: Seq<Seq<u8>>| seq![a[0].name@] + p,
        ) + spec_paths(a.subrange(1, a.len() as int), b.subrange(1, b.len() as int))
    } else {
        Seq::empty()
    }
}

proof fn lemma_paths_shape(a: Seq<Child>, b: Seq<Child>)
    ensures
        forall|k: int|
            0 <= k < spec_paths(a, b).len() ==> {
                let p = #[trigger] spec_paths(a, b)[k];
                p.len() >= 1 && (has_name(a, p[0]) || has_name(b, p[0]))
            },
    decreases list_size(a) + list_size(b),
{
    let ps = spec_paths(a, b);
    if a.len() > 0 && (b.len() == 0 || lex_lt(a[0].name@, b[0].name@)) {
        lemma_list_size_elem(a, 0);
        lemma_paths_shape(a[0].tree.sub_children(), Seq::empty());
        lemma_paths_shape(a.subrange(1, a.len() as int), b);
        let pd = spec_paths(a[0].tree.sub_children(), Seq::empty()).map_values(
            |p: Seq<Seq<u8>>| seq![a[0].name@] + p,
        );
        let pr = spec_paths(a.subrange(1, a.len() as int), b);
        let tail = a.subrange(1, a.len() as int);
        assert forall|k: int| 0 <= k < ps.len() implies {
            let p = #[trigger] ps[k];
            p.len() >= 1 && (has_name(a, p[0]) || has_name(b, p[0]))
        } by {
            if k == 0 {
                assert(ps[k] == seq![a[0].name@]);
                assert(ps[k][0] == a[0].name@);
                assert(has_name(a, a[0].name@));
            } else if k < 1 + pd.len() {
                assert(ps[k] == pd[k - 1]);
                assert(ps[k][0] == a[0].name@);
                assert(has_name(a, a[0].name@));
            } else {
                assert(ps[k] == pr[k - 1 - pd.len()]);
                let p = ps[k];
                if has_name(tail, p[0]) {
                    let i = choose|i: int| 0 <= i < tail.len() && tail[i].name@ == p[0];
                    assert(tail[i] == a[i + 1]);
                    assert(has_name(a, p[0]));
                }
            }
        }
    } else if b.len() > 0 && (a.len() == 0 || lex_lt(b[0].name@, a[0].name@)) {
        lemma_list_size_elem(b, 0);
        lemma_paths_shape(Seq::empty(), b[0].tree.sub_children());
        lemma_paths_shape(a, b.subrange(1, b.len() as int));
        let pd = spec_paths(Seq::empty(), b[0].tree.sub_children()).map_values(
            |p: Seq<Seq<u8>>| seq![b[0].name@] + p,
        );
        let pr = spec_paths(a, b.subrange(1, b.len() as int));
        let tail = b.subrange(1, b.len() as int);
        assert forall|k: int| 0 <= k < ps.len() implies {
            let p = #[trigger] ps[k];
            p.len() >= 1 && (has_name(a, p[0]) || has_name(b, p[0]))
        } by {
            if k == 0 {
                assert(ps[k] == seq![b[0].name@]);
                assert(ps[k][0] == b[0].name@);
                assert(has_name(b, b[0].name@));
            } else if k < 1 + pd.len() {
                assert(ps[k] == pd[k - 1]);
                assert(ps[k][0] == b[0].name@);
                assert(has_name(b, b[0].name@));
            } else {
                assert(ps[k] == pr[k - 1 - pd.len()]);
                let p = ps[k];
                if has_name(tail, p[0]) {
                    let i = choose|i: int| 0 <= i < tail.len() && tail[i].name@ == p[0];
                    assert(tail[i] == b[i + 1]);
                    assert(has_name(b, p[0]));
                }
            }
        }
    } else if a.len() > 0 && b.len() > 0 {
        lemma_list_size_elem(a, 0);
        lemma_list_size_elem(b, 0);
        lemma_paths_shape(a[0].tree.sub_children(), b[0].tree.sub_children());
        lemma_paths_shape(a.subrange(1, a.len() as int), b.subrange(1, b.len() as int));
        let pd = spec_paths(a[0].tree.sub_children(), b[0].tree.sub_children()).map_values(
            |p: Seq<Seq<u8>>| seq![a[0].name@] + p,
        );
        let pr = spec_paths(a.subrange(1, a.len() as int), b.subrange(1, b.len() as int));
        let tail_a = a.subrange(1, a.len() as int);
        let tail_b = b.subrange(1, b.len() as int);
        assert forall|k: int| 0 <= k < ps.len() implies {
            let p = #[trigger] ps[k];
            p.len() >= 1 && (has_name(a, p[0]) || has_name(b, p[0]))
        } by {
            if k == 0 {
                assert(ps[k] == seq![a[0].name@]);
                assert(ps[k][0] == a[0].name@);
                assert(has_name(a, a[0].name@));
            } else if k < 1 + pd.len() {
                assert(ps[k] == pd[k - 1]);
                assert(ps[k][0] == a[0].name@);
                assert(has_name(a, a[0].name@));
            } else {
                assert(ps[k] == pr[k - 1 - pd.len()]);
                let p = ps[k];
                if has_name(tail_a, p[0]) {
                    let i = choose|i: int| 0 <= i < tail_a.len() && tail_a[i].name@ == p[0];
                    assert(tail_a[i] == a[i + 1]);
                    assert(has_name(a, p[0]));
                } else {
                    let i = choose|i: int| 0 <= i < tail_b.len() && tail_b[i].name@ == p[0];
                    assert(tail_b[i] == b[i + 1]);
                    assert(has_name(b, p[0]));
                }
            }
        }
    }
}


proof fn lemma_paths_align(a: Seq<Child>, b: Seq<Child>, depth: nat)
    ensures
        spec_paths(a, b).len() == spec_rows(a, b, depth).len(),
        forall|k: int|
            #![trigger spec_paths(a, b)[k]]
            0 <= k < spec_paths(a, b).len() ==> {
                let p = spec_paths(a, b)[k];
                let r = spec_rows(a, b, depth)[k];
                &&& p.len() >= 1
                &&& r.depth == depth + p.len() - 1
                &&& r.left.name == p.last()
            },
    decreases list_size(a) + list_size(b),
{
    let ps = spec_paths(a, b);
    let rs = spec_rows(a, b, depth);
    if a.len() > 0 && (b.len() == 0 || lex_lt(a[0].name@, b[0].name@)) {
        lemma_list_size_elem(a, 0);
        lemma_paths_align(a[0].tree.sub_children(), Seq::empty(), depth + 1);
        lemma_paths_align(a.subrange(1, a.len() as int), b, depth);
        let sd = spec_paths(a[0].tree.sub_children(), Seq::empty());
        let pd = sd.map_values(|p: Seq<Seq<u8>>| seq![a[0].name@] + p);
        let pr = spec_paths(a.subrange(1, a.len() as int), b);
        let rd = spec_rows(a[0].tree.sub_children(), Seq::empty(), depth + 1);
        let rr = spec_rows(a.subrange(1, a.len() as int), b, depth);
        assert forall|k: int| 0 <= k < ps.len() implies {
            let p = #[trigger] ps[k];
            let r = rs[k];
            &&& p.len() >= 1
            &&& r.depth == depth + p.len() - 1
            &&& r.left.name == p.last()
        } by {
            if k == 0 {
                assert(ps[k] == seq![a[0].name@]);
                assert(ps[k].last() == a[0].name@);
            } else if k < 1 + pd.len() {
                assert(ps[k] == pd[k - 1]);
                assert(rs[k] == rd[k - 1]);
                assert(pd[k - 1] == seq![a[0].name@] + sd[k - 1]);
                assert(sd[k - 1].len() >= 1);
                assert((seq![a[0].name@] + sd[k - 1]).last() == sd[k - 1].last());
            } else {
                assert(ps[k] == pr[k - 1 - pd.len()]);
                assert(rs[k] == rr[k - 1 - pd.len()]);
            }
        }
    } else if b.len() > 0 && (a.len() == 0 || lex_lt(b[0].name@, a[0].name@)) {
        lemma_list_size_elem(b, 0);
        lemma_paths_align(Seq::empty(), b[0].tree.sub_children(), depth + 1);
        lemma_paths_align(a, b.subrange(1, b.len() as int), depth);
        let sd = spec_paths(Seq::empty(), b[0].tree.sub_children());
        let pd = sd.map_values(|p: Seq<Seq<u8>>| seq![b[0].name@] + p);
        let pr = spec_paths(a, b.subrange(1, b.len() as int));
        let rd = spec_rows(Seq::empty(), b[0].tree.sub_children(), depth + 1);
        let rr = spec_rows(a, b.subrange(1, b.len() as int), depth);
        assert forall|k: int| 0 <= k < ps.len() implies {
            let p = #[trigger] ps[k];
            let r = rs[k];
            &&& p.len() >= 1
            &&& r.depth == depth + p.len() - 1
            &&& r.left.name == p.last()
        } by {
            if k == 0 {
                assert(ps[k] == seq![b[0].name@]);
                assert(ps[k].last() == b[0].name@);
            } else if k < 1 + pd.len() {
                assert(ps[k] == pd[k - 1]);
                assert(rs[k] == rd[k - 1]);
                assert(pd[k - 1] == seq![b[0].name@] + sd[k - 1]);
                assert(sd[k - 1].len() >= 1);
                assert((seq![b[0].name@] + sd[k - 1]).last() == sd[k - 1].last());
            } else {
                assert(ps[k] == pr[k - 1 - pd.len()]);
                assert(rs[k] == rr[k - 1 - pd.len()]);
            }
        }
    } else if a.len() > 0 && b.len() > 0 {
        lemma_list_size_elem(a, 0);
        lemma_list_size_elem(b, 0);
        lemma_paths_align(a[0].tree.sub_children(), b[0].tree.sub_children(), depth + 1);
        lemma_paths_align(a.subrange(1, a.len() as int), b.subrange(1, b.len() as int), depth);
        let sd = spec_paths(a[0].tree.sub_children(), b[0].tree.sub_children());
        let pd = sd.map_values(|p: Seq<Seq<u8>>| seq![a[0].name@] + p);
        let pr = spec_paths(a.subrange(1, a.len() as int), b.subrange(1, b.len() as int));
        let rd = spec_rows(a[0].tree.sub_children(), b[0].tree.sub_children(), depth + 1);
        let rr = spec_rows(a.subrange(1, a.len() as int), b.subrange(1, b.len() as int), depth);
        assert forall|k: int| 0 <= k < ps.len() implies {
            let p = #[trigger] ps[k];
            let r = rs[k];
            &&& p.len() >= 1
            &&& r.depth == depth + p.len() - 1
            &&& r.left.name == p.last()
        } by {
            if k == 0 {
                assert(ps[k] == seq![a[0].name@]);
                assert(ps[k].last() == a[0].name@);
            } else if k < 1 + pd.len() {
                assert(ps[k] == pd[k - 1]);
                assert(rs[k] == rd[k - 1]);
                assert(pd[k - 1] == seq![a[0].name@] + sd[k - 1]);
                assert(sd[k - 1].len() >= 1);
                assert((seq![a[0].name@] + sd[k - 1]).last() == sd[k - 1].last());
            } else {
                assert(ps[k] == pr[k - 1 - pd.len()]);
                assert(rs[k] == rr[k - 1 - pd.len()]);
            }
        }
    }
}


#[verifier::rlimit(100)]
proof fn lemma_paths_complete(a: Seq<Child>, b: Seq<Child>)
    ensures
        forall|p: Seq<Seq<u8>>|
            #![trigger spec_paths(a, b).contains(p)]
            #![trigger has_path(a, p)]
            #![trigger has_path(b, p)]
            spec_paths(a, b).contains(p) <==> (has_path(a, p) || has_path(b, p)),
    decreases list_size(a) + list_size(b),
{
    let ps = spec_paths(a, b);
    if a.len() > 0 && (b.len() == 0 || lex_lt(a[0].name@, b[0].name@)) {
        lemma_list_size_elem(a, 0);
        lemma_paths_complete(a[0].tree.sub_children(), Seq::empty());
        lemma_paths_complete(a.subrange(1, a.len() as int), b);
        let n0 = a[0].name@;
        let suba = a[0].tree.sub_children();
        let tail = a.subrange(1, a.len() as int);
        let sub = spec_paths(suba, Seq::empty());
        let pd = sub.map_values(|p: Seq<Seq<u8>>| seq![n0] + p);
        let pr = spec_paths(tail, b);
        assert forall|p: Seq<Seq<u8>>| ps.contains(p) implies has_path(a, p) || has_path(
            b,
            p,
        ) by {
            let k = choose|k: int| 0 <= k < ps.len() && ps[k] == p;
            if k == 0 {
                assert(p == seq![n0]);
                assert(a[0].name@ == p[0] && p.len() == 1);
                assert(has_path(a, p));
            } else if k < 1 + pd.len() {
                assert(p == pd[k - 1]);
                assert(p == seq![n0] + sub[k - 1]);
                assert(sub.contains(sub[k - 1]));
                assert(has_path(suba, sub[k - 1]) || has_path(Seq::empty(), sub[k - 1]));
                assert(!has_path(Seq::<Child>::empty(), sub[k - 1]));
                assert(p[0] == n0 && p.len() >= 2);
                assert(p.drop_first() =~= sub[k - 1]);
                assert(has_path(a, p));
            } else {
                assert(p == pr[k - 1 - pd.len()]);
                assert(pr.contains(pr[k - 1 - pd.len()]));
                if has_path(tail, p) {
                    let i = choose|i: int|
                        0 <= i < tail.len() && (#[trigger] tail[i]).name@ == p[0] && (p.len() == 1
                            || has_path(tail[i].tree.sub_children(), p.drop_first()));
                    assert(tail[i] == a[i + 1]);
                    assert(has_path(a, p));
                }
            }
        }
        assert forall|p: Seq<Seq<u8>>| has_path(a, p) || has_path(b, p) implies ps.contains(
            p,
        ) by {
            if has_path(a, p) {
                let i = choose|i: int|
                    0 <= i < a.len() && (#[trigger] a[i]).name@ == p[0] && (p.len() == 1
                        || has_path(a[i].tree.sub_children(), p.drop_first()));
                if i == 0 {
                    if p.len() == 1 {
                        assert(p =~= seq![n0]);
                        assert(ps[0] == p);
                    } else {
                        assert(has_path(suba, p.drop_first()));
                        assert(sub.contains(p.drop_first()));
                        let k0 = choose|k0: int| 0 <= k0 < sub.len() && sub[k0] == p.drop_first();
                        assert(pd[k0] == seq![n0] + p.drop_first());
                        assert(seq![n0] + p.drop_first() =~= p);
                        assert(ps[1 + k0] == p);
                    }
                } else {
                    assert(tail[i - 1] == a[i]);
                    assert(has_path(tail, p));
                    assert(pr.contains(p));
                    let k0 = choose|k0: int| 0 <= k0 < pr.len() && pr[k0] == p;
                    assert(ps[1 + pd.len() + k0] == p);
                }
            } else {
                assert(pr.contains(p));
                let k0 = choose|k0: int| 0 <= k0 < pr.len() && pr[k0] == p;
                assert(ps[1 + pd.len() + k0] == p);
            }
        }
    } else if b.len() > 0 && (a.len() == 0 || lex_lt(b[0].name@, a[0].name@)) {
        lemma_list_size_elem(b, 0);
        lemma_paths_complete(Seq::empty(), b[0].tree.sub_children());
        lemma_paths_complete(a, b.subrange(1, b.len() as int));
        let n0 = b[0].name@;
        let subb = b[0].tree.sub_children();
        let tail = b.subrange(1, b.len() as int);
        let sub = spec_paths(Seq::empty(), subb);
        let pd = sub.map_values(|p: Seq<Seq<u8>>| seq![n0] + p);
        let pr = spec_paths(a, tail);
        assert forall|p: Seq<Seq<u8>>| ps.contains(p) implies has_path(a, p) || has_path(
            b,
            p,
        ) by {
            let k = choose|k: int| 0 <= k < ps.len() && ps[k] == p;
            if k == 0 {
                assert(p == seq![n0]);
                assert(b[0].name@ == p[0] && p.len() == 1);
                assert(has_path(b, p));
            } else if k < 1 + pd.len() {
                assert(p == pd[k - 1]);
                assert(p == seq![n0] + sub[k - 1]);
                assert(sub.contains(sub[k - 1]));
                assert(has_path(Seq::empty(), sub[k - 1]) || has_path(subb, sub[k - 1]));
                assert(!has_path(Seq::<Child>::empty(), sub[k - 1]));
                assert(p[0] == n0 && p.len() >= 2);
                assert(p.drop_first() =~= sub[k - 1]);
                assert(has_path(b, p));
            } else {
                assert(p == pr[k - 1 - pd.len()]);
                assert(pr.contains(pr[k - 1 - pd.len()]));
                if has_path(tail, p) {
                    let i = choose|i: int|
                        0 <= i < tail.len() && (#[trigger] tail[i]).name@ == p[0] && (p.len() == 1
                            || has_path(tail[i].tree.sub_children(), p.drop_first()));
                    assert(tail[i] == b[i + 1]);
                    assert(has_path(b, p));
                }
            }
        }
        assert forall|p: Seq<Seq<u8>>| has_path(a, p) || has_path(b, p) implies ps.contains(
            p,
        ) by {
            if has_path(b, p) {
                let i = choose|i: int|
                    0 <= i < b.len() && (#[trigger] b[i]).name@ == p[0] && (p.len() == 1
                        || has_path(b[i].tree.sub_children(), p.drop_first()));
                if i == 0 {
                    if p.len() == 1 {
                        assert(p =~= seq![n0]);
                        assert(ps[0] == p);
                    } else {
                        assert(has_path(subb, p.drop_first()));
                        assert(sub.contains(p.drop_first()));
                        let k0 = choose|k0: int| 0 <= k0 < sub.len() && sub[k0] == p.drop_first();
                        assert(pd[k0] == seq![n0] + p.drop_first());
                        assert(seq![n0] + p.drop_first() =~= p);
                        assert(ps[1 + k0] == p);
                    }
                } else {
                    assert(tail[i - 1] == b[i]);
                    assert(has_path(tail, p));
                    assert(pr.contains(p));
                    let k0 = choose|k0: int| 0 <= k0 < pr.len() && pr[k0] == p;
                    assert(ps[1 + pd.len() + k0] == p);
                }
            } else {
                assert(pr.contains(p));
                let k0 = choose|k0: int| 0 <= k0 < pr.len() && pr[k0] == p;
                assert(ps[1 + pd.len() + k0] == p);
            }
        }
    } else if a.len() > 0 && b.len() > 0 {
        lemma_lex_lt_total(a[0].name@, b[0].name@);
        lemma_list_size_elem(a, 0);
        lemma_list_size_elem(b, 0);
        lemma_paths_complete(a[0].tree.sub_children(), b[0].tree.sub_children());
        lemma_paths_complete(a.subrange(1, a.len() as int), b.subrange(1, b.len() as int));
        let n0 = a[0].name@;
        assert(b[0].name@ == n0);
        let suba = a[0].tree.sub_children();
        let subb = b[0].tree.sub_children();
        let tail_a = a.subrange(1, a.len() as int);
        let tail_b = b.subrange(1, b.len() as int);
        let sub = spec_paths(suba, subb);
        let pd = sub.map_values(|p: Seq<Seq<u8>>| seq![n0] + p);
        let pr = spec_paths(tail_a, tail_b);
        assert forall|p: Seq<Seq<u8>>| ps.contains(p) implies has_path(a, p) || has_path(
            b,
            p,
        ) by {
            let k = choose|k: int| 0 <= k < ps.len() && ps[k] == p;
            if k == 0 {
                assert(p == seq![n0]);
                assert(a[0].name@ == p[0] && p.len() == 1);
                assert(has_path(a, p));
            } else if k < 1 + pd.len() {
                assert(p == pd[k - 1]);
                assert(p == seq![n0] + sub[k - 1]);
                assert(sub.contains(sub[k - 1]));
                assert(p[0] == n0 && p.len() >= 2);
                assert(p.drop_first() =~= sub[k - 1]);
                if has_path(suba, sub[k - 1]) {
                    assert(has_path(a, p));
                } else {
                    assert(has_path(subb, sub[k - 1]));
                    assert(has_path(b, p));
                }
            } else {
                assert(p == pr[k - 1 - pd.len()]);
                assert(pr.contains(pr[k - 1 - pd.len()]));
                if has_path(tail_a, p) {
                    let i = choose|i: int|
                        0 <= i < tail_a.len() && (#[trigger] tail_a[i]).name@ == p[0] && (p.len()
                            == 1 || has_path(tail_a[i].tree.sub_children(), p.drop_first()));
                    assert(tail_a[i] == a[i + 1]);
                    assert(has_path(a, p));
                } else {
                    let i = choose|i: int|
                        0 <= i < tail_b.len() && (#[trigger] tail_b[i]).name@ == p[0] && (p.len()
                            == 1 || has_path(tail_b[i].tree.sub_children(), p.drop_first()));
                    assert(tail_b[i] == b[i + 1]);
                    assert(has_path(b, p));
                }
            }
        }
        assert forall|p: Seq<Seq<u8>>| has_path(a, p) || has_path(b, p) implies ps.contains(
            p,
        ) by {
            if has_path(a, p) {
                let i = choose|i: int|
                    0 <= i < a.len() && (#[trigger] a[i]).name@ == p[0] && (p.len() == 1
                        || has_path(a[i].tree.sub_children(), p.drop_first()));
                if i == 0 {
                    if p.len() == 1 {
                        assert(p =~= seq![n0]);
                        assert(ps[0] == p);
                    } else {
                        assert(has_path(suba, p.drop_first()));
                        assert(sub.contains(p.drop_first()));
                        let k0 = choose|k0: int| 0 <= k0 < sub.len() && sub[k0] == p.drop_first();
                        assert(pd[k0] == seq![n0] + p.drop_first());
                        assert(seq![n0] + p.drop_first() =~= p);
                        assert(ps[1 + k0] == p);
                    }
                } else {
                    assert(tail_a[i - 1] == a[i]);
                    assert(has_path(tail_a, p));
                    assert(pr.contains(p));
                    let k0 = choose|k0: int| 0 <= k0 < pr.len() && pr[k0] == p;
                    assert(ps[1 + pd.len() + k0] == p);
                }
            } else {
                let i = choose|i: int|
                    0 <= i < b.len() && (#[trigger] b[i]).name@ == p[0] && (p.len() == 1
                        || has_path(b[i].tree.sub_children(), p.drop_first()));
                if i == 0 {
                    if p.len() == 1 {
                        assert(p =~= seq![n0]);
                        assert(ps[0] == p);
                    } else {
                        assert(has_path(subb, p.drop_first()));
                        assert(sub.contains(p.drop_first()));
                        let k0 = choose|k0: int| 0 <= k0 < sub.len() && sub[k0] == p.drop_first();
                        assert(pd[k0] == seq![n0] + p.drop_first());
                        assert(seq![n0] + p.drop_first() =~= p);
                        assert(ps[1 + k0] == p);
                    }
                } else {
                    assert(tail_b[i - 1] == b[i]);
                    assert(has_path(tail_b, p));
                    assert(pr.contains(p));
                    let k0 = choose|k0: int| 0 <= k0 < pr.len() && pr[k0] == p;
                    assert(ps[1 + pd.len() + k0] == p);
                }
            }
        }
    }
}


proof fn lemma_wf_tail(s: Seq<Child>)
    requires
        s.len() > 0,
        list_wf(s),
    ensures
        list_wf(s.subrange(1, s.len() as int)),
{
    lemma_sorted_tail(s);
    let t = s.subrange(1, s.len() as int);
    assert(forall|i: int| 0 <= i < t.len() ==> #[trigger] t[i] == s[i + 1]);
}

#[verifier::rlimit(100)]
proof fn lemma_paths_distinct(a: Seq<Child>, b: Seq<Child>)
    requires
        list_wf(a),
        list_wf(b),
    ensures
        forall|k1: int, k2: int|
            #![trigger spec_paths(a, b)[k1], spec_paths(a, b)[k2]]
            0 <= k1 < k2 < spec_paths(a, b).len() ==> spec_paths(a, b)[k1] != spec_paths(a, b)[k2],
    decreases list_size(a) + list_size(b),
{
    let ps = spec_paths(a, b);
    assert(list_wf(Seq::<Child>::empty()));
    if a.len() > 0 && (b.len() == 0 || lex_lt(a[0].name@, b[0].name@)) {
        lemma_list_size_elem(a, 0);
        assert(tree_wf(a[0].tree));
        lemma_tree_wf_sub(a[0].tree);
        lemma_wf_tail(a);
        let n0 = a[0].name@;
        let suba = a[0].tree.sub_children();
        let tail = a.subrange(1, a.len() as int);
        lemma_paths_distinct(suba, Seq::empty());
        lemma_paths_distinct(tail, b);
        lemma_paths_shape(suba, Seq::empty());
        lemma_paths_shape(tail, b);
        let sub = spec_paths(suba, Seq::empty());
        let pd = sub.map_values(|p: Seq<Seq<u8>>| seq![n0] + p);
        let pr = spec_paths(tail, b);
        assert forall|n: Seq<u8>| has_name(tail, n) || has_name(b, n) implies n != n0 by {
            if has_name(tail, n) {
                let i = choose|i: int| 0 <= i < tail.len() && tail[i].name@ == n;
                assert(tail[i] == a[i + 1]);
                assert(lex_lt(a[0].name@, a[i + 1].name@));
            } else {
                let i = choose|i: int| 0 <= i < b.len() && b[i].name@ == n;
                if i > 0 {
                    lemma_lex_lt_trans(n0, b[0].name@, b[i].name@);
                }
            }
            lemma_lex_lt_total(n0, n);
        }
        assert forall|k1: int, k2: int| #![trigger ps[k1], ps[k2]]
            0 <= k1 < k2 < ps.len() implies ps[k1] != ps[k2] by {
            if k2 < 1 + pd.len() {
                if k1 == 0 {
                    assert(ps[k2] == seq![n0] + sub[k2 - 1]);
                    assert(sub[k2 - 1].len() >= 1);
                    assert(ps[k2].len() >= 2 && ps[k1].len() == 1);
                } else {
                    assert(ps[k1] == seq![n0] + sub[k1 - 1]);
                    assert(ps[k2] == seq![n0] + sub[k2 - 1]);
                    if ps[k1] == ps[k2] {
                        assert((seq![n0] + sub[k1 - 1]).drop_first() =~= sub[k1 - 1]);
                        assert((seq![n0] + sub[k2 - 1]).drop_first() =~= sub[k2 - 1]);
                        assert(sub[k1 - 1] == sub[k2 - 1]);
                        assert(false);
                    }
                }
            } else if k1 >= 1 + pd.len() {
                assert(ps[k1] == pr[k1 - 1 - pd.len()]);
                assert(ps[k2] == pr[k2 - 1 - pd.len()]);
            } else {
                assert(ps[k2] == pr[k2 - 1 - pd.len()]);
                assert(has_name(tail, ps[k2][0]) || has_name(b, ps[k2][0]));
                assert(ps[k2][0] != n0);
                if k1 == 0 {
                    assert(ps[k1][0] == n0);
                } else {
                    assert(ps[k1] == seq![n0] + sub[k1 - 1]);
                    assert(ps[k1][0] == n0);
                }
            }
        }
    } else if b.len() > 0 && (a.len() == 0 || lex_lt(b[0].name@, a[0].name@)) {
        lemma_list_size_elem(b, 0);
        assert(tree_wf(b[0].tree));
        lemma_tree_wf_sub(b[0].tree);
        lemma_wf_tail(b);
        let n0 = b[0].name@;
        let subb = b[0].tree.sub_children();
        let tail = b.subrange(1, b.len() as int);
        lemma_paths_distinct(Seq::empty(), subb);
        lemma_paths_distinct(a, tail);
        lemma_paths_shape(Seq::empty(), subb);
        lemma_paths_shape(a, tail);
        let sub = spec_paths(Seq::empty(), subb);
        let pd = sub.map_values(|p: Seq<Seq<u8>>| seq![n0] + p);
        let pr = spec_paths(a, tail);
        assert forall|n: Seq<u8>| has_name(a, n) || has_name(tail, n) implies n != n0 by {
            if has_name(tail, n) {
                let i = choose|i: int| 0 <= i < tail.len() && tail[i].name@ == n;
                assert(tail[i] == b[i + 1]);
                assert(lex_lt(b[0].name@, b[i + 1].name@));
            } else {
                let i = choose|i: int| 0 <= i < a.len() && a[i].name@ == n;
                if i > 0 {
                    lemma_lex_lt_trans(n0, a[0].name@, a[i].name@);
                }
            }
            lemma_lex_lt_total(n0, n);
        }
        assert forall|k1: int, k2: int| #![trigger ps[k1], ps[k2]]
            0 <= k1 < k2 < ps.len() implies ps[k1] != ps[k2] by {
            if k2 < 1 + pd.len() {
                if k1 == 0 {
                    assert(ps[k2] == seq![n0] + sub[k2 - 1]);
                    assert(sub[k2 - 1].len() >= 1);
                    assert(ps[k2].len() >= 2 && ps[k1].len() == 1);
                } else {
                    assert(ps[k1] == seq![n0] + sub[k1 - 1]);
                    assert(ps[k2] == seq![n0] + sub[k2 - 1]);
                    if ps[k1] == ps[k2] {
                        assert((seq![n0] + sub[k1 - 1]).drop_first() =~= sub[k1 - 1]);
                        assert((seq![n0] + sub[k2 - 1]).drop_first() =~= sub[k2 - 1]);
                        assert(sub[k1 - 1] == sub[k2 - 1]);
                        assert(false);
                    }
                }
            } else if k1 >= 1 + pd.len() {
                assert(ps[k1] == pr[k1 - 1 - pd.len()]);
                assert(ps[k2] == pr[k2 - 1 - pd.len()]);
            } else {
                assert(ps[k2] == pr[k2 - 1 - pd.len()]);
                assert(has_name(a, ps[k2][0]) || has_name(tail, ps[k2][0]));
                assert(ps[k2][0] != n0);
                if k1 == 0 {
                    assert(ps[k1][0] == n0);
                } else {
                    assert(ps[k1] == seq![n0] + sub[k1 - 1]);
                    assert(ps[k1][0] == n0);
                }
            }
        }
    } else if a.len() > 0 && b.len() > 0 {
        lemma_lex_lt_total(a[0].name@, b[0].name@);
        lemma_list_size_elem(a, 0);
        lemma_list_size_elem(b, 0);
        assert(tree_wf(a[0].tree));
        assert(tree_wf(b[0].tree));
        lemma_tree_wf_sub(a[0].tree);
        lemma_tree_wf_sub(b[0].tree);
        lemma_wf_tail(a);
        lemma_wf_tail(b);
        let n0 = a[0].name@;
        assert(b[0].name@ == n0);
        let suba = a[0].tree.sub_children();
        let subb = b[0].tree.sub_children();
        let tail_a = a.subrange(1, a.len() as int);
        let tail_b = b.subrange(1, b.len() as int);
        lemma_paths_distinct(suba, subb);
        lemma_paths_distinct(tail_a, tail_b);
        lemma_paths_shape(suba, subb);
        lemma_paths_shape(tail_a, tail_b);
        let sub = spec_paths(suba, subb);
        let pd = sub.map_values(|p: Seq<Seq<u8>>| seq![n0] + p);
        let pr = spec_paths(tail_a, tail_b);
        assert forall|n: Seq<u8>| has_name(tail_a, n) || has_name(tail_b, n) implies n != n0 by {
            if has_name(tail_a, n) {
                let i = choose|i: int| 0 <= i < tail_a.len() && tail_a[i].name@ == n;
                assert(tail_a[i] == a[i + 1]);
                assert(lex_lt(a[0].name@, a[i + 1].name@));
            } else {
                let i = choose|i: int| 0 <= i < tail_b.len() && tail_b[i].name@ == n;
                assert(tail_b[i] == b[i + 1]);
                assert(lex_lt(b[0].name@, b[i + 1].name@));
            }
            lemma_lex_lt_total(n0, n);
        }
        assert forall|k1: int, k2: int| #![trigger ps[k1], ps[k2]]
            0 <= k1 < k2 < ps.len() implies ps[k1] != ps[k2] by {
            if k2 < 1 + pd.len() {
                if k1 == 0 {
                    assert(ps[k2] == seq![n0] + sub[k2 - 1]);
                    assert(sub[k2 - 1].len() >= 1);
                    assert(ps[k2].len() >= 2 && ps[k1].len() == 1);
                } else {
                    assert(ps[k1] == seq![n0] + sub[k1 - 1]);
                    assert(ps[k2] == seq![n0] + sub[k2 - 1]);
                    if ps[k1] == ps[k2] {
                        assert((seq![n0] + sub[k1 - 1]).drop_first() =~= sub[k1 - 1]);
                        assert((seq![n0] + sub[k2 - 1]).drop_first() =~= sub[k2 - 1]);
                        assert(sub[k1 - 1] == sub[k2 - 1]);
                        assert(false);
                    }
                }
            } else if k1 >= 1 + pd.len() {
                assert(ps[k1] == pr[k1 - 1 - pd.len()]);
                assert(ps[k2] == pr[k2 - 1 - pd.len()]);
            } else {
                assert(ps[k2] == pr[k2 - 1 - pd.len()]);
                assert(has_name(tail_a, ps[k2][0]) || has_name(tail_b, ps[k2][0]));
                assert(ps[k2][0] != n0);
                if k1 == 0 {
                    assert(ps[k1][0] == n0);
                } else {
                    assert(ps[k1] == seq![n0] + sub[k1 - 1]);
                    assert(ps[k1][0] == n0);
                }
            }
        }
    }
}

/// Completeness, and no duplicate rows: for well-formed trees the walk
/// owes exactly one row per relative path present under either side. The
/// paths listed beside the rows contain a path if and only if one of the
/// trees has it, no path is listed twice, and each row lies at the depth
/// equal to its path's component count minus one (counted from the walk's
/// starting depth), carrying the path's last name.
pub proof fn lemma_completeness(a: Seq<Child>, b: Seq<Child>, depth: nat)
    requires
        list_wf(a),
        list_wf(b),
    ensures
        spec_paths(a, b).len() == spec_rows(a, b, depth).len(),
        forall|p: Seq<Seq<u8>>|
            #![trigger spec_paths(a, b).contains(p)]
            #![trigger has_path(a, p)]
            #![trigger has_path(b, p)]
            spec_paths(a, b).contains(p) <==> (has_path(a, p) || has_path(b, p)),
        forall|k: int|
            #![trigger spec_paths(a, b)[k]]
            0 <= k < spec_paths(a, b).len() ==> {
                let p = spec_paths(a, b)[k];
                let r = spec_rows(a, b, depth)[k];
                &&& p.len() >= 1
                &&& r.depth == depth + p.len() - 1
                &&& r.left.name == p.last()
            },
        forall|k1: int, k2: int|
            #![trigger spec_paths(a, b)[k1], spec_paths(a, b)[k2]]
            0 <= k1 < k2 < spec_paths(a, b).len() ==> spec_paths(a, b)[k1] != spec_paths(a, b)[k2],
{
    lemma_paths_align(a, b, depth);
    lemma_paths_complete(a, b);
    lemma_paths_distinct(a, b);
}


/// One path is a strict prefix of another: the second lies somewhere in
/// the directory the first names.
pub open spec fn strict_prefix_of(q: Seq<Seq<u8>>, p: Seq<Seq<u8>>) -> bool {
    q.len() < p.len() && p.subrange(0, q.len() as int) == q
}

/// A directory's own row precedes every row of its recursive descent: an
/// earlier row's path is never strictly below a later row's path.
#[verifier::rlimit(100)]
pub proof fn lemma_parent_row_first(a: Seq<Child>, b: Seq<Child>)
    requires
        list_wf(a),
        list_wf(b),
    ensures
        forall|k1: int, k2: int|
            #![trigger spec_paths(a, b)[k1], spec_paths(a, b)[k2]]
            0 <= k1 < k2 < spec_paths(a, b).len() ==> !strict_prefix_of(
                spec_paths(a, b)[k2],
                spec_paths(a, b)[k1],
            ),
    decreases list_size(a) + list_size(b),
{
    let ps = spec_paths(a, b);
    assert(list_wf(Seq::<Child>::empty()));
    if ps.len() == 0 {
    } else {
        let n0: Seq<u8> = if a.len() > 0 && (b.len() == 0 || lex_lt(a[0].name@, b[0].name@)) {
            a[0].name@
        } else if b.len() > 0 && (a.len() == 0 || lex_lt(b[0].name@, a[0].name@)) {
            b[0].name@
        } else {
            a[0].name@
        };
        let ghost suba: Seq<Child>;
        let ghost subb: Seq<Child>;
        let ghost resta: Seq<Child>;
        let ghost restb: Seq<Child>;
        if a.len() > 0 && (b.len() == 0 || lex_lt(a[0].name@, b[0].name@)) {
            lemma_list_size_elem(a, 0);
            assert(tree_wf(a[0].tree));
            lemma_tree_wf_sub(a[0].tree);
            lemma_wf_tail(a);
            suba = a[0].tree.sub_children();
            subb = Seq::empty();
            resta = a.subrange(1, a.len() as int);
            restb = b;
        } else if b.len() > 0 && (a.len() == 0 || lex_lt(b[0].name@, a[0].name@)) {
            lemma_list_size_elem(b, 0);
            assert(tree_wf(b[0].tree));
            lemma_tree_wf_sub(b[0].tree);
            lemma_wf_tail(b);
            suba = Seq::empty();
            subb = b[0].tree.sub_children();
            resta = a;
            restb = b.subrange(1, b.len() as int);
        } else {
            lemma_lex_lt_total(a[0].name@, b[0].name@);
            lemma_list_size_elem(a, 0);
            lemma_list_size_elem(b, 0);
            assert(tree_wf(a[0].tree));
            assert(tree_wf(b[0].tree));
            lemma_tree_wf_sub(a[0].tree);
            lemma_tree_wf_sub(b[0].tree);
            lemma_wf_tail(a);
            lemma_wf_tail(b);
            suba = a[0].tree.sub_children();
            subb = b[0].tree.sub_children();
            resta = a.subrange(1, a.len() as int);
            restb = b.subrange(1, b.len() as int);
        }
        lemma_parent_row_first(suba, subb);
        lemma_parent_row_first(resta, restb);
        lemma_paths_shape(suba, subb);
        lemma_paths_shape(resta, restb);
        let sub = spec_paths(suba, subb);
        let pd = sub.map_values(|p: Seq<Seq<u8>>| seq![n0] + p);
        let pr = spec_paths(resta, restb);
        assert(ps == seq![seq![n0]] + pd + pr);
        // every name of the remaining merge differs from the head name
        assert forall|n: Seq<u8>| has_name(resta, n) || has_name(restb, n) implies n != n0 by {
            if a.len() > 0 && (b.len() == 0 || lex_lt(a[0].name@, b[0].name@)) {
                if has_name(resta, n) {
                    let i = choose|i: int| 0 <= i < resta.len() && resta[i].name@ == n;
                    assert(resta[i] == a[i + 1]);
                    assert(lex_lt(a[0].name@, a[i + 1].name@));
                } else {
                    let i = choose|i: int| 0 <= i < b.len() && b[i].name@ == n;
                    if i > 0 {
                        lemma_lex_lt_trans(n0, b[0].name@, b[i].name@);
                    }
                }
            } else if b.len() > 0 && (a.len() == 0 || lex_lt(b[0].name@, a[0].name@)) {
                if has_name(restb, n) {
                    let i = choose|i: int| 0 <= i < restb.len() && restb[i].name@ == n;
                    assert(restb[i] == b[i + 1]);
                    assert(lex_lt(b[0].name@, b[i + 1].name@));
                } else {
                    let i = choose|i: int| 0 <= i < a.len() && a[i].name@ == n;
                    if i > 0 {
                        lemma_lex_lt_trans(n0, a[0].name@, a[i].name@);
                    }
                }
            } else {
                if has_name(resta, n) {
                    let i = choose|i: int| 0 <= i < resta.len() && resta[i].name@ == n;
                    assert(resta[i] == a[i + 1]);
                    assert(lex_lt(a[0].name@, a[i + 1].name@));
                } else {
                    let i = choose|i: int| 0 <= i < restb.len() && restb[i].name@ == n;
                    assert(restb[i] == b[i + 1]);
                    assert(lex_lt(b[0].name@, b[i + 1].name@));
                }
            }
            lemma_lex_lt_total(n0, n);
        }
        assert forall|k1: int, k2: int| #![trigger ps[k1], ps[k2]]
            0 <= k1 < k2 < ps.len() implies !strict_prefix_of(ps[k2], ps[k1]) by {
            if strict_prefix_of(ps[k2], ps[k1]) {
                if k2 < 1 + pd.len() {
                    // both k1 and k2 land in the head-plus-descent block
                    assert(ps[k2] == seq![n0] + sub[k2 - 1]);
                    assert(ps[k2].len() >= 2);
                    if k1 == 0 {
                        assert(ps[k1].len() == 1);
                        assert(false);
                    } else {
                        assert(ps[k1] == seq![n0] + sub[k1 - 1]);
                        let q1 = sub[k1 - 1];
                        let q2 = sub[k2 - 1];
                        assert(strict_prefix_of(q2, q1)) by {
                            assert(q2.len() < q1.len());
                            assert(ps[k1].subrange(0, ps[k2].len() as int) == ps[k2]);
                            assert forall|m: int| 0 <= m < q2.len() implies q1[m] == q2[m] by {
                                assert(ps[k1][m + 1] == q1[m]);
                                assert(ps[k2][m + 1] == q2[m]);
                                assert(ps[k1].subrange(0, ps[k2].len() as int)[m + 1]
                                    == ps[k1][m + 1]);
                            }
                            assert(q1.subrange(0, q2.len() as int) =~= q2);
                        }
                        assert(false);
                    }
                } else if k1 >= 1 + pd.len() {
                    assert(ps[k1] == pr[k1 - 1 - pd.len()]);
                    assert(ps[k2] == pr[k2 - 1 - pd.len()]);
                    assert(false);
                } else {
                    // k1 in the head-plus-descent block, k2 in the rest:
                    // the rest's first names all differ from the head name
                    assert(ps[k2] == pr[k2 - 1 - pd.len()]);
                    assert(ps[k2].len() >= 1);
                    assert(has_name(resta, ps[k2][0]) || has_name(restb, ps[k2][0]));
                    assert(ps[k2][0] != n0);
                    if k1 == 0 {
                        assert(ps[k1].len() == 1);
                        assert(false);
                    } else {
                        assert(ps[k1] == seq![n0] + sub[k1 - 1]);
                        assert(ps[k1][0] == n0);
                        assert(ps[k1].subrange(0, ps[k2].len() as int)[0] == ps[k1][0]);
                        assert(false);
                    }
                }
            }
        }
    }
}

} // verus!
