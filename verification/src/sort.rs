//! Sorting a directory's child list by name.
//!
//! The comparator walks two child lists in one total order, so each list
//! read from disk is first sorted byte-wise by name. Child names within
//! one directory are unique (a filesystem guarantee), so the sorted list
//! is strictly increasing.

use vstd::prelude::*;
use vstd::seq_lib::{to_multiset_insert, to_multiset_remove};
use crate::order::{lex_lt, name_lt, lemma_lex_lt_total};
use crate::tree::{Child, sorted_names};

verus! {

/// No name occurs twice in a child list.
pub open spec fn distinct_names(s: Seq<Child>) -> bool {
    forall|i: int, j: int|
        0 <= i < j < s.len() ==> s[i].name@ != s[j].name@
}

/// Sort a child list byte-wise by name, in place. The children themselves
/// are kept (same multiset); with names unique the result is strictly
/// increasing.
#[verifier::rlimit(100)]
pub fn sort_children(cs: &mut Vec<Child>)
    requires
        distinct_names(old(cs)@),
    ensures
        final(cs)@.to_multiset() == old(cs)@.to_multiset(),
        final(cs)@.len() == old(cs)@.len(),
        distinct_names(final(cs)@),
        sorted_names(final(cs)@),
{
    broadcast use vstd::seq::Seq::to_multiset_ensures;

    let mut idx: usize = 1;
    while idx < cs.len()
        invariant
            1 <= idx,
            cs@.len() == old(cs)@.len(),
            cs@.to_multiset() == old(cs)@.to_multiset(),
            distinct_names(cs@),
            sorted_names(
                cs@.subrange(0, if idx as int <= cs@.len() { idx as int } else { cs@.len() as int }),
            ),
        decreases cs.len() - idx,
    {
        let mut pos: usize = idx;
        while pos > 0 && name_lt(&cs[idx].name, &cs[pos - 1].name)
            invariant
                0 <= pos <= idx < cs@.len(),
                distinct_names(cs@),
                sorted_names(cs@.subrange(0, idx as int)),
                forall|k: int|
                    pos <= k < idx ==> lex_lt(cs@[idx as int].name@, #[trigger] cs@[k].name@),
            decreases pos,
        {
            pos = pos - 1;
        }
        proof {
            if pos > 0 {
                lemma_lex_lt_total(cs@[idx as int].name@, cs@[pos - 1].name@);
                assert(cs@[pos - 1].name@ != cs@[idx as int].name@);
                assert(lex_lt(cs@[pos - 1].name@, cs@[idx as int].name@));
            }
        }
        let ghost before = cs@;
        let ghost x_v = cs@[idx as int];
        let x = cs.remove(idx);
        cs.insert(pos, x);
        proof {
            before.to_multiset_ensures();
            to_multiset_remove(before, idx as int);
            to_multiset_insert(before.remove(idx as int), pos as int, x_v);
            assert(before.contains(x_v));
            assert(before.to_multiset().count(x_v) > 0);
            assert(before.to_multiset().remove(x_v).insert(x_v) =~= before.to_multiset());
            let now = cs@;
            assert(now == before.remove(idx as int).insert(pos as int, x_v));
            assert(forall|k: int| 0 <= k < pos ==> now[k] == #[trigger] before[k]);
            assert(now[pos as int] == x_v);
            assert(forall|k: int|
                pos < k <= idx ==> now[k] == #[trigger] before[k - 1]);
            assert(forall|k: int|
                idx < k < now.len() ==> now[k] == #[trigger] before[k]);
            assert(distinct_names(now)) by {
                assert forall|p: int, q: int| 0 <= p < q < now.len() implies now[p].name@
                    != now[q].name@ by {
                    let p0: int = if p < pos { p } else if p == pos { idx as int } else if p
                        <= idx { p - 1 } else { p };
                    let q0: int = if q < pos { q } else if q == pos { idx as int } else if q
                        <= idx { q - 1 } else { q };
                    assert(now[p] == before[p0]);
                    assert(now[q] == before[q0]);
                    assert(p0 != q0);
                }
            }
            let ghost s2 = now.subrange(0, idx as int + 1);
            assert(sorted_names(s2)) by {
                assert forall|p: int, q: int| #![trigger s2[p], s2[q]]
                    0 <= p < q < s2.len() implies lex_lt(s2[p].name@, s2[q].name@) by {
                    assert(s2[p] == now[p]);
                    assert(s2[q] == now[q]);
                    if p < pos && q == pos {
                        if p < pos - 1 {
                            assert(lex_lt(before[p].name@, before[pos - 1].name@)) by {
                                assert(before.subrange(0, idx as int)[p] == before[p]);
                                assert(before.subrange(0, idx as int)[pos - 1] == before[pos - 1]);
                            }
                            crate::order::lemma_lex_lt_trans(
                                before[p].name@,
                                before[pos - 1].name@,
                                x_v.name@,
                            );
                        }
                    } else if p == pos && q > pos {
                        assert(lex_lt(x_v.name@, before[q - 1].name@));
                    } else if p < pos && q > pos {
                        assert(lex_lt(before[p].name@, before[q - 1].name@)) by {
                            assert(before.subrange(0, idx as int)[p] == before[p]);
                            assert(before.subrange(0, idx as int)[q - 1] == before[q - 1]);
                        }
                    } else if p > pos && q > pos {
                        assert(lex_lt(before[p - 1].name@, before[q - 1].name@)) by {
                            assert(before.subrange(0, idx as int)[p - 1] == before[p - 1]);
                            assert(before.subrange(0, idx as int)[q - 1] == before[q - 1]);
                        }
                    } else if p < pos && q < pos {
                        assert(lex_lt(before[p].name@, before[q].name@)) by {
                            assert(before.subrange(0, idx as int)[p] == before[p]);
                            assert(before.subrange(0, idx as int)[q] == before[q]);
                        }
                    }
                }
            }
        }
        idx = idx + 1;
    }
    proof {
        if cs@.len() > 0 {
            assert(cs@.subrange(0, cs@.len() as int) =~= cs@);
        }
    }
}

} // verus!
