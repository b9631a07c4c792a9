//! Byte-wise lexicographic order on entry names.
//!
//! Children of a directory are sorted, and the merge walk is driven, by one
//! total order on raw name bytes, so that match outcomes are deterministic
//! across platforms.

use vstd::prelude::*;

verus! {

/// Strict byte-wise lexicographic order: `a` comes before `b`.
pub open spec fn lex_lt(a: Seq<u8>, b: Seq<u8>) -> bool
    decreases a.len(),
{
    if b.len() == 0 {
        false
    } else if a.len() == 0 {
        true
    } else if a[0] != b[0] {
        a[0] < b[0]
    } else {
        lex_lt(a.drop_first(), b.drop_first())
    }
}

/// `lex_lt` is a strict total order: any two names are related one way,
/// the other way, or equal, and never two of those at once.
pub proof fn lemma_lex_lt_total(a: Seq<u8>, b: Seq<u8>)
    ensures
        lex_lt(a, b) || lex_lt(b, a) || a == b,
        lex_lt(a, b) ==> !lex_lt(b, a),
        lex_lt(a, b) ==> a != b,
    decreases a.len(),
{
    if a.len() == 0 && b.len() == 0 {
        assert(a =~= b);
    } else if a.len() > 0 && b.len() > 0 && a[0] == b[0] {
        lemma_lex_lt_total(a.drop_first(), b.drop_first());
        if a.drop_first() == b.drop_first() {
            assert(a =~= b) by {
                assert(a.drop_first().len() == a.len() - 1);
                assert(b.drop_first().len() == b.len() - 1);
                assert forall|k: int| 0 <= k < a.len() implies a[k] == b[k] by {
                    if k > 0 {
                        assert(a.drop_first()[k - 1] == a[k]);
                        assert(b.drop_first()[k - 1] == b[k]);
                    }
                }
            }
        }
        if a == b {
            assert(a.drop_first() =~= b.drop_first());
        }
    }
}

/// `lex_lt` is transitive.
pub proof fn lemma_lex_lt_trans(a: Seq<u8>, b: Seq<u8>, c: Seq<u8>)
    requires
        lex_lt(a, b),
        lex_lt(b, c),
    ensures
        lex_lt(a, c),
    decreases a.len(),
{
    if a.len() > 0 && b.len() > 0 && c.len() > 0 && a[0] == b[0] && b[0] == c[0] {
        lemma_lex_lt_trans(a.drop_first(), b.drop_first(), c.drop_first());
    }
}

/// Dropping an equal prefix of both names does not change their order.
pub proof fn lemma_lex_lt_common_prefix(a: Seq<u8>, b: Seq<u8>, i: int)
    requires
        0 <= i <= a.len(),
        i <= b.len(),
        forall|k: int| 0 <= k < i ==> a[k] == b[k],
    ensures
        lex_lt(a, b) <==> lex_lt(a.skip(i), b.skip(i)),
    decreases i,
{
    if i > 0 {
        assert(a[0] == b[0]);
        assert(forall|k: int|
            0 <= k < i - 1 ==> a.drop_first()[k] == b.drop_first()[k]);
        lemma_lex_lt_common_prefix(a.drop_first(), b.drop_first(), i - 1);
        assert(a.drop_first().skip(i - 1) =~= a.skip(i));
        assert(b.drop_first().skip(i - 1) =~= b.skip(i));
    } else {
        assert(a.skip(0) =~= a);
        assert(b.skip(0) =~= b);
    }
}

/// The three possible outcomes of comparing two names.
#[derive(PartialEq, Eq, Debug)]
pub enum NameOrd {
    Lt,
    Eq,
    Gt,
}

/// Compare two names byte by byte under the lexicographic order.
pub fn cmp_name(a: &Vec<u8>, b: &Vec<u8>) -> (r: NameOrd)
    ensures
        (r == NameOrd::Lt <==> lex_lt(a@, b@)),
        (r == NameOrd::Gt <==> lex_lt(b@, a@)),
        (r == NameOrd::Eq <==> a@ == b@),
{
    let mut i: usize = 0;
    while i < a.len() && i < b.len()
        invariant
            0 <= i <= a.len(),
            i <= b.len(),
            forall|k: int| 0 <= k < i ==> a@[k] == b@[k],
        decreases a.len() - i,
    {
        let x = a[i];
        let y = b[i];
        if x != y {
            proof {
                lemma_lex_lt_common_prefix(a@, b@, i as int);
                lemma_lex_lt_common_prefix(b@, a@, i as int);
                assert(a@.skip(i as int)[0] == x);
                assert(b@.skip(i as int)[0] == y);
                lemma_lex_lt_total(a@, b@);
            }
            if x < y {
                return NameOrd::Lt;
            } else {
                return NameOrd::Gt;
            }
        }
        i = i + 1;
    }
    proof {
        lemma_lex_lt_common_prefix(a@, b@, i as int);
        lemma_lex_lt_common_prefix(b@, a@, i as int);
        lemma_lex_lt_total(a@, b@);
        if a@.len() == b@.len() {
            assert(a@ =~= b@);
        }
    }
    if a.len() < b.len() {
        NameOrd::Lt
    } else if b.len() < a.len() {
        NameOrd::Gt
    } else {
        NameOrd::Eq
    }
}

/// Whether `a` comes strictly before `b` in the lexicographic order.
pub fn name_lt(a: &Vec<u8>, b: &Vec<u8>) -> (r: bool)
    ensures
        r == lex_lt(a@, b@),
{
    match cmp_name(a, b) {
        NameOrd::Lt => true,
        NameOrd::Eq => false,
        NameOrd::Gt => false,
    }
}

} // verus!
