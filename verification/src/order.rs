//! Lexicographic order on event names.
//!
//! The report lists events ordered by their name's characters, compared by
//! code point, a proper prefix coming first. The order is specified by
//! [`lex_lt`], decided executably by [`compare_names`], and is total and
//! transitive, as the lemmas below state.

use vstd::prelude::*;

verus! {

/// Strict lexicographic order on character sequences: compare code points
/// left to right; a proper prefix comes before every extension of it.
pub open spec fn lex_lt(a: Seq<char>, b: Seq<char>) -> bool
    decreases a.len(),
{
    if b.len() == 0 {
        false
    } else if a.len() == 0 {
        true
    } else if a[0] != b[0] {
        (a[0] as int) < (b[0] as int)
    } else {
        lex_lt(a.drop_first(), b.drop_first())
    }
}

/// Of two sequences, exactly one holds: the first comes before the second,
/// they are equal, or the second comes before the first.
pub proof fn lemma_lex_total(a: Seq<char>, b: Seq<char>)
    ensures
        a == b <==> (!lex_lt(a, b) && !lex_lt(b, a)),
        !(lex_lt(a, b) && lex_lt(b, a)),
    decreases a.len(),
{
    if a.len() == 0 && b.len() == 0 {
        assert(a =~= b);
    } else if a.len() > 0 && b.len() > 0 {
        if a[0] == b[0] {
            lemma_lex_total(a.drop_first(), b.drop_first());
            if a.drop_first() == b.drop_first() {
                assert(a =~= b) by {
                    assert forall|j: int| 0 <= j < a.len() implies a[j] == b[j] by {
                        if j > 0 {
                            assert(a[j] == a.drop_first()[j - 1]);
                            assert(b[j] == b.drop_first()[j - 1]);
                        }
                    }
                }
            }
            if a == b {
                assert(a.drop_first() =~= b.drop_first());
            }
        } else {
            assert((a[0] as int) != (b[0] as int));
            assert(a != b);
        }
    }
}

/// The order is transitive.
pub proof fn lemma_lex_trans(a: Seq<char>, b: Seq<char>, c: Seq<char>)
    requires
        lex_lt(a, b),
        lex_lt(b, c),
    ensures
        lex_lt(a, c),
    decreases a.len(),
{
    if a.len() > 0 && b.len() > 0 && c.len() > 0 {
        if a[0] == b[0] && b[0] == c[0] {
            lemma_lex_trans(a.drop_first(), b.drop_first(), c.drop_first());
        }
    }
}

/// A sequence whose first characters agree with another up to position `i`
/// is ordered against it by what stands at position `i`, or by length when
/// one of them ends there.
proof fn lemma_lex_from_prefix(a: Seq<char>, b: Seq<char>, i: int)
    requires
        0 <= i <= a.len(),
        i <= b.len(),
        forall|j: int| 0 <= j < i ==> a[j] == b[j],
    ensures
        (i == a.len() && i == b.len()) ==> a == b,
        (i == a.len() && i < b.len()) ==> lex_lt(a, b),
        (i < a.len() && i == b.len()) ==> lex_lt(b, a),
        (i < a.len() && i < b.len() && (a[i] as int) < (b[i] as int)) ==> lex_lt(a, b),
        (i < a.len() && i < b.len() && (b[i] as int) < (a[i] as int)) ==> lex_lt(b, a),
    decreases i,
{
    if i == 0 {
        if a.len() == 0 && b.len() == 0 {
            assert(a =~= b);
        }
    } else {
        lemma_lex_from_prefix(a.drop_first(), b.drop_first(), i - 1);
        if i == a.len() && i == b.len() && a.drop_first() == b.drop_first() {
            assert(a =~= b);
        }
    }
}

/// How two event names stand to one another in the report's order.
#[derive(PartialEq, Eq, Structural, Clone, Copy, Debug)]
pub enum NameOrder {
    Before,
    Same,
    After,
}

/// Decide the order of two event names.
pub fn compare_names(a: &str, b: &str) -> (r: NameOrder)
    ensures
        r == NameOrder::Before <==> lex_lt(a@, b@),
        r == NameOrder::Same <==> a@ == b@,
        r == NameOrder::After <==> lex_lt(b@, a@),
{
    let a_len = a.unicode_len();
    let b_len = b.unicode_len();
    let mut i: usize = 0;
    loop
        invariant
            0 <= i <= a_len,
            i <= b_len,
            a_len == a@.len(),
            b_len == b@.len(),
            forall|j: int| 0 <= j < i ==> a@[j] == b@[j],
        decreases a_len - i,
    {
        proof {
            lemma_lex_from_prefix(a@, b@, i as int);
            lemma_lex_total(a@, b@);
        }
        if i == a_len {
            if i == b_len {
                return NameOrder::Same;
            }
            return NameOrder::Before;
        }
        if i == b_len {
            return NameOrder::After;
        }
        let ca = a.get_char(i);
        let cb = b.get_char(i);
        if (ca as u32) < (cb as u32) {
            return NameOrder::Before;
        }
        if (cb as u32) < (ca as u32) {
            return NameOrder::After;
        }
        proof {
            assert(ca == cb);
        }
        i = i + 1;
    }
}

} // verus!
