//! Sorting the mailbox names the server lists. The sorted order is
//! load-bearing: it alone decides which handle each mailbox receives, so the
//! sort's result is pinned exactly — sorted, a permutation of its input, and
//! (by `lemma_sorted_names_unique`) the one such sequence there is.

use vstd::prelude::*;
use vstd::relations::{sorted_by, total_ordering};
use vstd::seq_lib::lemma_sorted_unique;
use crate::strutil::lex_le;
use crate::strutil::str_le;

verus! {

/// `lex_le` as a relation value, the shape the sortedness predicates take.
pub open spec fn lex_le_rel() -> spec_fn(Seq<char>, Seq<char>) -> bool {
    |a: Seq<char>, b: Seq<char>| lex_le(a, b)
}

/// Distinct characters have distinct code points.
proof fn lemma_char_distinct(c1: char, c2: char)
    requires
        c1 != c2,
    ensures
        c1 as u32 != c2 as u32,
{
}

/// `lex_le` holds of a sequence and itself.
pub proof fn lemma_lex_le_refl(a: Seq<char>)
    ensures
        lex_le(a, a),
    decreases a.len(),
{
    if a.len() > 0 {
        lemma_lex_le_refl(a.skip(1));
    }
}

/// Of two sequences, at least one is `lex_le` the other.
pub proof fn lemma_lex_le_total(a: Seq<char>, b: Seq<char>)
    ensures
        lex_le(a, b) || lex_le(b, a),
    decreases a.len(),
{
    if a.len() > 0 && b.len() > 0 {
        if a[0] == b[0] {
            lemma_lex_le_total(a.skip(1), b.skip(1));
        } else {
            lemma_char_distinct(a[0], b[0]);
        }
    }
}

/// Two sequences each `lex_le` the other are equal.
pub proof fn lemma_lex_le_antisym(a: Seq<char>, b: Seq<char>)
    requires
        lex_le(a, b),
        lex_le(b, a),
    ensures
        a == b,
    decreases a.len(),
{
    if a.len() == 0 {
        assert(b.len() == 0);
        assert(a =~= b);
    } else {
        assert(b.len() > 0);
        assert(a[0] == b[0]);
        lemma_lex_le_antisym(a.skip(1), b.skip(1));
        assert(a =~= seq![a[0]] + a.skip(1));
        assert(b =~= seq![b[0]] + b.skip(1));
    }
}

/// `lex_le` carries over a middle sequence.
pub proof fn lemma_lex_le_trans(a: Seq<char>, b: Seq<char>, c: Seq<char>)
    requires
        lex_le(a, b),
        lex_le(b, c),
    ensures
        lex_le(a, c),
    decreases a.len(),
{
    if a.len() > 0 && b.len() > 0 && c.len() > 0 && a[0] == b[0] && b[0] == c[0] {
        lemma_lex_le_trans(a.skip(1), b.skip(1), c.skip(1));
    }
}

/// `lex_le` is a total ordering in the sense the sortedness predicates use.
pub proof fn lemma_lex_le_total_ordering()
    ensures
        total_ordering(lex_le_rel()),
{
    let r = lex_le_rel();
    assert forall|a: Seq<char>| #[trigger] r(a, a) by {
        lemma_lex_le_refl(a);
    }
    assert forall|a: Seq<char>, b: Seq<char>| #[trigger] r(a, b) && #[trigger] r(b, a) implies a
        == b by {
        lemma_lex_le_antisym(a, b);
    }
    assert forall|a: Seq<char>, b: Seq<char>, c: Seq<char>|
        #[trigger] r(a, b) && #[trigger] r(b, c) implies r(a, c) by {
        lemma_lex_le_trans(a, b, c);
    }
    assert forall|a: Seq<char>, b: Seq<char>| #[trigger] r(a, b) || #[trigger] r(b, a) by {
        lemma_lex_le_total(a, b);
    }
}

/// The position before which `next` belongs in the sorted list `out`: every
/// name before it is `lex_le` `next`, and the name at it (if any) is not.
fn insert_pos(out: &Vec<String>, next: &str) -> (j: usize)
    ensures
        j <= out.len(),
        forall|i: int| 0 <= i < j ==> lex_le(#[trigger] out.deep_view()[i], next@),
        j < out.len() ==> !lex_le(out.deep_view()[j as int], next@),
{
    let mut j: usize = 0;
    loop
        invariant
            j <= out.len(),
            forall|i: int| 0 <= i < j ==> lex_le(#[trigger] out.deep_view()[i], next@),
        ensures
            j <= out.len(),
            forall|i: int| 0 <= i < j ==> lex_le(#[trigger] out.deep_view()[i], next@),
            j < out.len() ==> !lex_le(out.deep_view()[j as int], next@),
        decreases out.len() - j,
    {
        if j == out.len() {
            break;
        }
        if !str_le(out[j].as_str(), next) {
            break;
        }
        j = j + 1;
    }
    j
}

/// Sorts the given names lexicographically. The result is sorted and holds
/// exactly the given names, multiplicity included.
pub fn sort_names(names: &Vec<String>) -> (r: Vec<String>)
    ensures
        sorted_by(r.deep_view(), lex_le_rel()),
        r.deep_view().to_multiset() == names.deep_view().to_multiset(),
{
    broadcast use vstd::seq_lib::group_to_multiset_ensures;
    broadcast use vstd::multiset::group_multiset_axioms;

    let mut out: Vec<String> = Vec::new();
    let mut k: usize = 0;
    while k < names.len()
        invariant
            k <= names.len(),
            sorted_by(out.deep_view(), lex_le_rel()),
            out.deep_view().to_multiset() == names.deep_view().subrange(0, k as int)
                .to_multiset(),
        decreases names.len() - k,
    {
        let next = names[k].clone();
        let j = insert_pos(&out, next.as_str());
        proof {
            if j < out.len() {
                lemma_lex_le_total(out.deep_view()[j as int], next@);
            }
        }
        let ghost out0 = out.deep_view();
        out.insert(j, next);
        proof {
            out0.insert_ensures(j as int, next@);
            assert(out.deep_view() =~= out0.insert(j as int, next@));
            vstd::seq_lib::to_multiset_insert(out0, j as int, next@);
            let cur = out.deep_view();
            let r = lex_le_rel();
            assert forall|q: int| j < q < cur.len() implies lex_le(next@, #[trigger] cur[q]) by {
                assert(cur[q] == out0[q - 1]);
                assert(lex_le(next@, out0[j as int]));
                if q - 1 > j {
                    assert(r(out0[j as int], out0[q - 1]));
                    lemma_lex_le_trans(next@, out0[j as int], out0[q - 1]);
                }
            }
            assert forall|p: int, q: int| 0 <= p < q < cur.len() implies #[trigger] lex_le(
                cur[p],
                cur[q],
            ) by {
                if q < j {
                    assert(r(out0[p], out0[q]));
                } else if q == j {
                    assert(cur[p] == out0[p]);
                } else if p < j {
                    lemma_lex_le_trans(cur[p], next@, cur[q]);
                } else if p > j {
                    assert(r(out0[p - 1], out0[q - 1]));
                }
            }
            let pre = names.deep_view().subrange(0, k as int);
            assert(names.deep_view().subrange(0, k + 1) =~= pre.push(next@));
            vstd::seq_lib::to_multiset_build(pre, next@);
        }
        k = k + 1;
    }
    proof {
        assert(names.deep_view().subrange(0, names.len() as int) =~= names.deep_view());
    }
    out
}

/// Two sorted name lists with the same contents are the same list: given the
/// set of names the server returned, the sorted order — and with it the
/// handle numbering built from it — is fully determined.
pub proof fn lemma_sorted_names_unique(x: Seq<Seq<char>>, y: Seq<Seq<char>>)
    requires
        sorted_by(x, lex_le_rel()),
        sorted_by(y, lex_le_rel()),
        x.to_multiset() == y.to_multiset(),
    ensures
        x == y,
{
    lemma_lex_le_total_ordering();
    lemma_sorted_unique(x, y, lex_le_rel());
    assert(x =~= y);
}

} // verus!
