//! Levenshtein edit distance between character sequences: the least number
//! of single-character insertions, deletions and substitutions turning one
//! sequence into the other, computed by dynamic programming over two rows.

use vstd::prelude::*;
use crate::text::str_chars;

verus! {

/// The least of three integers.
pub open spec fn min3(x: int, y: int, z: int) -> int {
    if x <= y && x <= z {
        x
    } else if y <= z {
        y
    } else {
        z
    }
}

/// The Levenshtein edit distance between two character sequences.
pub open spec fn edit_distance(a: Seq<char>, b: Seq<char>) -> int
    decreases a.len(), b.len(),
{
    if a.len() == 0 {
        b.len() as int
    } else if b.len() == 0 {
        a.len() as int
    } else {
        let del = edit_distance(a.drop_last(), b) + 1;
        let ins = edit_distance(a, b.drop_last()) + 1;
        let sub = edit_distance(a.drop_last(), b.drop_last())
            + if a.last() == b.last() { 0int } else { 1int };
        min3(del, ins, sub)
    }
}

/// Edit distance is never negative.
pub proof fn lemma_edit_distance_nonneg(a: Seq<char>, b: Seq<char>)
    ensures
        edit_distance(a, b) >= 0,
    decreases a.len(), b.len(),
{
    if a.len() == 0 || b.len() == 0 {
    } else {
        lemma_edit_distance_nonneg(a.drop_last(), b);
        lemma_edit_distance_nonneg(a, b.drop_last());
        lemma_edit_distance_nonneg(a.drop_last(), b.drop_last());
    }
}

/// Edit distance never exceeds the longer length.
pub proof fn lemma_edit_distance_le_max(a: Seq<char>, b: Seq<char>)
    ensures
        edit_distance(a, b) <= if a.len() >= b.len() { a.len() as int } else { b.len() as int },
    decreases a.len(), b.len(),
{
    if a.len() == 0 || b.len() == 0 {
    } else {
        lemma_edit_distance_le_max(a.drop_last(), b);
        lemma_edit_distance_le_max(a, b.drop_last());
        lemma_edit_distance_le_max(a.drop_last(), b.drop_last());
        lemma_edit_distance_nonneg(a.drop_last(), b);
        lemma_edit_distance_nonneg(a, b.drop_last());
    }
}

/// The distance from a sequence to itself is zero.
pub proof fn lemma_edit_distance_self(a: Seq<char>)
    ensures
        edit_distance(a, a) == 0,
    decreases a.len(),
{
    if a.len() == 0 {
    } else {
        lemma_edit_distance_self(a.drop_last());
        lemma_edit_distance_nonneg(a.drop_last(), a);
        lemma_edit_distance_nonneg(a, a.drop_last());
    }
}

/// Edit distance is symmetric.
pub proof fn lemma_edit_distance_symmetric(a: Seq<char>, b: Seq<char>)
    ensures
        edit_distance(a, b) == edit_distance(b, a),
    decreases a.len(), b.len(),
{
    if a.len() == 0 || b.len() == 0 {
    } else {
        lemma_edit_distance_symmetric(a.drop_last(), b);
        lemma_edit_distance_symmetric(a, b.drop_last());
        lemma_edit_distance_symmetric(a.drop_last(), b.drop_last());
    }
}

/// The distance from the empty sequence is the other sequence's length.
pub proof fn lemma_edit_distance_empty(s: Seq<char>)
    ensures
        edit_distance(Seq::<char>::empty(), s) == s.len(),
        edit_distance(s, Seq::<char>::empty()) == s.len(),
{
}

/// Increments, saturating at the largest `usize`; the saturation can only
/// be hit by rows of the largest representable length.
fn inc_sat(x: usize) -> (r: usize)
    ensures
        r == if x == usize::MAX { x as int } else { x + 1 },
        r >= x,
        x < usize::MAX ==> r == x + 1,
{
    if x == usize::MAX {
        x
    } else {
        x + 1
    }
}

/// Computes the Levenshtein distance between two character vectors by the
/// classic two-row dynamic program.
pub fn edit_distance_chars(a: &Vec<char>, b: &Vec<char>) -> (d: usize)
    ensures
        d == edit_distance(a@, b@),
{
    let la = a.len();
    let lb = b.len();
    if la == 0 {
        return lb;
    }
    if lb == 0 {
        return la;
    }
    let mut prev: Vec<usize> = Vec::new();
    let mut j: usize = 0;
    while j < lb
        invariant
            lb == b@.len(),
            j <= lb,
            prev@.len() == j,
            forall|k: int| 0 <= k < j ==> prev@[k] == edit_distance(a@.take(0), b@.take(k)),
        decreases lb - j,
    {
        proof {
            assert(a@.take(0) =~= Seq::<char>::empty());
            assert(b@.take(j as int).len() == j);
        }
        prev.push(j);
        j = j + 1;
    }
    proof {
        assert(a@.take(0) =~= Seq::<char>::empty());
        assert(b@.take(lb as int).len() == lb);
    }
    prev.push(lb);
    let mut curr: Vec<usize> = Vec::new();
    let mut k: usize = 0;
    while k < lb
        invariant
            k <= lb,
            curr@.len() == k,
        decreases lb - k,
    {
        curr.push(0);
        k = k + 1;
    }
    curr.push(0);
    let mut i: usize = 0;
    while i < la
        invariant
            la == a@.len(),
            lb == b@.len(),
            i <= la,
            prev@.len() == lb + 1,
            curr@.len() == lb + 1,
            forall|k2: int| 0 <= k2 <= lb ==> prev@[k2] == edit_distance(
                a@.take(i as int),
                b@.take(k2),
            ),
        decreases la - i,
    {
        proof {
            assert(b@.take(0) =~= Seq::<char>::empty());
            assert(a@.take(i + 1).len() == i + 1);
        }
        let first = inc_sat(i);
        proof {
            lemma_edit_distance_le_max(a@.take(i + 1), b@.take(0));
            lemma_edit_distance_nonneg(a@.take(i + 1), b@.take(0));
        }
        curr.set(0, first);
        let mut j2: usize = 0;
        while j2 < lb
            invariant
                la == a@.len(),
                lb == b@.len(),
                i < la,
                j2 <= lb,
                prev@.len() == lb + 1,
                curr@.len() == lb + 1,
                forall|k2: int| 0 <= k2 <= lb ==> prev@[k2] == edit_distance(
                    a@.take(i as int),
                    b@.take(k2),
                ),
                forall|k2: int| 0 <= k2 <= j2 ==> curr@[k2] == edit_distance(
                    a@.take(i + 1),
                    b@.take(k2),
                ),
            decreases lb - j2,
        {
            let cost: usize = if a[i] == b[j2] {
                0
            } else {
                1
            };
            proof {
                lemma_edit_distance_le_max(a@.take(i as int), b@.take(j2 as int));
                lemma_edit_distance_nonneg(a@.take(i as int), b@.take(j2 as int));
                assert(a@.take(i as int).len() == i);
                assert(b@.take(j2 as int).len() == j2);
            }
            let d1 = inc_sat(prev[j2 + 1]);
            let d2 = inc_sat(curr[j2]);
            let d3 = prev[j2] + cost;
            let m = if d1 <= d2 && d1 <= d3 {
                d1
            } else if d2 <= d3 {
                d2
            } else {
                d3
            };
            proof {
                let ax = a@.take(i + 1);
                let bx = b@.take(j2 + 1);
                assert(ax.drop_last() =~= a@.take(i as int));
                assert(bx.drop_last() =~= b@.take(j2 as int));
                assert(ax.last() == a@[i as int]);
                assert(bx.last() == b@[j2 as int]);
                lemma_edit_distance_le_max(ax, bx);
                lemma_edit_distance_le_max(ax.drop_last(), bx);
                lemma_edit_distance_le_max(ax, bx.drop_last());
                lemma_edit_distance_le_max(ax.drop_last(), bx.drop_last());
                lemma_edit_distance_nonneg(ax.drop_last(), bx);
                lemma_edit_distance_nonneg(ax, bx.drop_last());
                lemma_edit_distance_nonneg(ax.drop_last(), bx.drop_last());
                assert(edit_distance(ax, bx) <= if ax.len() >= bx.len() {
                    ax.len() as int
                } else {
                    bx.len() as int
                });
                assert(m == edit_distance(ax, bx));
            }
            curr.set(j2 + 1, m);
            j2 = j2 + 1;
        }
        let tmp = prev;
        prev = curr;
        curr = tmp;
        i = i + 1;
    }
    proof {
        assert(a@.take(la as int) =~= a@);
        assert(b@.take(lb as int) =~= b@);
    }
    prev[lb]
}

/// Computes the Levenshtein distance between two strings, over their
/// Unicode scalar sequences.
pub fn levenshtein_distance(s1: &str, s2: &str) -> (d: usize)
    ensures
        d == edit_distance(s1@, s2@),
{
    let a = str_chars(s1);
    let b = str_chars(s2);
    edit_distance_chars(&a, &b)
}

} // verus!
