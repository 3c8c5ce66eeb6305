//! Deterministic ordering of ranked results: descending by score, ties
//! broken by ascending document id, so a scored set has exactly one sorted
//! arrangement.

use vstd::prelude::*;
use vstd::relations::{sorted_by, total_ordering};
use vstd::seq_lib::lemma_sorted_unique;
use vstd::seq_lib::to_multiset_insert;
use vstd::seq_lib::to_multiset_build;

verus! {

/// A document id with its computed score in milli units.
#[derive(Clone, Copy, PartialEq, Eq, Structural)]
pub struct Scored {
    pub doc: usize,
    pub score: i64,
}

/// Ranked order between two scored documents: the higher score first, equal
/// scores by ascending document id.
pub open spec fn rank_le_at(a: Scored, b: Scored) -> bool {
    a.score > b.score || (a.score == b.score && a.doc <= b.doc)
}

/// The ranked order as a relation value.
pub open spec fn rank_le() -> spec_fn(Scored, Scored) -> bool {
    |a: Scored, b: Scored| rank_le_at(a, b)
}

/// The ranked order is total: document ids break every tie.
pub proof fn lemma_rank_total()
    ensures
        total_ordering(rank_le()),
{
    let r = rank_le();
    assert forall|x: Scored, y: Scored| #[trigger] r(x, y) && #[trigger] r(y, x) implies x == y by {
        assert(x.score == y.score && x.doc == y.doc);
    }
}

/// Decides the ranked order.
fn rank_le_exec(a: Scored, b: Scored) -> (r: bool)
    ensures
        r == rank_le_at(a, b),
{
    a.score > b.score || (a.score == b.score && a.doc <= b.doc)
}

/// Sorts scored documents by descending score, ties by ascending document
/// id: the result is the unique ranked arrangement of the input.
pub fn sort_scored(input: Vec<Scored>) -> (r: Vec<Scored>)
    ensures
        r@ == input@.sort_by(rank_le()),
        sorted_by(r@, rank_le()),
        r@.to_multiset() == input@.to_multiset(),
        r@.len() == input@.len(),
{
    let ghost rel = rank_le();
    proof {
        lemma_rank_total();
    }
    let mut out: Vec<Scored> = Vec::new();
    let mut i: usize = 0;
    proof {
        assert(input@.take(0) =~= Seq::<Scored>::empty());
        assert(out@.to_multiset() =~= input@.take(0).to_multiset());
    }
    while i < input.len()
        invariant
            i <= input@.len(),
            rel == rank_le(),
            total_ordering(rel),
            sorted_by(out@, rel),
            out@.to_multiset() == input@.take(i as int).to_multiset(),
            out@.len() == i,
        decreases input@.len() - i,
    {
        let x = input[i];
        let mut pos: usize = 0;
        while pos < out.len() && rank_le_exec(out[pos], x)
            invariant
                pos <= out@.len(),
                rel == rank_le(),
                forall|q: int| 0 <= q < pos ==> rel(#[trigger] out@[q], x),
            decreases out@.len() - pos,
        {
            pos = pos + 1;
        }
        let ghost before = out@;
        out.insert(pos, x);
        proof {
            broadcast use to_multiset_insert;
            broadcast use to_multiset_build;

            assert(input@.take(i + 1).drop_last() =~= input@.take(i as int));
            assert(input@.take(i + 1) =~= input@.take(i as int).push(x));
            assert(out@.to_multiset() =~= input@.take(i + 1).to_multiset());
            before.insert_ensures(pos as int, x);
            assert forall|a: int, b: int| 0 <= a < b < out@.len() implies rel(
                #[trigger] out@[a],
                #[trigger] out@[b],
            ) by {
                if pos < before.len() {
                    assert(!rel(before[pos as int], x));
                    assert(rel(x, before[pos as int]));
                }
                if a < pos && b < pos {
                    assert(out@[a] == before[a] && out@[b] == before[b]);
                } else if a < pos && b == pos {
                    assert(out@[a] == before[a] && out@[b] == x);
                } else if a < pos && b > pos {
                    assert(out@[a] == before[a] && out@[b] == before[b - 1]);
                } else if a == pos && b > pos {
                    assert(out@[a] == x && out@[b] == before[b - 1]);
                    assert(rel(x, before[pos as int]));
                    if b - 1 > pos {
                        assert(rel(before[pos as int], before[b - 1]));
                    }
                } else {
                    assert(out@[a] == before[a - 1] && out@[b] == before[b - 1]);
                }
            }
        }
        i = i + 1;
    }
    proof {
        assert(input@.take(input@.len() as int) =~= input@);
        input@.lemma_sort_by_ensures(rel);
        lemma_sorted_unique(out@, input@.sort_by(rel), rel);
        input@.to_multiset_ensures();
        assert(out@.len() == input@.len());
    }
    out
}

} // verus!
