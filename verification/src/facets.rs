//! Facet accumulation: a list of attribute values kept strictly sorted by
//! the lexicographic order, each with a saturating occurrence count.

use vstd::prelude::*;
use crate::text::{
    chars_eq, clone_chars, lemma_lex_antisym, lemma_lex_total, lemma_lex_trans,
    lex_le, lex_le_chars,
};

verus! {

/// One attribute value with its occurrence count so far.
pub struct FacetAcc {
    pub chars: Vec<char>,
    pub count: usize,
}

/// Strictly below in the lexicographic order.
pub open spec fn lex_lt(a: Seq<char>, b: Seq<char>) -> bool {
    lex_le(a, b) && a != b
}

/// The accumulator invariant: values strictly ascending, counts positive.
pub open spec fn accs_wf(s: Seq<FacetAcc>) -> bool {
    &&& (forall|a: int, b: int|
        0 <= a < b < s.len() ==> lex_lt(
            (#[trigger] s[a]).chars@,
            (#[trigger] s[b]).chars@,
        ))
    &&& (forall|j: int| 0 <= j < s.len() ==> (#[trigger] s[j]).count >= 1)
}

/// The count the accumulator records for value `v`: the sum over entries
/// holding `v`, which with distinct values is the one entry's count.
pub open spec fn acc_count(s: Seq<FacetAcc>, v: Seq<char>) -> int
    decreases s.len(),
{
    if s.len() == 0 {
        0
    } else {
        acc_count(s.drop_last(), v) + if s.last().chars@ == v {
            s.last().count as int
        } else {
            0
        }
    }
}

/// Incrementing, saturated at the largest `usize`.
pub open spec fn sat_inc(x: int) -> int {
    if x >= usize::MAX {
        x
    } else {
        x + 1
    }
}

/// Counts add over concatenation.
proof fn lemma_acc_count_concat(a: Seq<FacetAcc>, b: Seq<FacetAcc>, v: Seq<char>)
    ensures
        acc_count(a + b, v) == acc_count(a, v) + acc_count(b, v),
    decreases b.len(),
{
    if b.len() == 0 {
        assert(a + b =~= a);
    } else {
        assert((a + b).drop_last() =~= a + b.drop_last());
        assert((a + b).last() == b.last());
        lemma_acc_count_concat(a, b.drop_last(), v);
    }
}

/// Replacing one entry shifts the count by the difference at that entry.
proof fn lemma_acc_count_update(s: Seq<FacetAcc>, j: int, e: FacetAcc, v: Seq<char>)
    requires
        0 <= j < s.len(),
    ensures
        acc_count(s.update(j, e), v) == acc_count(s, v) + (if e.chars@ == v {
            e.count as int
        } else {
            0
        }) - (if s[j].chars@ == v {
            s[j].count as int
        } else {
            0
        }),
    decreases s.len(),
{
    if j == s.len() - 1 {
        assert(s.update(j, e).drop_last() =~= s.drop_last());
        assert(s.update(j, e).last() == e);
    } else {
        assert(s.update(j, e).drop_last() =~= s.drop_last().update(j, e));
        assert(s.update(j, e).last() == s.last());
        lemma_acc_count_update(s.drop_last(), j, e, v);
    }
}

/// Inserting an entry adds exactly its contribution.
proof fn lemma_acc_count_insert(s: Seq<FacetAcc>, j: int, e: FacetAcc, v: Seq<char>)
    requires
        0 <= j <= s.len(),
    ensures
        acc_count(s.insert(j, e), v) == acc_count(s, v) + if e.chars@ == v {
            e.count as int
        } else {
            0
        },
{
    assert(s.insert(j, e) =~= s.take(j) + (seq![e] + s.skip(j)));
    assert(s =~= s.take(j) + s.skip(j));
    lemma_acc_count_concat(s.take(j), seq![e] + s.skip(j), v);
    lemma_acc_count_concat(seq![e], s.skip(j), v);
    lemma_acc_count_concat(s.take(j), s.skip(j), v);
    assert(seq![e].drop_last() =~= Seq::<FacetAcc>::empty());
    assert(acc_count(Seq::<FacetAcc>::empty(), v) == 0);
    assert(seq![e].last() == e);
    assert(acc_count(seq![e], v) == if e.chars@ == v {
        e.count as int
    } else {
        0
    });
}

/// With no entry holding `v`, its count is zero.
proof fn lemma_acc_count_absent(s: Seq<FacetAcc>, v: Seq<char>)
    requires
        forall|j: int| 0 <= j < s.len() ==> (#[trigger] s[j]).chars@ != v,
    ensures
        acc_count(s, v) == 0,
    decreases s.len(),
{
    if s.len() > 0 {
        lemma_acc_count_absent(s.drop_last(), v);
    }
}

/// With distinct values, the count for an entry's value is that count.
proof fn lemma_acc_count_unique(s: Seq<FacetAcc>, j: int)
    requires
        0 <= j < s.len(),
        forall|a: int, b: int|
            0 <= a < b < s.len() ==> (#[trigger] s[a]).chars@ != (#[trigger] s[b]).chars@,
    ensures
        acc_count(s, s[j].chars@) == s[j].count,
    decreases s.len(),
{
    if j == s.len() - 1 {
        assert forall|a: int| 0 <= a < s.drop_last().len() implies (
        #[trigger] s.drop_last()[a]).chars@ != s[j].chars@ by {
            assert(s[a].chars@ != s[j].chars@);
        }
        lemma_acc_count_absent(s.drop_last(), s[j].chars@);
    } else {
        assert forall|a: int, b: int|
            0 <= a < b < s.drop_last().len() implies (#[trigger] s.drop_last()[a]).chars@ != (
        #[trigger] s.drop_last()[b]).chars@ by {
            assert(s[a].chars@ != s[b].chars@);
        }
        lemma_acc_count_unique(s.drop_last(), j);
        assert(s.last().chars@ != s[j].chars@);
    }
}

/// The position of the first entry not strictly below `key`.
fn scan_pos(acc: &Vec<FacetAcc>, key: &Vec<char>) -> (pos: usize)
    ensures
        pos <= acc@.len(),
        forall|q: int| 0 <= q < pos ==> lex_lt((#[trigger] acc@[q]).chars@, key@),
        pos < acc@.len() ==> !lex_lt(acc@[pos as int].chars@, key@),
{
    let mut pos: usize = 0;
    while pos < acc.len()
        invariant
            pos <= acc@.len(),
            forall|q: int| 0 <= q < pos ==> lex_lt((#[trigger] acc@[q]).chars@, key@),
        decreases acc@.len() - pos,
    {
        let le = lex_le_chars(&acc[pos].chars, key);
        let eq = chars_eq(&acc[pos].chars, key);
        if !(le && !eq) {
            return pos;
        }
        pos = pos + 1;
    }
    pos
}

/// Records one more occurrence of `key`, keeping the list strictly sorted:
/// an existing entry is incremented (saturating), a new value is inserted
/// at its ordered position with count one.
pub fn bump_acc(acc: &mut Vec<FacetAcc>, key: &Vec<char>)
    requires
        accs_wf(old(acc)@),
    ensures
        accs_wf(final(acc)@),
        forall|v: Seq<char>| #[trigger]
            acc_count(final(acc)@, v) == if v == key@ {
                sat_inc(acc_count(old(acc)@, v))
            } else {
                acc_count(old(acc)@, v)
            },
{
    let ghost pre = acc@;
    let pos = scan_pos(acc, key);
    let found = pos < acc.len() && chars_eq(&acc[pos].chars, key);
    if found {
        proof {
            assert(pre[pos as int].chars@ == key@);
            assert forall|a: int, b: int|
                0 <= a < b < pre.len() implies (#[trigger] pre[a]).chars@ != (
            #[trigger] pre[b]).chars@ by {
                if pre[a].chars@ == pre[b].chars@ {
                    assert(lex_lt(pre[a].chars@, pre[b].chars@));
                }
            }
            lemma_acc_count_unique(pre, pos as int);
        }
        let c = acc[pos].count;
        let c2 = if c == usize::MAX {
            c
        } else {
            c + 1
        };
        let ch = clone_chars(&acc[pos].chars);
        acc.set(pos, FacetAcc { chars: ch, count: c2 });
        proof {
            let e2 = acc@[pos as int];
            assert(acc@ == pre.update(pos as int, e2));
            assert(e2.chars@ == key@);
            assert forall|v: Seq<char>| #[trigger] acc_count(acc@, v) == (if v == key@ {
                sat_inc(acc_count(pre, v))
            } else {
                acc_count(pre, v)
            }) by {
                lemma_acc_count_update(pre, pos as int, e2, v);
                if v == key@ {
                    assert(acc_count(pre, v) == c);
                } else {
                    assert(pre[pos as int].chars@ != v);
                }
            }
            assert forall|a: int, b: int|
                0 <= a < b < acc@.len() implies lex_lt(
                (#[trigger] acc@[a]).chars@,
                (#[trigger] acc@[b]).chars@,
            ) by {
                assert(acc@[a].chars@ == pre[a].chars@);
                assert(acc@[b].chars@ == pre[b].chars@);
            }
        }
    } else {
        proof {
            // the key is not in the list: entries before `pos` are strictly
            // below it, entries from `pos` on strictly above it
            if pos < pre.len() {
                lemma_lex_total(pre[pos as int].chars@, key@);
                assert(lex_le(key@, pre[pos as int].chars@));
            }
            assert forall|q: int| pos <= q < pre.len() implies lex_lt(
                key@,
                (#[trigger] pre[q]).chars@,
            ) by {
                if pre[pos as int].chars@ == key@ {
                    assert(false);
                }
                assert(lex_lt(key@, pre[pos as int].chars@));
                if q > pos {
                    assert(lex_lt(pre[pos as int].chars@, pre[q].chars@));
                    lemma_lex_trans(key@, pre[pos as int].chars@, pre[q].chars@);
                    if key@ == pre[q].chars@ {
                        lemma_lex_antisym(pre[pos as int].chars@, pre[q].chars@);
                    }
                }
            }
            assert forall|q: int| 0 <= q < pre.len() implies (#[trigger] pre[q]).chars@
                != key@ by {
                if q < pos {
                } else {
                    assert(lex_lt(key@, pre[q].chars@));
                }
            }
            lemma_acc_count_absent(pre, key@);
        }
        let ch = clone_chars(key);
        acc.insert(pos, FacetAcc { chars: ch, count: 1 });
        proof {
            let e = acc@[pos as int];
            assert(acc@ == pre.insert(pos as int, e));
            assert(e.chars@ == key@);
            pre.insert_ensures(pos as int, e);
            assert forall|v: Seq<char>| #[trigger] acc_count(acc@, v) == (if v == key@ {
                sat_inc(acc_count(pre, v))
            } else {
                acc_count(pre, v)
            }) by {
                lemma_acc_count_insert(pre, pos as int, e, v);
            }
            assert forall|a: int, b: int|
                0 <= a < b < acc@.len() implies lex_lt(
                (#[trigger] acc@[a]).chars@,
                (#[trigger] acc@[b]).chars@,
            ) by {
                if a < pos && b < pos {
                    assert(acc@[a] == pre[a] && acc@[b] == pre[b]);
                } else if a < pos && b == pos {
                    assert(acc@[a] == pre[a] && acc@[b] == e);
                } else if a < pos && b > pos {
                    assert(acc@[a] == pre[a] && acc@[b] == pre[b - 1]);
                } else if a == pos && b > pos {
                    assert(acc@[a] == e && acc@[b] == pre[b - 1]);
                } else {
                    assert(acc@[a] == pre[a - 1] && acc@[b] == pre[b - 1]);
                }
            }
        }
    }
}

/// With distinct values, the accumulated count of an entry's value is that
/// entry's count.
pub proof fn lemma_acc_count_unique_pub(s: Seq<FacetAcc>, j: int)
    requires
        0 <= j < s.len(),
        forall|a: int, b: int|
            0 <= a < b < s.len() ==> (#[trigger] s[a]).chars@ != (#[trigger] s[b]).chars@,
    ensures
        acc_count(s, s[j].chars@) == s[j].count,
{
    lemma_acc_count_unique(s, j);
}

/// A positive accumulated count names a present value.
pub proof fn lemma_acc_count_present(s: Seq<FacetAcc>, v: Seq<char>)
    requires
        acc_count(s, v) > 0,
    ensures
        exists|j: int| 0 <= j < s.len() && (#[trigger] s[j]).chars@ == v,
{
    if forall|j: int| 0 <= j < s.len() ==> (#[trigger] s[j]).chars@ != v {
        lemma_acc_count_absent(s, v);
    }
}

} // verus!
