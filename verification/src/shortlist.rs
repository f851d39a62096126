//! The bounded list of the best candidates seen so far.
//!
//! The list lives in a `smallvec::SmallVec` with room for one entry more than
//! the search width, so that it stays off the heap. The first part of this
//! file states what the crate's source shows of the functions used; the rest
//! is verified against these statements.

use smallvec::SmallVec;
use vstd::prelude::*;

verus! {

/// How many candidates the search follows up at each level.
pub const SEARCH_WIDTH: usize = 14;

/// A length that no list reaches: with sixteen bytes to an entry, a list of
/// this length still fits an allocation on a machine of thirty-two bits.
pub const LIST_LIMIT: usize = 0x400_0000;

/// A `SmallVec` of scored candidates: each entry is a score and the number
/// of the candidate that has it. The verifier does not look inside: what the
/// list holds is spoken of through [`entries`].
#[verifier::external_body]
#[derive(Debug)]
pub struct Shortlist {
    inner: SmallVec<[(i64, usize); 15]>,
}

/// The entries of a list, first to last.
pub uninterp spec fn entries(list: Shortlist) -> Seq<(i64, usize)>;

/// `SmallVec::new`: an empty list.
#[verifier::external_body]
pub(crate) fn shortlist_new() -> (list: Shortlist)
    ensures
        entries(list).len() == 0,
{
    Shortlist { inner: SmallVec::new() }
}

/// `SmallVec::len`: the number of entries.
#[verifier::external_body]
pub(crate) fn shortlist_len(list: &Shortlist) -> (n: usize)
    ensures
        n == entries(*list).len(),
{
    list.inner.len()
}

/// Indexing a `SmallVec`: the entry at `index`. The crate panics on an index
/// past the end, which the precondition excludes.
#[verifier::external_body]
pub(crate) fn shortlist_get(list: &Shortlist, index: usize) -> (e: (i64, usize))
    requires
        index < entries(*list).len(),
    ensures
        e == entries(*list)[index as int],
{
    list.inner[index]
}

/// `SmallVec::insert`: puts `element` at `index` and moves the entries from
/// there on one place back. The crate panics on an index past the length,
/// and when a full list would have to grow past what an allocation can
/// hold; a list below the length limit is far from that.
#[verifier::external_body]
pub(crate) fn shortlist_insert(list: &mut Shortlist, index: usize, element: (i64, usize))
    requires
        index <= entries(*old(list)).len() < LIST_LIMIT,
    ensures
        entries(*final(list)) == entries(*old(list)).insert(index as int, element),
{
    list.inner.insert(index, element)
}

/// `SmallVec::truncate`: keeps the first `len` entries; a list that is no
/// longer than `len` stays as it is.
#[verifier::external_body]
pub(crate) fn shortlist_truncate(list: &mut Shortlist, len: usize)
    ensures
        entries(*final(list)) == cut(entries(*old(list)), len as nat),
{
    list.inner.truncate(len)
}

/// The first `width` entries of a list, or all of a shorter one.
pub open spec fn cut(list: Seq<(i64, usize)>, width: nat) -> Seq<(i64, usize)> {
    if list.len() > width {
        list.take(width as int)
    } else {
        list
    }
}

/// The order of the list: a higher score comes first, and of two equal
/// scores the one of the earlier candidate.
pub open spec fn ranks_before(a: (i64, usize), b: (i64, usize)) -> bool {
    a.0 > b.0 || (a.0 == b.0 && a.1 < b.1)
}

/// The entries stand in the order of the list.
pub open spec fn ranked(list: Seq<(i64, usize)>) -> bool {
    forall|a: int, b: int|
        0 <= a < b < list.len() ==> ranks_before(#[trigger] list[a], #[trigger] list[b])
}

/// Where a new candidate with score `x` goes: behind the last entry whose
/// score is at least `x`.
pub open spec fn slot(list: Seq<(i64, usize)>, x: i64) -> nat
    decreases list.len(),
{
    if list.len() == 0 {
        0
    } else if list.last().0 >= x {
        list.len()
    } else {
        slot(list.drop_last(), x)
    }
}

/// The list after the candidates with the given scores were offered one by
/// one: each is put in its slot, and the list is cut back to `width`.
pub open spec fn shortlist_of(scores: Seq<i64>, width: nat) -> Seq<(i64, usize)>
    decreases scores.len(),
{
    if scores.len() == 0 {
        Seq::empty()
    } else {
        let before = shortlist_of(scores.drop_last(), width);
        let e = (scores.last(), (scores.len() - 1) as usize);
        cut(before.insert(slot(before, e.0) as int, e), width)
    }
}

/// The list holds candidate `i`.
pub open spec fn holds(list: Seq<(i64, usize)>, i: int) -> bool {
    exists|k: int| 0 <= k < list.len() && (#[trigger] list[k]).1 == i
}

/// Every entry of the list ranks before `e`.
pub open spec fn all_before(list: Seq<(i64, usize)>, e: (i64, usize)) -> bool {
    forall|k: int| 0 <= k < list.len() ==> ranks_before(#[trigger] list[k], e)
}

/// The list holds the `width` best of the candidates, best first: its
/// entries are candidates with their scores, they stand in order, and a
/// candidate that is missing ranks behind every entry of a full list.
pub open spec fn is_top(list: Seq<(i64, usize)>, scores: Seq<i64>, width: nat) -> bool {
    &&& list.len() == if scores.len() < width {
        scores.len()
    } else {
        width
    }
    &&& forall|k: int|
        0 <= k < list.len() ==> (#[trigger] list[k]).1 < scores.len() && list[k].0
            == scores[list[k].1 as int]
    &&& ranked(list)
    &&& forall|i: int|
        0 <= i < scores.len() ==> #[trigger] holds(list, i) || (list.len() == width && all_before(
            list,
            (scores[i], i as usize),
        ))
}

/// In a ranked list the slot of a score parts the entries with at least
/// that score from those with less.
pub proof fn lemma_slot(list: Seq<(i64, usize)>, x: i64)
    requires
        ranked(list),
    ensures
        slot(list, x) <= list.len(),
        forall|k: int| 0 <= k < slot(list, x) ==> (#[trigger] list[k]).0 >= x,
        forall|k: int| slot(list, x) <= k < list.len() ==> (#[trigger] list[k]).0 < x,
    decreases list.len(),
{
    if list.len() > 0 {
        if list.last().0 >= x {
            assert forall|k: int| 0 <= k < list.len() implies (#[trigger] list[k]).0 >= x by {
                if k < list.len() - 1 {
                    assert(ranks_before(list[k], list[list.len() - 1]));
                }
            }
        } else {
            let shorter = list.drop_last();
            assert forall|a: int, b: int| 0 <= a < b < shorter.len() implies ranks_before(
                #[trigger] shorter[a],
                #[trigger] shorter[b],
            ) by {
                assert(shorter[a] == list[a] && shorter[b] == list[b]);
            }
            lemma_slot(shorter, x);
            assert forall|k: int| 0 <= k < slot(list, x) implies (#[trigger] list[k]).0 >= x by {
                assert(shorter[k] == list[k]);
            }
            assert forall|k: int| slot(list, x) <= k < list.len() implies (#[trigger] list[k]).0
                < x by {
                if k < list.len() - 1 {
                    assert(shorter[k] == list[k]);
                }
            }
        }
    }
}

/// A position that parts a ranked list as the slot does is the slot.
pub proof fn lemma_slot_found(list: Seq<(i64, usize)>, x: i64, p: int)
    requires
        ranked(list),
        0 <= p <= list.len(),
        forall|k: int| 0 <= k < p ==> (#[trigger] list[k]).0 >= x,
        forall|k: int| p <= k < list.len() ==> (#[trigger] list[k]).0 < x,
    ensures
        slot(list, x) == p,
{
    lemma_slot(list, x);
    let q = slot(list, x) as int;
    if q < p {
        assert(list[q].0 >= x);
    } else if p < q {
        assert(list[p].0 >= x);
    }
}

/// Offering one more candidate to the list of the best keeps it the list of
/// the best.
pub proof fn lemma_offer(before: Seq<(i64, usize)>, scores: Seq<i64>, width: nat)
    requires
        0 < scores.len() <= usize::MAX,
        is_top(before, scores.drop_last(), width),
    ensures
        is_top(
            cut(
                before.insert(
                    slot(before, scores.last()) as int,
                    (scores.last(), (scores.len() - 1) as usize),
                ),
                width,
            ),
            scores,
            width,
        ),
{
    let old_scores = scores.drop_last();
    let n = old_scores.len() as int;
    let e = (scores.last(), n as usize);
    lemma_slot(before, e.0);
    let p = slot(before, e.0) as int;
    let grown = before.insert(p, e);
    let list = cut(grown, width);
    assert(grown.len() == before.len() + 1);
    assert forall|k: int| 0 <= k < grown.len() implies #[trigger] grown[k] == (if k < p {
        before[k]
    } else if k == p {
        e
    } else {
        before[k - 1]
    }) by {}
    assert forall|k: int| 0 <= k < grown.len() implies (#[trigger] grown[k]).1 < scores.len()
        && grown[k].0 == scores[grown[k].1 as int] by {
        if k < p {
            assert(before[k].1 < old_scores.len());
            assert(old_scores[before[k].1 as int] == scores[before[k].1 as int]);
        } else if k > p {
            assert(before[k - 1].1 < old_scores.len());
            assert(old_scores[before[k - 1].1 as int] == scores[before[k - 1].1 as int]);
        }
    }
    assert forall|a: int, b: int| 0 <= a < b < grown.len() implies ranks_before(
        #[trigger] grown[a],
        #[trigger] grown[b],
    ) by {
        if b < p {
            assert(ranks_before(before[a], before[b]));
        } else if b == p {
            assert(before[a].0 >= e.0);
            assert(before[a].1 < n);
        } else if a < p {
            assert(ranks_before(before[a], before[b - 1]));
        } else if a == p {
            assert(before[b - 1].0 < e.0);
        } else {
            assert(ranks_before(before[a - 1], before[b - 1]));
        }
    }
    assert forall|k: int| 0 <= k < list.len() implies #[trigger] list[k] == grown[k] by {}
    assert(ranked(list));
    assert forall|i: int| 0 <= i < scores.len() implies #[trigger] holds(list, i) || (list.len()
        == width && all_before(list, (scores[i], i as usize))) by {
        let c = (scores[i], i as usize);
        if i == n {
            assert(grown[p] == e);
            if p < list.len() {
                assert(list[p].1 == i);
            } else {
                assert forall|k: int| 0 <= k < list.len() implies ranks_before(
                    #[trigger] list[k],
                    c,
                ) by {
                    assert(list[k] == before[k]);
                    assert(before[k].0 >= e.0);
                }
            }
        } else {
            assert(old_scores[i] == scores[i]);
            if holds(before, i) {
                let k = choose|k: int| 0 <= k < before.len() && (#[trigger] before[k]).1 == i;
                let k2 = if k < p {
                    k
                } else {
                    k + 1
                };
                assert(grown[k2] == before[k]);
                if k2 < list.len() {
                    assert(list[k2].1 == i);
                } else {
                    assert(before[k].0 == old_scores[before[k].1 as int]);
                    assert forall|t: int| 0 <= t < list.len() implies ranks_before(
                        #[trigger] list[t],
                        c,
                    ) by {
                        assert(ranks_before(grown[t], grown[k2]));
                    }
                }
            } else {
                assert(all_before(before, c));
                assert forall|t: int| 0 <= t < list.len() implies ranks_before(
                    #[trigger] list[t],
                    c,
                ) by {
                    if t < p {
                        assert(ranks_before(before[t], c));
                    } else if t == p {
                        assert(ranks_before(before[width - 1], c));
                        assert(before[width - 1].0 < e.0);
                    } else {
                        assert(ranks_before(before[t - 1], c));
                    }
                }
            }
        }
    }
}

/// The list that results from offering the candidates one by one holds the
/// `width` best of them, best first. Of two candidates with the same score
/// the earlier one ranks first.
pub proof fn lemma_shortlist_is_top(scores: Seq<i64>, width: nat)
    requires
        scores.len() <= usize::MAX,
    ensures
        is_top(shortlist_of(scores, width), scores, width),
    decreases scores.len(),
{
    if scores.len() > 0 {
        lemma_shortlist_is_top(scores.drop_last(), width);
        lemma_offer(shortlist_of(scores.drop_last(), width), scores, width);
    }
}

impl Shortlist {
    /// The entries, best first.
    pub fn items(&self) -> (all: Vec<(i64, usize)>)
        ensures
            all@ == entries(*self),
    {
        let mut all: Vec<(i64, usize)> = Vec::new();
        let n = shortlist_len(self);
        let mut k: usize = 0;
        while k < n
            invariant
                0 <= k <= n,
                n == entries(*self).len(),
                all@ == entries(*self).take(k as int),
            decreases n - k,
        {
            all.push(shortlist_get(self, k));
            assert(all@ =~= entries(*self).take(k + 1));
            k += 1;
        }
        assert(all@ =~= entries(*self));
        all
    }
}

/// The best `width` of the candidates with the given scores, best first.
/// Candidate `i` has the score `scores[i]`; of two candidates with the same
/// score the earlier one ranks first.
pub fn top_n(scores: &Vec<i64>, width: usize) -> (best: Shortlist)
    requires
        width < LIST_LIMIT,
    ensures
        entries(best) == shortlist_of(scores@, width as nat),
        is_top(entries(best), scores@, width as nat),
{
    let mut list = shortlist_new();
    let mut i: usize = 0;
    assert(entries(list) =~= shortlist_of(scores@.take(0), width as nat));
    while i < scores.len()
        invariant
            0 <= i <= scores.len(),
            width < LIST_LIMIT,
            entries(list) == shortlist_of(scores@.take(i as int), width as nat),
        decreases scores.len() - i,
    {
        let x = scores[i];
        let ghost before = entries(list);
        proof {
            lemma_shortlist_is_top(scores@.take(i as int), width as nat);
        }
        let mut lo: usize = 0;
        let mut hi: usize = shortlist_len(&list);
        while lo < hi
            invariant
                0 <= lo <= hi <= before.len(),
                before == entries(list),
                ranked(before),
                forall|k: int| 0 <= k < lo ==> (#[trigger] before[k]).0 >= x,
                forall|k: int| hi <= k < before.len() ==> (#[trigger] before[k]).0 < x,
            decreases hi - lo,
        {
            let mid = lo + (hi - lo) / 2;
            let probe = shortlist_get(&list, mid);
            if probe.0 >= x {
                assert forall|k: int| 0 <= k < mid + 1 implies (#[trigger] before[k]).0 >= x by {
                    if k < mid {
                        assert(ranks_before(before[k], before[mid as int]));
                    }
                }
                lo = mid + 1;
            } else {
                assert forall|k: int| mid <= k < before.len() implies (#[trigger] before[k]).0
                    < x by {
                    if k > mid {
                        assert(ranks_before(before[mid as int], before[k]));
                    }
                }
                hi = mid;
            }
        }
        proof {
            lemma_slot_found(before, x, lo as int);
            let upto = scores@.take(i + 1);
            assert(upto.drop_last() =~= scores@.take(i as int));
            assert(upto.last() == x);
        }
        shortlist_insert(&mut list, lo, (x, i));
        shortlist_truncate(&mut list, width);
        i += 1;
    }
    proof {
        assert(scores@.take(scores.len() as int) =~= scores@);
        lemma_shortlist_is_top(scores@, width as nat);
    }
    list
}

} // verus!
