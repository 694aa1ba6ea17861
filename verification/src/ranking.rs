//! Scores of pages and their ranking: the pages with the highest scores
//! first, at most a hundred of them.

use std::collections::HashMap;
use vstd::prelude::*;

verus! {

/// The number of pages that a search returns at most.
pub const RESULT_LIMIT: usize = 100;

/// Whether the page `a` comes before the page `b` in a ranking. Each is a
/// page id with its score. The higher score comes first, and of two pages
/// with the same score the one with the lower id.
pub open spec fn ranks_before(a: (u64, u64), b: (u64, u64)) -> bool {
    a.1 > b.1 || (a.1 == b.1 && a.0 < b.0)
}

/// Whether a list of pages with their scores has the page `id`.
pub open spec fn lists(entries: Seq<(u64, u64)>, id: u64) -> bool {
    exists|i: int| 0 <= i < entries.len() && (#[trigger] entries[i]).0 == id
}

/// Whether `ranked` is the ranking of the pages of `scores`: the pages in
/// their order, each with its score, and all of them, but for those that come
/// after the hundredth.
pub open spec fn is_ranking(ranked: Seq<(u64, u64)>, scores: Map<u64, u64>) -> bool {
    &&& ranked.len() <= RESULT_LIMIT
    &&& forall|i: int|
        0 <= i < ranked.len() ==> scores.contains_key((#[trigger] ranked[i]).0)
            && scores[ranked[i].0] == ranked[i].1
    &&& forall|i: int, j: int|
        0 <= i < j < ranked.len() ==> ranks_before(#[trigger] ranked[i], #[trigger] ranked[j])
    &&& forall|id: u64|
        #[trigger] scores.contains_key(id) && !lists(ranked, id) ==> ranked.len() == RESULT_LIMIT
            && ranks_before(ranked.last(), (id, scores[id]))
}

/// The sum of two scores, or the highest score where the sum is higher.
pub open spec fn capped_sum(a: u64, b: u64) -> u64 {
    if a + b > u64::MAX {
        u64::MAX
    } else {
        (a + b) as u64
    }
}

/// The score that `scores` has for a page: zero where it has none.
pub open spec fn score_of(scores: Map<u64, u64>, id: u64) -> u64 {
    if scores.contains_key(id) {
        scores[id]
    } else {
        0
    }
}

/// The scores of pages, each page once.
pub struct Scores {
    entries: Vec<(u64, u64)>,
    places: HashMap<u64, usize>,
}

/// The scores that a list of entries stands for.
pub closed spec fn scores_of(entries: Seq<(u64, u64)>) -> Map<u64, u64> {
    Map::new(|id: u64| lists(entries, id), |id: u64| entries[place_of(entries, id)].1)
}

/// The place of a page in a list of entries.
pub closed spec fn place_of(entries: Seq<(u64, u64)>, id: u64) -> int {
    choose|i: int| 0 <= i < entries.len() && (#[trigger] entries[i]).0 == id
}

/// Whether no page occurs twice in a list of entries.
pub closed spec fn distinct_pages(entries: Seq<(u64, u64)>) -> bool {
    forall|i: int, j: int|
        0 <= i < j < entries.len() ==> (#[trigger] entries[i]).0 != (#[trigger] entries[j]).0
}

/// In a list without repeated pages, the scores are those of the entries.
proof fn scores_of_entry(entries: Seq<(u64, u64)>, i: int)
    requires
        distinct_pages(entries),
        0 <= i < entries.len(),
    ensures
        scores_of(entries).contains_key(entries[i].0),
        scores_of(entries)[entries[i].0] == entries[i].1,
        place_of(entries, entries[i].0) == i,
{
    let id = entries[i].0;
    assert(lists(entries, id));
    let p = place_of(entries, id);
    if p < i {
        assert(entries[p].0 != entries[i].0);
    }
    if i < p {
        assert(entries[i].0 != entries[p].0);
    }
}

impl View for Scores {
    type V = Map<u64, u64>;

    closed spec fn view(&self) -> Map<u64, u64> {
        scores_of(self.entries@)
    }
}

impl Scores {
    #[verifier::type_invariant]
    spec fn wf(&self) -> bool {
        &&& distinct_pages(self.entries@)
        &&& forall|i: int|
            0 <= i < self.entries@.len() ==> self.places@.contains_key(
                (#[trigger] self.entries@[i]).0,
            ) && self.places@[self.entries@[i].0] == i
        &&& forall|id: u64| #[trigger]
            self.places@.contains_key(id) ==> self.places@[id] < self.entries@.len()
                && self.entries@[self.places@[id] as int].0 == id
    }

    /// No scores.
    pub fn new() -> (scores: Scores)
        ensures
            scores@ == Map::<u64, u64>::empty(),
    {
        let scores = Scores { entries: Vec::new(), places: HashMap::new() };
        assert(scores@ == Map::<u64, u64>::empty());
        scores
    }

    /// Adds `count` to the score of the page `id`, which has the score zero
    /// where it has none yet. A score does not go beyond the highest number
    /// that it can hold.
    pub fn add(self, id: u64, count: u64) -> (scores: Scores)
        ensures
            scores@ == self@.insert(id, capped_sum(score_of(self@, id), count)),
    {
        broadcast use vstd::std_specs::hash::group_hash_axioms;

        proof {
            use_type_invariant(&self);
        }
        let Scores { mut entries, mut places } = self;
        let ghost before = entries@;
        let found = match places.get(&id) {
            Some(place) => Some(*place),
            None => None,
        };
        match found {
            Some(place) => {
                proof {
                    scores_of_entry(before, place as int);
                }
                let sum = entries[place].1.saturating_add(count);
                entries[place].1 = sum;
                proof {
                    let after = entries@;
                    assert(after == before.update(place as int, (id, sum)));
                    assert forall|i: int, j: int| 0 <= i < j < after.len() implies (
                    #[trigger] after[i]).0 != (#[trigger] after[j]).0 by {
                        assert(after[i].0 == before[i].0 && after[j].0 == before[j].0);
                    }
                    assert forall|i: int| 0 <= i < after.len() implies places@.contains_key(
                        (#[trigger] after[i]).0,
                    ) && places@[after[i].0] == i by {
                        assert(after[i].0 == before[i].0);
                    }
                    assert forall|other: u64|
                        lists(after, other) <==> lists(before, other) by {
                        if lists(before, other) {
                            let i = choose|i: int|
                                0 <= i < before.len() && (#[trigger] before[i]).0 == other;
                            assert(after[i].0 == other);
                        }
                        if lists(after, other) {
                            let i = choose|i: int|
                                0 <= i < after.len() && (#[trigger] after[i]).0 == other;
                            assert(before[i].0 == other);
                        }
                    }
                    assert forall|other: u64| lists(after, other) implies #[trigger] scores_of(
                        after,
                    )[other] == scores_of(before).insert(id, sum)[other] by {
                        let i = choose|i: int|
                            0 <= i < after.len() && (#[trigger] after[i]).0 == other;
                        scores_of_entry(after, i);
                        scores_of_entry(before, i);
                    }
                    assert(scores_of(after) == scores_of(before).insert(id, sum));
                }
            },
            None => {
                let place = entries.len();
                proof {
                    if lists(before, id) {
                        let i = choose|i: int|
                            0 <= i < before.len() && (#[trigger] before[i]).0 == id;
                        assert(places@.contains_key(before[i].0));
                    }
                }
                entries.push((id, count));
                places.insert(id, place);
                proof {
                    let after = entries@;
                    assert(after == before.push((id, count)));
                    assert forall|i: int, j: int| 0 <= i < j < after.len() implies (
                    #[trigger] after[i]).0 != (#[trigger] after[j]).0 by {
                        if j < before.len() {
                            assert(after[i] == before[i] && after[j] == before[j]);
                        } else {
                            assert(after[i] == before[i]);
                            assert(lists(before, before[i].0));
                        }
                    }
                    assert forall|i: int| 0 <= i < after.len() implies places@.contains_key(
                        (#[trigger] after[i]).0,
                    ) && places@[after[i].0] == i by {
                        if i < before.len() {
                            assert(after[i] == before[i]);
                            assert(lists(before, before[i].0));
                        }
                    }
                    assert forall|other: u64|
                        lists(after, other) <==> (lists(before, other) || other == id) by {
                        if lists(before, other) {
                            let i = choose|i: int|
                                0 <= i < before.len() && (#[trigger] before[i]).0 == other;
                            assert(after[i].0 == other);
                        }
                        if other == id {
                            assert(after[before.len() as int].0 == other);
                        }
                        if lists(after, other) {
                            let i = choose|i: int|
                                0 <= i < after.len() && (#[trigger] after[i]).0 == other;
                            if i < before.len() {
                                assert(before[i].0 == other);
                            }
                        }
                    }
                    assert forall|other: u64| lists(after, other) implies #[trigger] scores_of(
                        after,
                    )[other] == scores_of(before).insert(id, count)[other] by {
                        let i = choose|i: int|
                            0 <= i < after.len() && (#[trigger] after[i]).0 == other;
                        scores_of_entry(after, i);
                        if i < before.len() {
                            assert(before[i] == after[i]);
                            scores_of_entry(before, i);
                        }
                    }
                    assert(scores_of(after) == scores_of(before).insert(id, count));
                }
            },
        }
        Scores { entries, places }
    }
}

fn comes_before(a: (u64, u64), b: (u64, u64)) -> (before: bool)
    ensures
        before == ranks_before(a, b),
{
    a.1 > b.1 || (a.1 == b.1 && a.0 < b.0)
}

/// Exchanging two entries of a list leaves the pages that it has and their
/// scores as they are.
proof fn scores_of_exchanged(before: Seq<(u64, u64)>, a: int, b: int)
    requires
        distinct_pages(before),
        0 <= a < before.len(),
        0 <= b < before.len(),
    ensures
        distinct_pages(before.update(a, before[b]).update(b, before[a])),
        scores_of(before.update(a, before[b]).update(b, before[a])) == scores_of(before),
{
    let after = before.update(a, before[b]).update(b, before[a]);
    let moved = |i: int|
        if i == a {
            b
        } else if i == b {
            a
        } else {
            i
        };
    assert forall|i: int| 0 <= i < after.len() implies #[trigger] after[i] == before[moved(i)] by {}
    assert forall|i: int, j: int| 0 <= i < j < after.len() implies (#[trigger] after[i]).0 != (
    #[trigger] after[j]).0 by {
        let x = moved(i);
        let y = moved(j);
        if x < y {
            assert(before[x].0 != before[y].0);
        } else {
            assert(before[y].0 != before[x].0);
        }
    }
    assert forall|id: u64| lists(after, id) <==> lists(before, id) by {
        if lists(before, id) {
            let i = choose|i: int| 0 <= i < before.len() && (#[trigger] before[i]).0 == id;
            assert(after[moved(i)].0 == id);
        }
        if lists(after, id) {
            let i = choose|i: int| 0 <= i < after.len() && (#[trigger] after[i]).0 == id;
            assert(before[moved(i)].0 == id);
        }
    }
    assert forall|id: u64| lists(after, id) implies #[trigger] scores_of(after)[id] == scores_of(
        before,
    )[id] by {
        let i = choose|i: int| 0 <= i < after.len() && (#[trigger] after[i]).0 == id;
        scores_of_entry(after, i);
        scores_of_entry(before, moved(i));
    }
    assert(scores_of(after) == scores_of(before));
}

impl Scores {
    /// The ranking of the pages: those with the highest scores first, of
    /// pages with the same score the one with the lower id first, and no
    /// more than `RESULT_LIMIT` of them.
    pub fn ranked(self) -> (ranked: Vec<(u64, u64)>)
        ensures
            is_ranking(ranked@, self@),
    {
        proof {
            use_type_invariant(&self);
        }
        let Scores { mut entries, places: _ } = self;
        let ghost scores = scores_of(entries@);
        let count = entries.len();
        let wanted = if count < RESULT_LIMIT {
            count
        } else {
            RESULT_LIMIT
        };
        let mut k: usize = 0;
        while k < wanted
            invariant
                k <= wanted <= count,
                wanted <= RESULT_LIMIT,
                count < RESULT_LIMIT ==> wanted == count,
                entries.len() == count,
                distinct_pages(entries@),
                scores_of(entries@) == scores,
                forall|i: int, j: int|
                    0 <= i < j < k ==> ranks_before(#[trigger] entries@[i], #[trigger] entries@[j]),
                forall|i: int, j: int|
                    0 <= i < k <= j < count ==> ranks_before(
                        #[trigger] entries@[i],
                        #[trigger] entries@[j],
                    ),
            decreases wanted - k,
        {
            // Find the entry that comes first among those from `k` on.
            let mut best: usize = k;
            let mut i: usize = k + 1;
            while i < count
                invariant
                    k <= best < i <= count,
                    entries.len() == count,
                    distinct_pages(entries@),
                    forall|j: int|
                        k <= j < i && j != best ==> ranks_before(
                            entries@[best as int],
                            #[trigger] entries@[j],
                        ),
                decreases count - i,
            {
                assert(entries@[best as int].0 != entries@[i as int].0);
                if comes_before(entries[i], entries[best]) {
                    best = i;
                }
                i += 1;
            }
            proof {
                scores_of_exchanged(entries@, k as int, best as int);
            }
            let ghost before = entries@;
            let first = entries[best];
            let other = entries[k];
            entries[k] = first;
            entries[best] = other;
            assert(entries@ == before.update(k as int, before[best as int]).update(
                best as int,
                before[k as int],
            ));
            k += 1;
        }
        let ghost all = entries@;
        entries.truncate(wanted);
        proof {
            let ranked = entries@;
            assert(ranked == all.take(wanted as int));
            assert forall|i: int| 0 <= i < ranked.len() implies scores.contains_key(
                (#[trigger] ranked[i]).0,
            ) && scores[ranked[i].0] == ranked[i].1 by {
                scores_of_entry(all, i);
            }
            assert forall|id: u64| #[trigger]
                scores.contains_key(id) && !lists(ranked, id) implies ranked.len() == RESULT_LIMIT
                && ranks_before(ranked.last(), (id, scores[id])) by {
                assert(lists(all, id));
                let p = choose|p: int| 0 <= p < all.len() && (#[trigger] all[p]).0 == id;
                if p < wanted {
                    assert(ranked[p].0 == id);
                }
                scores_of_entry(all, p);
                assert(ranks_before(all[wanted - 1], all[p]));
            }
        }
        entries
    }
}

/// Two rankings of the same scores agree in their first `n` places.
proof fn rankings_agree(a: Seq<(u64, u64)>, b: Seq<(u64, u64)>, scores: Map<u64, u64>, n: int)
    requires
        is_ranking(a, scores),
        is_ranking(b, scores),
        0 <= n <= a.len(),
        n <= b.len(),
    ensures
        forall|i: int| 0 <= i < n ==> a[i] == b[i],
    decreases n,
{
    if n > 0 {
        rankings_agree(a, b, scores, n - 1);
        let i = n - 1;
        let x = a[i];
        let y = b[i];
        if x != y {
            assert(scores[x.0] == x.1 && scores[y.0] == y.1);
            if ranks_before(x, y) {
                comes_later(b, a, scores, i);
            } else {
                comes_later(a, b, scores, i);
            }
        }
    }
}

/// Where two rankings of the same scores agree before the place `i`, the
/// page that one has there does not come before the page that the other one
/// has there.
proof fn comes_later(a: Seq<(u64, u64)>, b: Seq<(u64, u64)>, scores: Map<u64, u64>, i: int)
    requires
        is_ranking(a, scores),
        is_ranking(b, scores),
        0 <= i < a.len(),
        i < b.len(),
        forall|j: int| 0 <= j < i ==> a[j] == b[j],
    ensures
        !ranks_before(b[i], a[i]),
{
    let x = b[i];
    let y = a[i];
    if ranks_before(x, y) {
        assert(scores.contains_key(x.0) && scores[x.0] == x.1);
        if lists(a, x.0) {
            let q = choose|q: int| 0 <= q < a.len() && (#[trigger] a[q]).0 == x.0;
            assert(a[q] == x);
            if q < i {
                assert(b[q] == x);
                assert(ranks_before(b[q], b[i]));
            } else if q > i {
                assert(ranks_before(a[i], a[q]));
            }
        } else {
            assert(ranks_before(a.last(), (x.0, scores[x.0])));
            if i < a.len() - 1 {
                assert(ranks_before(a[i], a[a.len() - 1]));
            }
        }
    }
}

/// There is one ranking: two rankings of the same scores are the same.
pub proof fn ranking_is_unique(a: Seq<(u64, u64)>, b: Seq<(u64, u64)>, scores: Map<u64, u64>)
    requires
        is_ranking(a, scores),
        is_ranking(b, scores),
    ensures
        a == b,
{
    if a.len() <= b.len() {
        rankings_agree(a, b, scores, a.len() as int);
        as_long(a, b, scores);
    } else {
        rankings_agree(a, b, scores, b.len() as int);
        as_long(b, a, scores);
    }
    assert(a =~= b);
}

/// A ranking that begins with the whole of another ranking of the same
/// scores is no longer than that one.
proof fn as_long(a: Seq<(u64, u64)>, b: Seq<(u64, u64)>, scores: Map<u64, u64>)
    requires
        is_ranking(a, scores),
        is_ranking(b, scores),
        a.len() <= b.len(),
        forall|i: int| 0 <= i < a.len() ==> a[i] == b[i],
    ensures
        a.len() == b.len(),
{
    if a.len() < b.len() {
        let i = a.len() as int;
        let y = b[i];
        assert(scores.contains_key(y.0));
        if lists(a, y.0) {
            let q = choose|q: int| 0 <= q < a.len() && (#[trigger] a[q]).0 == y.0;
            assert(b[q] == a[q]);
            assert(ranks_before(b[q], b[i]));
        }
    }
}

} // verus!
