//! The ranking pipeline: lines are sorted by score and then by their bytes,
//! adjacent duplicates are dropped on request, and the result is reversed on
//! request.

use crate::order::{
    bytes_less, bytes_lt, lemma_bytes_lt_asymmetric, lemma_bytes_lt_connected,
    lemma_bytes_lt_irreflexive, lemma_bytes_lt_transitive,
};
use crate::store::{key_bytes, lemma_key_bytes_injective, score_of, MruRecord};
use vstd::prelude::*;
use vstd::relations::{sorted_by, total_ordering};
use vstd::seq_lib::{lemma_multiset_commutative, lemma_sorted_unique, to_multiset_build};

verus! {

/// Line `a` may stand before line `b`: its score is lower, or the scores are
/// equal and its bytes are not above those of `b`.
pub open spec fn precedes(record: Map<Seq<char>, u64>, a: Seq<char>, b: Seq<char>) -> bool {
    score_of(record, a) < score_of(record, b) || (score_of(record, a) == score_of(record, b)
        && !bytes_lt(key_bytes(b), key_bytes(a)))
}

/// `precedes` as the relation that lines are sorted by.
pub open spec fn rank_order(record: Map<Seq<char>, u64>) -> spec_fn(Seq<char>, Seq<char>) -> bool {
    |a: Seq<char>, b: Seq<char>| precedes(record, a, b)
}

/// The rank order is a total order on lines: any two lines are comparable,
/// and two lines that may each stand before the other are the same line.
pub proof fn lemma_rank_order_total(record: Map<Seq<char>, u64>)
    ensures
        total_ordering(rank_order(record)),
{
    let r = rank_order(record);
    assert forall|x: Seq<char>| #[trigger] r(x, x) by {
        lemma_bytes_lt_irreflexive(key_bytes(x), 0);
    }
    assert forall|x: Seq<char>, y: Seq<char>| #[trigger] r(x, y) && #[trigger] r(y, x) implies x
        == y by {
        lemma_bytes_lt_connected(key_bytes(x), key_bytes(y), 0);
        lemma_key_bytes_injective(x, y);
    }
    assert forall|x: Seq<char>, y: Seq<char>, z: Seq<char>| #[trigger]
        r(x, y) && #[trigger] r(y, z) implies r(x, z) by {
        if score_of(record, x) == score_of(record, z) && bytes_lt(key_bytes(z), key_bytes(x)) {
            if bytes_lt(key_bytes(x), key_bytes(y)) {
                lemma_bytes_lt_transitive(key_bytes(z), key_bytes(x), key_bytes(y), 0);
            } else {
                lemma_bytes_lt_connected(key_bytes(x), key_bytes(y), 0);
            }
        }
    }
    assert forall|x: Seq<char>, y: Seq<char>| #[trigger] r(x, y) || #[trigger] r(y, x) by {
        lemma_bytes_lt_asymmetric(key_bytes(x), key_bytes(y), 0);
    }
}

/// What is left of a sequence when each line that equals the line just
/// before it is dropped.
pub open spec fn dedup_adjacent(lines: Seq<Seq<char>>) -> Seq<Seq<char>>
    decreases lines.len(),
{
    if lines.len() == 0 {
        lines
    } else {
        let front = lines.drop_last();
        if front.len() > 0 && front.last() == lines.last() {
            dedup_adjacent(front)
        } else {
            dedup_adjacent(front).push(lines.last())
        }
    }
}

/// The lines in ascending rank order.
pub open spec fn ascending(record: Map<Seq<char>, u64>, lines: Seq<Seq<char>>) -> Seq<Seq<char>> {
    lines.sort_by(rank_order(record))
}

/// The result of the pipeline: the lines in ascending rank order, without
/// adjacent duplicates if `unique`, back to front if `reverse`.
pub open spec fn ranked(
    record: Map<Seq<char>, u64>,
    lines: Seq<Seq<char>>,
    unique: bool,
    reverse: bool,
) -> Seq<Seq<char>> {
    let sorted = ascending(record, lines);
    let kept = if unique {
        dedup_adjacent(sorted)
    } else {
        sorted
    };
    if reverse {
        kept.reverse()
    } else {
        kept
    }
}

/// The text of each line.
pub open spec fn texts(lines: Seq<String>) -> Seq<Seq<char>> {
    lines.map_values(|line: String| line@)
}

/// The texts of the lines at the given places, in the order of the places.
pub open spec fn picked(lines: Seq<String>, places: Seq<usize>) -> Seq<Seq<char>> {
    places.map_values(|at: usize| lines[at as int]@)
}

/// Every place is the place of a line.
pub open spec fn within(places: Seq<usize>, n: nat) -> bool {
    forall|k: int| 0 <= k < places.len() ==> #[trigger] places[k] < n
}

/// `scores` holds the score of each line, place by place.
pub open spec fn scored(record: Map<Seq<char>, u64>, lines: Seq<String>, scores: Seq<u64>) -> bool {
    scores.len() == lines.len() && forall|i: int|
        0 <= i < lines.len() ==> #[trigger] scores[i] == score_of(record, lines[i]@)
}

/// The places are in ascending rank order of their lines.
pub open spec fn places_ascend(
    record: Map<Seq<char>, u64>,
    lines: Seq<String>,
    places: Seq<usize>,
) -> bool {
    forall|a: int, b: int|
        0 <= a < b < places.len() ==> precedes(
            record,
            lines[#[trigger] places[a] as int]@,
            lines[#[trigger] places[b] as int]@,
        )
}

/// Every line at a place of `front` may stand before every line at a place
/// of `rest` from `from` on.
pub open spec fn all_precede(
    record: Map<Seq<char>, u64>,
    lines: Seq<String>,
    front: Seq<usize>,
    rest: Seq<usize>,
    from: int,
) -> bool {
    forall|k: int, a: int|
        0 <= k < front.len() && from <= a < rest.len() ==> precedes(
            record,
            lines[#[trigger] front[k] as int]@,
            lines[#[trigger] rest[a] as int]@,
        )
}

/// Decides whether the line at place `a` may stand before the line at `b`.
fn comes_first(
    lines: &[String],
    scores: &Vec<u64>,
    a: usize,
    b: usize,
    Ghost(record): Ghost<Map<Seq<char>, u64>>,
) -> (first: bool)
    requires
        scored(record, lines@, scores@),
        a < lines@.len(),
        b < lines@.len(),
    ensures
        first == precedes(record, lines@[a as int]@, lines@[b as int]@),
{
    if scores[a] != scores[b] {
        scores[a] < scores[b]
    } else {
        !bytes_less(lines[b].as_str().as_bytes(), lines[a].as_str().as_bytes())
    }
}

/// Merges two runs of places, each in ascending rank order, into one.
fn merge(
    lines: &[String],
    scores: &Vec<u64>,
    left: &Vec<usize>,
    right: &Vec<usize>,
    Ghost(record): Ghost<Map<Seq<char>, u64>>,
) -> (out: Vec<usize>)
    requires
        scored(record, lines@, scores@),
        within(left@, lines@.len()),
        within(right@, lines@.len()),
        places_ascend(record, lines@, left@),
        places_ascend(record, lines@, right@),
    ensures
        within(out@, lines@.len()),
        places_ascend(record, lines@, out@),
        picked(lines@, out@).to_multiset() == picked(lines@, left@).to_multiset().add(
            picked(lines@, right@).to_multiset(),
        ),
{
    let mut out: Vec<usize> = Vec::new();
    let mut i: usize = 0;
    let mut j: usize = 0;
    proof {
        lemma_rank_order_total(record);
        assert(picked(lines@, left@.take(0)) =~= Seq::<Seq<char>>::empty());
        assert(picked(lines@, right@.take(0)) =~= Seq::<Seq<char>>::empty());
        assert(picked(lines@, out@) =~= Seq::<Seq<char>>::empty());
        lemma_multiset_commutative(Seq::<Seq<char>>::empty(), Seq::<Seq<char>>::empty());
        assert(Seq::<Seq<char>>::empty() + Seq::<Seq<char>>::empty() =~= Seq::<Seq<char>>::empty());
    }
    while i < left.len() || j < right.len()
        invariant
            i <= left@.len(),
            j <= right@.len(),
            scored(record, lines@, scores@),
            within(left@, lines@.len()),
            within(right@, lines@.len()),
            within(out@, lines@.len()),
            places_ascend(record, lines@, left@),
            places_ascend(record, lines@, right@),
            places_ascend(record, lines@, out@),
            all_precede(record, lines@, out@, left@, i as int),
            all_precede(record, lines@, out@, right@, j as int),
            total_ordering(rank_order(record)),
            picked(lines@, out@).to_multiset() == picked(lines@, left@.take(i as int)).to_multiset().add(
                picked(lines@, right@.take(j as int)).to_multiset(),
            ),
        decreases left@.len() - i + right@.len() - j,
    {
        let from_left = if j >= right.len() {
            true
        } else if i >= left.len() {
            false
        } else {
            comes_first(lines, scores, left[i], right[j], Ghost(record))
        };
        let ghost before = out@;
        if from_left {
            let place = left[i];
            out.push(place);
            proof {
                let text = lines@[place as int]@;
                assert(picked(lines@, out@) =~= picked(lines@, before).push(text));
                assert(left@.take(i + 1) =~= left@.take(i as int).push(place));
                assert(picked(lines@, left@.take(i + 1)) =~= picked(
                    lines@,
                    left@.take(i as int),
                ).push(text));
                let l = picked(lines@, left@.take(i as int)).to_multiset();
                let r = picked(lines@, right@.take(j as int)).to_multiset();
                to_multiset_build(picked(lines@, before), text);
                to_multiset_build(picked(lines@, left@.take(i as int)), text);
                assert(l.insert(text).add(r) =~= l.add(r).insert(text));
                assert forall|k: int, a: int|
                    0 <= k < out@.len() && j <= a < right@.len() implies precedes(
                    record,
                    lines@[#[trigger] out@[k] as int]@,
                    lines@[#[trigger] right@[a] as int]@,
                ) by {
                    if k == before.len() {
                        let r = rank_order(record);
                        assert(r(text, lines@[right@[j as int] as int]@));
                        if j < a {
                            assert(r(lines@[right@[j as int] as int]@, lines@[right@[a] as int]@));
                        }
                    }
                }
            }
            i += 1;
        } else {
            let place = right[j];
            out.push(place);
            proof {
                let text = lines@[place as int]@;
                assert(picked(lines@, out@) =~= picked(lines@, before).push(text));
                assert(right@.take(j + 1) =~= right@.take(j as int).push(place));
                assert(picked(lines@, right@.take(j + 1)) =~= picked(
                    lines@,
                    right@.take(j as int),
                ).push(text));
                let l = picked(lines@, left@.take(i as int)).to_multiset();
                let r = picked(lines@, right@.take(j as int)).to_multiset();
                to_multiset_build(picked(lines@, before), text);
                to_multiset_build(picked(lines@, right@.take(j as int)), text);
                assert(l.add(r.insert(text)) =~= l.add(r).insert(text));
                assert forall|k: int, a: int|
                    0 <= k < out@.len() && i <= a < left@.len() implies precedes(
                    record,
                    lines@[#[trigger] out@[k] as int]@,
                    lines@[#[trigger] left@[a] as int]@,
                ) by {
                    if k == before.len() {
                        let r = rank_order(record);
                        assert(r(text, lines@[left@[i as int] as int]@) || r(
                            lines@[left@[i as int] as int]@,
                            text,
                        ));
                        if i < a {
                            assert(r(lines@[left@[i as int] as int]@, lines@[left@[a] as int]@));
                        }
                    }
                }
            }
            j += 1;
        }
    }
    proof {
        assert(left@.take(i as int) =~= left@);
        assert(right@.take(j as int) =~= right@);
    }
    out
}

/// The places from `lo` up to `hi`, in ascending rank order of their lines.
fn sort_places(
    lines: &[String],
    scores: &Vec<u64>,
    lo: usize,
    hi: usize,
    Ghost(record): Ghost<Map<Seq<char>, u64>>,
) -> (out: Vec<usize>)
    requires
        scored(record, lines@, scores@),
        lo <= hi <= lines@.len(),
    ensures
        within(out@, lines@.len()),
        places_ascend(record, lines@, out@),
        picked(lines@, out@).to_multiset() == texts(
            lines@.subrange(lo as int, hi as int),
        ).to_multiset(),
    decreases hi - lo,
{
    if hi - lo <= 1 {
        let mut out: Vec<usize> = Vec::new();
        if lo < hi {
            out.push(lo);
        }
        proof {
            assert(picked(lines@, out@) =~= texts(lines@.subrange(lo as int, hi as int)));
        }
        out
    } else {
        let mid: usize = lo + (hi - lo) / 2;
        let left = sort_places(lines, scores, lo, mid, Ghost(record));
        let right = sort_places(lines, scores, mid, hi, Ghost(record));
        let out = merge(lines, scores, &left, &right, Ghost(record));
        proof {
            let low = texts(lines@.subrange(lo as int, mid as int));
            let high = texts(lines@.subrange(mid as int, hi as int));
            assert(texts(lines@.subrange(lo as int, hi as int)) =~= low + high);
            lemma_multiset_commutative(low, high);
        }
        out
    }
}

/// Places in ascending rank order pick a sequence of lines that is sorted
/// by the rank order.
proof fn lemma_places_ascend_sorted(
    record: Map<Seq<char>, u64>,
    lines: Seq<String>,
    places: Seq<usize>,
)
    requires
        places_ascend(record, lines, places),
    ensures
        sorted_by(picked(lines, places), rank_order(record)),
{
    let chosen = picked(lines, places);
    let r = rank_order(record);
    assert forall|a: int, b: int| 0 <= a < b < chosen.len() implies #[trigger] r(
        chosen[a],
        chosen[b],
    ) by {
        assert(precedes(record, lines[places[a] as int]@, lines[places[b] as int]@));
    }
}

/// A sequence that is sorted by the rank order and holds the same lines as
/// `lines`, each as often, is `lines` in ascending rank order.
pub proof fn lemma_ascending_unique(
    record: Map<Seq<char>, u64>,
    lines: Seq<Seq<char>>,
    sorted: Seq<Seq<char>>,
)
    requires
        sorted_by(sorted, rank_order(record)),
        sorted.to_multiset() == lines.to_multiset(),
    ensures
        sorted == ascending(record, lines),
{
    lemma_rank_order_total(record);
    lines.lemma_sort_by_ensures(rank_order(record));
    lemma_sorted_unique(sorted, ascending(record, lines), rank_order(record));
}

/// Drops each place whose line equals the line of the place just before it.
fn drop_repeats(lines: &[String], places: &Vec<usize>) -> (kept: Vec<usize>)
    requires
        within(places@, lines@.len()),
    ensures
        within(kept@, lines@.len()),
        picked(lines@, kept@) == dedup_adjacent(picked(lines@, places@)),
{
    let mut kept: Vec<usize> = Vec::new();
    let mut k: usize = 0;
    proof {
        assert(picked(lines@, places@.take(0)) =~= Seq::<Seq<char>>::empty());
        assert(picked(lines@, kept@) =~= Seq::<Seq<char>>::empty());
    }
    while k < places.len()
        invariant
            k <= places@.len(),
            within(places@, lines@.len()),
            within(kept@, lines@.len()),
            picked(lines@, kept@) == dedup_adjacent(picked(lines@, places@.take(k as int))),
        decreases places@.len() - k,
    {
        let place = places[k];
        let repeated = k > 0 && lines[places[k - 1]] == lines[place];
        let ghost before = kept@;
        let ghost seen = picked(lines@, places@.take(k as int));
        let ghost next = picked(lines@, places@.take(k + 1));
        proof {
            assert(next.drop_last() =~= seen);
            assert(next.last() == lines@[place as int]@);
            if k > 0 {
                assert(seen.last() == lines@[places@[k - 1] as int]@);
            }
        }
        if !repeated {
            kept.push(place);
            proof {
                assert(picked(lines@, kept@) =~= picked(lines@, before).push(
                    lines@[place as int]@,
                ));
            }
        }
        k += 1;
    }
    proof {
        assert(places@.take(k as int) =~= places@);
    }
    kept
}

/// The lines at the given places, front to back or back to front.
fn emit(lines: &[String], places: &Vec<usize>, reverse: bool) -> (out: Vec<String>)
    requires
        within(places@, lines@.len()),
    ensures
        texts(out@) == (if reverse {
            picked(lines@, places@).reverse()
        } else {
            picked(lines@, places@)
        }),
{
    let n = places.len();
    let mut out: Vec<String> = Vec::new();
    let mut k: usize = 0;
    while k < n
        invariant
            k <= n,
            n == places@.len(),
            within(places@, lines@.len()),
            out@.len() == k,
            forall|t: int|
                0 <= t < k ==> (#[trigger] out@[t])@ == lines@[places@[if reverse {
                    n - 1 - t
                } else {
                    t
                }] as int]@,
        decreases n - k,
    {
        let at = if reverse {
            n - 1 - k
        } else {
            k
        };
        out.push(lines[places[at]].clone());
        k += 1;
    }
    proof {
        if reverse {
            assert(texts(out@) =~= picked(lines@, places@).reverse());
        } else {
            assert(texts(out@) =~= picked(lines@, places@));
        }
    }
    out
}

/// What the pipeline does after sorting.
#[derive(Clone, Copy, Debug)]
pub struct RankOptions {
    /// Drop each line that equals the line sorted just before it.
    pub unique: bool,
    /// Give the lines back to front, the most recently used first.
    pub reverse: bool,
}

impl Default for RankOptions {
    fn default() -> (options: RankOptions)
        ensures
            !options.unique,
            !options.reverse,
    {
        RankOptions { unique: false, reverse: false }
    }
}

/// Orders `lines` by how recently `record` saw each of them used.
///
/// The lines come out in ascending order of score, lines with the same score
/// in ascending order of their bytes; a line that was never used has score
/// 0. With `unique`, a line that equals the one before it is dropped. With
/// `reverse`, the order is then turned round.
pub fn rank(record: &MruRecord, lines: &[String], options: &RankOptions) -> (out: Vec<String>)
    ensures
        texts(out@) == ranked(record@, texts(lines@), options.unique, options.reverse),
{
    let n = lines.len();
    let mut scores: Vec<u64> = Vec::new();
    let mut i: usize = 0;
    while i < n
        invariant
            i <= n,
            n == lines@.len(),
            scores@.len() == i,
            forall|t: int| 0 <= t < i ==> #[trigger] scores@[t] == score_of(record@, lines@[t]@),
        decreases n - i,
    {
        scores.push(record.score(lines[i].as_str()));
        i += 1;
    }
    let sorted = sort_places(lines, &scores, 0, n, Ghost(record@));
    proof {
        assert(lines@.subrange(0, n as int) =~= lines@);
        lemma_places_ascend_sorted(record@, lines@, sorted@);
        lemma_ascending_unique(record@, texts(lines@), picked(lines@, sorted@));
    }
    let kept = if options.unique {
        drop_repeats(lines, &sorted)
    } else {
        sorted
    };
    emit(lines, &kept, options.reverse)
}

/// No line equals the line just before it.
pub open spec fn no_repeats(lines: Seq<Seq<char>>) -> bool {
    forall|i: int| 0 < i < lines.len() ==> lines[i - 1] != #[trigger] lines[i]
}

/// Every line that is left after dropping repeats is one of the lines.
pub proof fn lemma_dedup_members(lines: Seq<Seq<char>>, i: int)
    requires
        0 <= i < dedup_adjacent(lines).len(),
    ensures
        exists|a: int| 0 <= a < lines.len() && #[trigger] lines[a] == dedup_adjacent(lines)[i],
    decreases lines.len(),
{
    let front = lines.drop_last();
    if i < dedup_adjacent(front).len() {
        lemma_dedup_members(front, i);
        let a = choose|a: int|
            0 <= a < front.len() && #[trigger] front[a] == dedup_adjacent(front)[i];
        assert(lines[a] == dedup_adjacent(lines)[i]);
    } else {
        assert(lines[lines.len() - 1] == dedup_adjacent(lines)[i]);
    }
}

/// Dropping repeats from sorted lines leaves them sorted.
pub proof fn lemma_dedup_sorted(record: Map<Seq<char>, u64>, lines: Seq<Seq<char>>)
    requires
        sorted_by(lines, rank_order(record)),
    ensures
        sorted_by(dedup_adjacent(lines), rank_order(record)),
    decreases lines.len(),
{
    if lines.len() > 0 {
        let r = rank_order(record);
        let front = lines.drop_last();
        assert(sorted_by(front, r)) by {
            assert forall|a: int, b: int| 0 <= a < b < front.len() implies #[trigger] r(
                front[a],
                front[b],
            ) by {
                assert(r(lines[a], lines[b]));
            }
        }
        lemma_dedup_sorted(record, front);
        let kept = dedup_adjacent(lines);
        assert forall|a: int, b: int| 0 <= a < b < kept.len() implies #[trigger] r(
            kept[a],
            kept[b],
        ) by {
            if b < dedup_adjacent(front).len() {
                assert(r(dedup_adjacent(front)[a], dedup_adjacent(front)[b]));
            } else {
                lemma_dedup_members(front, a);
                let at = choose|at: int|
                    0 <= at < front.len() && #[trigger] front[at] == dedup_adjacent(front)[a];
                assert(r(lines[at], lines[lines.len() - 1]));
            }
        }
    }
}

/// After dropping repeats no line equals the line before it, and the last
/// line is still the last.
pub proof fn lemma_dedup_no_repeats(lines: Seq<Seq<char>>)
    ensures
        no_repeats(dedup_adjacent(lines)),
        lines.len() > 0 ==> dedup_adjacent(lines).len() > 0 && dedup_adjacent(lines).last()
            == lines.last(),
    decreases lines.len(),
{
    if lines.len() > 0 {
        lemma_dedup_no_repeats(lines.drop_last());
    }
}

/// Lines of which none equals the line before it lose nothing when repeats
/// are dropped.
pub proof fn lemma_dedup_keeps(lines: Seq<Seq<char>>)
    requires
        no_repeats(lines),
    ensures
        dedup_adjacent(lines) == lines,
    decreases lines.len(),
{
    if lines.len() > 0 {
        let front = lines.drop_last();
        assert(no_repeats(front)) by {
            assert forall|i: int| 0 < i < front.len() implies front[i - 1] != #[trigger] front[i] by {
                assert(lines[i - 1] != lines[i]);
            }
        }
        lemma_dedup_keeps(front);
        if front.len() > 0 {
            assert(lines[lines.len() - 1 - 1] != lines[lines.len() - 1]);
        }
        assert(front.push(lines.last()) =~= lines);
    }
}

/// Without `reverse` the result is sorted by the rank order.
pub proof fn lemma_ranked_sorted(record: Map<Seq<char>, u64>, lines: Seq<Seq<char>>, unique: bool)
    ensures
        sorted_by(ranked(record, lines, unique, false), rank_order(record)),
{
    lemma_rank_order_total(record);
    lines.lemma_sort_by_ensures(rank_order(record));
    if unique {
        lemma_dedup_sorted(record, ascending(record, lines));
    }
}

/// Ties in score are broken by the bytes of the lines: of two lines of the
/// result with the same score, the one that comes first is not above the
/// other in byte order.
pub proof fn lemma_ties_in_byte_order(
    record: Map<Seq<char>, u64>,
    lines: Seq<Seq<char>>,
    unique: bool,
)
    ensures
        ({
            let out = ranked(record, lines, unique, false);
            forall|i: int, j: int|
                0 <= i < j < out.len() && score_of(record, out[i]) == score_of(record, out[j])
                    ==> !bytes_lt(key_bytes(#[trigger] out[j]), key_bytes(#[trigger] out[i]))
        }),
{
    lemma_ranked_sorted(record, lines, unique);
    let out = ranked(record, lines, unique, false);
    let r = rank_order(record);
    assert forall|i: int, j: int|
        0 <= i < j < out.len() && score_of(record, out[i]) == score_of(
            record,
            out[j],
        ) implies !bytes_lt(key_bytes(#[trigger] out[j]), key_bytes(#[trigger] out[i])) by {
        assert(r(out[i], out[j]));
    }
}

/// Scores never fall along the result: a line never stands before a line
/// with a lower score.
pub proof fn lemma_scores_ascend(record: Map<Seq<char>, u64>, lines: Seq<Seq<char>>, unique: bool)
    ensures
        ({
            let out = ranked(record, lines, unique, false);
            forall|i: int, j: int|
                0 <= i < j < out.len() ==> score_of(record, #[trigger] out[i]) <= score_of(
                    record,
                    #[trigger] out[j],
                )
        }),
{
    lemma_ranked_sorted(record, lines, unique);
    let out = ranked(record, lines, unique, false);
    let r = rank_order(record);
    assert forall|i: int, j: int| 0 <= i < j < out.len() implies score_of(
        record,
        #[trigger] out[i],
    ) <= score_of(record, #[trigger] out[j]) by {
        assert(r(out[i], out[j]));
    }
}

/// Ranking back to front gives exactly the reverse of ranking front to
/// back.
pub proof fn lemma_reverse_flips(record: Map<Seq<char>, u64>, lines: Seq<Seq<char>>, unique: bool)
    ensures
        ranked(record, lines, unique, true) == ranked(record, lines, unique, false).reverse(),
{
}

/// Without `unique` the result holds the same lines as the input, each as
/// often.
pub proof fn lemma_ranked_permutes(
    record: Map<Seq<char>, u64>,
    lines: Seq<Seq<char>>,
    reverse: bool,
)
    ensures
        ranked(record, lines, false, reverse).to_multiset() == lines.to_multiset(),
{
    lemma_rank_order_total(record);
    lines.lemma_sort_by_ensures(rank_order(record));
    ascending(record, lines).lemma_reverse_to_multiset();
}

/// Ranking what was ranked already, with the same options, changes
/// nothing.
pub proof fn lemma_rank_idempotent(
    record: Map<Seq<char>, u64>,
    lines: Seq<Seq<char>>,
    unique: bool,
    reverse: bool,
)
    ensures
        ranked(record, ranked(record, lines, unique, reverse), unique, reverse) == ranked(
            record,
            lines,
            unique,
            reverse,
        ),
{
    let forward = ranked(record, lines, unique, false);
    let once = ranked(record, lines, unique, reverse);
    lemma_ranked_sorted(record, lines, unique);
    lemma_rank_order_total(record);
    assert(ascending(record, once) == forward) by {
        if reverse {
            forward.lemma_reverse_to_multiset();
        }
        lemma_ascending_unique(record, once, forward);
    }
    if unique {
        lemma_dedup_no_repeats(ascending(record, lines));
        lemma_dedup_keeps(forward);
    }
}

} // verus!
