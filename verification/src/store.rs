//! The record of one realm: which values were used, and when each was used
//! last.

use crate::codec::{json_mapping, parse_pairs, render_pairs};
use crate::error::MruError;
use crate::order::{
    bytes_less, bytes_lt, lemma_bytes_lt_connected, lemma_bytes_lt_irreflexive,
    lemma_bytes_lt_transitive,
};
use vstd::prelude::*;
use vstd::utf8::{encode_utf8, encode_utf8_decode_utf8};

verus! {

/// The bytes by which a value is ordered and found: its UTF-8 encoding.
pub open spec fn key_bytes(value: Seq<char>) -> Seq<u8> {
    encode_utf8(value)
}

/// Values with the same bytes are the same value.
pub proof fn lemma_key_bytes_injective(a: Seq<char>, b: Seq<char>)
    requires
        key_bytes(a) == key_bytes(b),
    ensures
        a == b,
{
    encode_utf8_decode_utf8(a);
    encode_utf8_decode_utf8(b);
}

/// The mapping that a sequence of (value, timestamp) pairs stands for: each
/// pair is written in turn, so a later pair overrides an earlier one.
pub open spec fn pairs_map(pairs: Seq<(String, u64)>) -> Map<Seq<char>, u64>
    decreases pairs.len(),
{
    if pairs.len() == 0 {
        Map::empty()
    } else {
        pairs_map(pairs.drop_last()).insert(pairs.last().0@, pairs.last().1)
    }
}

/// No value occurs in two pairs.
pub open spec fn distinct_values(pairs: Seq<(String, u64)>) -> bool {
    forall|i: int, j: int| 0 <= i < j < pairs.len() ==> pairs[i].0@ != pairs[j].0@
}

/// The pairs stand in strictly ascending byte order of their values.
pub open spec fn strictly_ascending(pairs: Seq<(String, u64)>) -> bool {
    forall|i: int, j: int|
        0 <= i < j < pairs.len() ==> bytes_lt(
            key_bytes(#[trigger] pairs[i].0@),
            key_bytes(#[trigger] pairs[j].0@),
        )
}

/// Pairs in strictly ascending order hold no value twice.
pub proof fn lemma_ascending_distinct(pairs: Seq<(String, u64)>)
    requires
        strictly_ascending(pairs),
    ensures
        distinct_values(pairs),
{
    assert forall|i: int, j: int| 0 <= i < j < pairs.len() implies pairs[i].0@ != pairs[j].0@ by {
        lemma_bytes_lt_irreflexive(key_bytes(pairs[i].0@), 0);
    }
}

/// Where no value occurs twice, none does when the last pair is left out.
pub proof fn lemma_distinct_front(pairs: Seq<(String, u64)>)
    requires
        distinct_values(pairs),
        pairs.len() > 0,
    ensures
        distinct_values(pairs.drop_last()),
{
    let front = pairs.drop_last();
    assert forall|a: int, b: int| 0 <= a < b < front.len() implies front[a].0@ != front[b].0@ by {
        assert(front[a] == pairs[a] && front[b] == pairs[b]);
    }
}

/// A value is in the mapping exactly when some pair holds it.
pub proof fn lemma_pairs_map_contains(pairs: Seq<(String, u64)>, value: Seq<char>)
    ensures
        pairs_map(pairs).contains_key(value) <==> exists|i: int|
            0 <= i < pairs.len() && #[trigger] pairs[i].0@ == value,
    decreases pairs.len(),
{
    if pairs.len() > 0 {
        let front = pairs.drop_last();
        lemma_pairs_map_contains(front, value);
        if pairs_map(pairs).contains_key(value) {
            if pairs.last().0@ == value {
                assert(pairs[pairs.len() - 1].0@ == value);
            } else {
                let i = choose|i: int| 0 <= i < front.len() && #[trigger] front[i].0@ == value;
                assert(pairs[i].0@ == value);
            }
        }
        if exists|i: int| 0 <= i < pairs.len() && #[trigger] pairs[i].0@ == value {
            let i = choose|i: int| 0 <= i < pairs.len() && #[trigger] pairs[i].0@ == value;
            if i < pairs.len() - 1 {
                assert(front[i].0@ == value);
            }
        }
    }
}

/// Where no value occurs twice, the mapping gives each pair's value the
/// timestamp of that pair.
pub proof fn lemma_pairs_map_value(pairs: Seq<(String, u64)>, i: int)
    requires
        distinct_values(pairs),
        0 <= i < pairs.len(),
    ensures
        pairs_map(pairs).contains_key(pairs[i].0@),
        pairs_map(pairs)[pairs[i].0@] == pairs[i].1,
    decreases pairs.len(),
{
    if i < pairs.len() - 1 {
        let front = pairs.drop_last();
        assert(front[i] == pairs[i]);
        lemma_distinct_front(pairs);
        lemma_pairs_map_value(front, i);
    }
}

/// Where no value occurs twice, the mapping holds as many values as there
/// are pairs.
pub proof fn lemma_pairs_map_size(pairs: Seq<(String, u64)>)
    requires
        distinct_values(pairs),
    ensures
        pairs_map(pairs).dom().finite(),
        pairs_map(pairs).dom().len() == pairs.len(),
    decreases pairs.len(),
{
    if pairs.len() > 0 {
        let front = pairs.drop_last();
        lemma_distinct_front(pairs);
        lemma_pairs_map_size(front);
        lemma_pairs_map_contains(front, pairs.last().0@);
        assert(!pairs_map(front).contains_key(pairs.last().0@)) by {
            if pairs_map(front).contains_key(pairs.last().0@) {
                let i = choose|i: int|
                    0 <= i < front.len() && #[trigger] front[i].0@ == pairs.last().0@;
                assert(front[i] == pairs[i]);
            }
        }
    }
}

/// The score by which a value is ranked: the time of its last use, or 0 where
/// the mapping does not hold it.
pub open spec fn score_of(record: Map<Seq<char>, u64>, value: Seq<char>) -> u64 {
    if record.contains_key(value) {
        record[value]
    } else {
        0
    }
}

/// Sequences that hold the same values and timestamps, place by place,
/// stand for the same mapping.
pub proof fn lemma_pairs_map_same(a: Seq<(String, u64)>, b: Seq<(String, u64)>)
    requires
        a.len() == b.len(),
        forall|t: int| 0 <= t < a.len() ==> (#[trigger] a[t]).0@ == b[t].0@ && a[t].1 == b[t].1,
    ensures
        pairs_map(a) == pairs_map(b),
    decreases a.len(),
{
    if a.len() > 0 {
        assert(a.last().0@ == b.last().0@ && a.last().1 == b.last().1);
        assert forall|t: int| 0 <= t < a.drop_last().len() implies (#[trigger] a.drop_last()[t]).0@
            == b.drop_last()[t].0@ && a.drop_last()[t].1 == b.drop_last()[t].1 by {
            assert(a[t].0@ == b[t].0@ && a[t].1 == b[t].1);
        }
        lemma_pairs_map_same(a.drop_last(), b.drop_last());
    }
}

/// The last write wins: of two uses of one value only the later is
/// remembered, as if the earlier had never been recorded.
pub proof fn lemma_last_use_wins(
    record: Map<Seq<char>, u64>,
    value: Seq<char>,
    earlier: u64,
    later: u64,
)
    ensures
        record.insert(value, earlier).insert(value, later)[value] == later,
        record.insert(value, earlier).insert(value, later) == record.insert(value, later),
{
    assert(record.insert(value, earlier).insert(value, later) =~= record.insert(value, later));
}

/// Recording a use changes nothing about any other value.
pub proof fn lemma_use_leaves_others(
    record: Map<Seq<char>, u64>,
    value: Seq<char>,
    now: u64,
    other: Seq<char>,
)
    requires
        other != value,
    ensures
        score_of(record.insert(value, now), other) == score_of(record, other),
        score_of(record.insert(value, now), value) == now,
{
}

/// Putting a pair with a new value anywhere into the sequence writes that
/// value into the mapping and leaves the rest as it was.
pub proof fn lemma_pairs_map_insert(pairs: Seq<(String, u64)>, at: int, pair: (String, u64))
    requires
        distinct_values(pairs),
        0 <= at <= pairs.len(),
        forall|i: int| 0 <= i < pairs.len() ==> #[trigger] pairs[i].0@ != pair.0@,
    ensures
        distinct_values(pairs.insert(at, pair)),
        pairs_map(pairs.insert(at, pair)) == pairs_map(pairs).insert(pair.0@, pair.1),
{
    let grown = pairs.insert(at, pair);
    let before = pairs_map(pairs);
    let after = pairs_map(grown);
    assert(distinct_values(grown));
    lemma_pairs_map_value(grown, at);
    assert forall|value: Seq<char>| value != pair.0@ && before.contains_key(value) implies (
    #[trigger] after.contains_key(value) && after[value] == before[value]) by {
        lemma_pairs_map_contains(pairs, value);
        let i = choose|i: int| 0 <= i < pairs.len() && #[trigger] pairs[i].0@ == value;
        let k = if i < at { i } else { i + 1 };
        assert(grown[k] == pairs[i]);
        lemma_pairs_map_value(pairs, i);
        lemma_pairs_map_value(grown, k);
    }
    assert forall|value: Seq<char>| value != pair.0@ && #[trigger] after.contains_key(
        value,
    ) implies before.contains_key(value) by {
        lemma_pairs_map_contains(grown, value);
        let k = choose|k: int| 0 <= k < grown.len() && #[trigger] grown[k].0@ == value;
        let i = if k < at { k } else { k - 1 };
        assert(grown[k] == pairs[i]);
        lemma_pairs_map_contains(pairs, value);
    }
    assert(after =~= before.insert(pair.0@, pair.1));
}

/// Replacing a pair by one with the same value writes the new timestamp into
/// the mapping and leaves the rest as it was.
pub proof fn lemma_pairs_map_replace(pairs: Seq<(String, u64)>, at: int, pair: (String, u64))
    requires
        distinct_values(pairs),
        0 <= at < pairs.len(),
        pairs[at].0@ == pair.0@,
    ensures
        distinct_values(pairs.update(at, pair)),
        pairs_map(pairs.update(at, pair)) == pairs_map(pairs).insert(pair.0@, pair.1),
{
    let changed = pairs.update(at, pair);
    let before = pairs_map(pairs);
    let after = pairs_map(changed);
    assert(distinct_values(changed));
    lemma_pairs_map_value(changed, at);
    assert forall|value: Seq<char>| value != pair.0@ && before.contains_key(value) implies (
    #[trigger] after.contains_key(value) && after[value] == before[value]) by {
        lemma_pairs_map_contains(pairs, value);
        let i = choose|i: int| 0 <= i < pairs.len() && #[trigger] pairs[i].0@ == value;
        assert(changed[i] == pairs[i]);
        lemma_pairs_map_value(pairs, i);
        lemma_pairs_map_value(changed, i);
    }
    assert forall|value: Seq<char>| value != pair.0@ && #[trigger] after.contains_key(
        value,
    ) implies before.contains_key(value) by {
        lemma_pairs_map_contains(changed, value);
        let k = choose|k: int| 0 <= k < changed.len() && #[trigger] changed[k].0@ == value;
        assert(changed[k] == pairs[k]);
        lemma_pairs_map_contains(pairs, value);
    }
    assert(after =~= before.insert(pair.0@, pair.1));
}

/// What one realm remembers: for each value that was ever used, the time of
/// its last use in seconds since the Unix epoch.
///
/// The pairs are kept in strictly ascending byte order of their values, so a
/// value is found by bisection and no value is held twice.
#[derive(Debug)]
pub struct MruRecord {
    entries: Vec<(String, u64)>,
}

impl View for MruRecord {
    type V = Map<Seq<char>, u64>;

    closed spec fn view(&self) -> Map<Seq<char>, u64> {
        pairs_map(self.entries@)
    }
}

impl MruRecord {
    #[verifier::type_invariant]
    spec fn ordered(self) -> bool {
        strictly_ascending(self.entries@)
    }

    /// The record of a realm in which nothing was used yet.
    pub fn new() -> (record: MruRecord)
        ensures
            record@ == Map::<Seq<char>, u64>::empty(),
    {
        MruRecord { entries: Vec::new() }
    }

    /// The place of the first pair whose value is not below `value`.
    fn lower_bound(&self, value: &str) -> (at: usize)
        ensures
            at <= self.entries@.len(),
            forall|i: int|
                0 <= i < at ==> bytes_lt(
                    key_bytes(#[trigger] self.entries@[i].0@),
                    key_bytes(value@),
                ),
            forall|i: int|
                at <= i < self.entries@.len() ==> !bytes_lt(
                    key_bytes(#[trigger] self.entries@[i].0@),
                    key_bytes(value@),
                ),
    {
        proof {
            use_type_invariant(self);
        }
        let wanted = value.as_bytes();
        let mut lo: usize = 0;
        let mut hi: usize = self.entries.len();
        while lo < hi
            invariant
                lo <= hi <= self.entries@.len(),
                strictly_ascending(self.entries@),
                wanted@ == key_bytes(value@),
                forall|i: int|
                    0 <= i < lo ==> bytes_lt(key_bytes(#[trigger] self.entries@[i].0@), wanted@),
                forall|i: int|
                    hi <= i < self.entries@.len() ==> !bytes_lt(
                        key_bytes(#[trigger] self.entries@[i].0@),
                        wanted@,
                    ),
            decreases hi - lo,
        {
            let mid: usize = lo + (hi - lo) / 2;
            let here = self.entries[mid].0.as_str().as_bytes();
            if bytes_less(here, wanted) {
                proof {
                    assert forall|i: int| 0 <= i < mid + 1 implies bytes_lt(
                        key_bytes(#[trigger] self.entries@[i].0@),
                        wanted@,
                    ) by {
                        if i < mid {
                            lemma_bytes_lt_transitive(
                                key_bytes(self.entries@[i].0@),
                                here@,
                                wanted@,
                                0,
                            );
                        }
                    }
                }
                lo = mid + 1;
            } else {
                proof {
                    assert forall|i: int| mid <= i < self.entries@.len() implies !bytes_lt(
                        key_bytes(#[trigger] self.entries@[i].0@),
                        wanted@,
                    ) by {
                        if mid < i && bytes_lt(key_bytes(self.entries@[i].0@), wanted@) {
                            lemma_bytes_lt_transitive(
                                here@,
                                key_bytes(self.entries@[i].0@),
                                wanted@,
                                0,
                            );
                        }
                    }
                }
                hi = mid;
            }
        }
        lo
    }

    /// Where `value` stands, or where it would have to be put.
    fn locate(&self, value: &str) -> (found: (usize, bool))
        ensures
            found.0 <= self.entries@.len(),
            found.1 ==> found.0 < self.entries@.len() && self.entries@[found.0 as int].0@
                == value@,
            !found.1 ==> forall|i: int|
                0 <= i < found.0 ==> bytes_lt(
                    key_bytes(#[trigger] self.entries@[i].0@),
                    key_bytes(value@),
                ),
            !found.1 ==> forall|i: int|
                found.0 <= i < self.entries@.len() ==> bytes_lt(
                    key_bytes(value@),
                    key_bytes(#[trigger] self.entries@[i].0@),
                ),
    {
        proof {
            use_type_invariant(self);
        }
        let at = self.lower_bound(value);
        if at < self.entries.len() {
            let here = self.entries[at].0.as_str().as_bytes();
            let above = bytes_less(value.as_bytes(), here);
            proof {
                if above {
                    assert forall|i: int| at <= i < self.entries@.len() implies bytes_lt(
                        key_bytes(value@),
                        key_bytes(#[trigger] self.entries@[i].0@),
                    ) by {
                        if at < i {
                            lemma_bytes_lt_transitive(
                                key_bytes(value@),
                                here@,
                                key_bytes(self.entries@[i].0@),
                                0,
                            );
                        }
                    }
                } else {
                    lemma_bytes_lt_connected(key_bytes(value@), here@, 0);
                    lemma_key_bytes_injective(value@, self.entries@[at as int].0@);
                }
            }
            (at, !above)
        } else {
            (at, false)
        }
    }

    /// When `value` was last used, if it ever was.
    pub fn get(&self, value: &str) -> (stamp: Option<u64>)
        ensures
            stamp == (if self@.contains_key(value@) {
                Some(self@[value@])
            } else {
                None
            }),
    {
        proof {
            use_type_invariant(self);
            lemma_ascending_distinct(self.entries@);
            lemma_pairs_map_contains(self.entries@, value@);
        }
        let (at, found) = self.locate(value);
        if found {
            proof {
                lemma_pairs_map_value(self.entries@, at as int);
            }
            Some(self.entries[at].1)
        } else {
            proof {
                assert forall|i: int| 0 <= i < self.entries@.len() implies #[trigger] self.entries@[i].0@
                    != value@ by {
                    lemma_bytes_lt_irreflexive(key_bytes(value@), 0);
                }
            }
            None
        }
    }

    /// The score by which `value` is ranked: the time of its last use, or 0
    /// where it was never used.
    pub fn score(&self, value: &str) -> (score: u64)
        ensures
            score == score_of(self@, value@),
    {
        match self.get(value) {
            Some(stamp) => stamp,
            None => 0,
        }
    }

    /// The number of values that were ever used.
    pub fn len(&self) -> (n: usize)
        ensures
            n == self@.dom().len(),
            self@.dom().finite(),
    {
        proof {
            use_type_invariant(self);
            lemma_ascending_distinct(self.entries@);
            lemma_pairs_map_size(self.entries@);
        }
        self.entries.len()
    }

    /// Whether nothing was used yet.
    pub fn is_empty(&self) -> (empty: bool)
        ensures
            empty == (self@ == Map::<Seq<char>, u64>::empty()),
    {
        proof {
            use_type_invariant(self);
            lemma_ascending_distinct(self.entries@);
            lemma_pairs_map_size(self.entries@);
            if self.entries@.len() == 0 {
                assert(self@ =~= Map::<Seq<char>, u64>::empty());
            }
        }
        self.entries.len() == 0
    }

    /// The record that the pairs stand for: each pair is written in turn,
    /// so a later pair overrides an earlier one with the same value.
    pub fn from_pairs(pairs: Vec<(String, u64)>) -> (record: MruRecord)
        ensures
            record@ == pairs_map(pairs@),
    {
        let mut record = MruRecord::new();
        let ghost all = pairs@;
        for pair in it: pairs
            invariant
                it.seq() == all,
                record@ == pairs_map(all.take(it.index() as int)),
        {
            proof {
                let upto = all.take(it.index() + 1);
                assert(upto.drop_last() =~= all.take(it.index() as int));
                assert(upto.last() == pair);
            }
            record.record_use(pair.0, pair.1);
        }
        proof {
            assert(all.take(all.len() as int) =~= all);
        }
        record
    }

    /// Reads a record from its stored form.
    ///
    /// Text that does not hold a mapping from values to timestamps is
    /// refused as corrupt, with the description of what is wrong with it;
    /// nothing is guessed or repaired.
    pub fn decode(text: &[u8]) -> (decoded: Result<MruRecord, MruError>)
        ensures
            match json_mapping(text@) {
                Ok(mapping) => decoded matches Ok(record) && record@ == mapping,
                Err(described) => decoded matches Err(MruError::StoreCorrupt { detail })
                    && detail@ == described,
            },
    {
        match parse_pairs(text) {
            Ok(pairs) => Ok(MruRecord::from_pairs(pairs)),
            Err(detail) => Err(MruError::StoreCorrupt { detail }),
        }
    }

    /// Writes the whole record in its stored form. This succeeds for every
    /// record, and the text reads as this very record.
    pub fn encode(&self) -> (encoded: Result<Vec<u8>, MruError>)
        ensures
            encoded is Ok,
            encoded matches Ok(text) ==> json_mapping(text@) matches Ok(mapping) && mapping
                == self@,
    {
        proof {
            use_type_invariant(self);
            lemma_ascending_distinct(self.entries@);
        }
        match render_pairs(&self.entries) {
            Ok(text) => Ok(text),
            Err(detail) => Err(MruError::StoreUnavailable { detail }),
        }
    }

    /// The pairs of the record, in ascending byte order of their values.
    pub fn to_pairs(&self) -> (pairs: Vec<(String, u64)>)
        ensures
            strictly_ascending(pairs@),
            pairs_map(pairs@) == self@,
    {
        proof {
            use_type_invariant(self);
            lemma_ascending_distinct(self.entries@);
        }
        let mut pairs: Vec<(String, u64)> = Vec::new();
        let mut i: usize = 0;
        while i < self.entries.len()
            invariant
                i <= self.entries@.len(),
                pairs@.len() == i,
                forall|t: int|
                    0 <= t < i ==> (#[trigger] pairs@[t]).0@ == self.entries@[t].0@ && pairs@[t].1
                        == self.entries@[t].1,
            decreases self.entries@.len() - i,
        {
            pairs.push((self.entries[i].0.clone(), self.entries[i].1));
            i += 1;
        }
        proof {
            lemma_pairs_map_same(pairs@, self.entries@);
        }
        pairs
    }

    /// Records that `value` was used at `now`: whatever was remembered of
    /// `value` before is overwritten, and nothing else changes.
    pub fn record_use(&mut self, value: String, now: u64)
        ensures
            final(self)@ == old(self)@.insert(value@, now),
    {
        proof {
            use_type_invariant(&*self);
            lemma_ascending_distinct(self.entries@);
        }
        let (at, found) = self.locate(value.as_str());
        let ghost before = self.entries@;
        let ghost pair = (value, now);
        let mut entries: Vec<(String, u64)> = Vec::new();
        std::mem::swap(&mut self.entries, &mut entries);
        if found {
            proof {
                lemma_pairs_map_replace(before, at as int, pair);
            }
            entries[at] = (value, now);
            assert(entries@ == before.update(at as int, pair));
        } else {
            proof {
                assert forall|i: int| 0 <= i < before.len() implies #[trigger] before[i].0@
                    != pair.0@ by {
                    lemma_bytes_lt_irreflexive(key_bytes(pair.0@), 0);
                }
                lemma_pairs_map_insert(before, at as int, pair);
            }
            entries.insert(at, (value, now));
        }
        self.entries = entries;
    }
}

} // verus!
