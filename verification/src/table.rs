//! The running statistics of each key.
//!
//! A [`Table`] maps a key to the count, the least value, the greatest value
//! and the exact total of the values taken for that key. It holds its keys in
//! ascending byte order, so a key is found by bisection and a walk over the
//! table meets the keys in the order of the summary.

use vstd::prelude::*;
use vstd::slice::slice_to_vec;
use crate::key::{compare_keys, key_lt, lemma_key_lt_asymmetric, lemma_key_lt_transitive,
    strictly_ascending, KeyOrder};

verus! {

/// What is known of the values of one key: how many there are, the least, the
/// greatest and their total, each value a whole number of tenths.
pub struct Summary {
    pub count: nat,
    pub min: int,
    pub max: int,
    pub sum: int,
}

impl Summary {
    /// The summary of the one value `v`.
    pub open spec fn single(v: int) -> Summary {
        Summary { count: 1, min: v, max: v, sum: v }
    }

    /// The summary of the values of `self` and `v`.
    pub open spec fn absorb(self, v: int) -> Summary {
        Summary {
            count: self.count + 1,
            min: if v < self.min {
                v
            } else {
                self.min
            },
            max: if v > self.max {
                v
            } else {
                self.max
            },
            sum: self.sum + v,
        }
    }

    /// There is at least one value, the least is not above the greatest, and
    /// the total lies between `count` times the least and `count` times the
    /// greatest.
    pub open spec fn wf(self) -> bool {
        &&& self.count >= 1
        &&& self.min <= self.max
        &&& self.count * self.min <= self.sum <= self.count * self.max
    }
}

/// The summary of one value is well formed.
pub proof fn lemma_single_wf(v: int)
    ensures
        Summary::single(v).wf(),
{
}

/// Taking one more value keeps a summary well formed.
pub proof fn lemma_absorb_wf(s: Summary, v: int)
    requires
        s.wf(),
    ensures
        s.absorb(v).wf(),
{
    let t = s.absorb(v);
    assert(s.count * t.min <= s.count * s.min) by (nonlinear_arith)
        requires
            t.min <= s.min,
            s.count >= 0,
    ;
    assert(s.count * s.max <= s.count * t.max) by (nonlinear_arith)
        requires
            s.max <= t.max,
            s.count >= 0,
    ;
    assert((s.count + 1) * t.min == s.count * t.min + t.min) by (nonlinear_arith);
    assert((s.count + 1) * t.max == s.count * t.max + t.max) by (nonlinear_arith);
}

/// The running statistics of one key, as the table stores them.
#[derive(Clone, Copy, Debug, PartialEq, Eq)]
pub struct Stats {
    /// How many values were taken.
    pub count: u64,
    /// The least value, in tenths.
    pub min: i16,
    /// The greatest value, in tenths.
    pub max: i16,
    /// The total of the values, in tenths.
    pub sum: i128,
}

impl View for Stats {
    type V = Summary;

    open spec fn view(&self) -> Summary {
        Summary { count: self.count as nat, min: self.min as int, max: self.max as int, sum: self.sum as int }
    }
}

/// The total of `count` values of sixteen bits is far from the ends of `i128`.
proof fn lemma_sum_bounds(s: Stats)
    requires
        s@.wf(),
    ensures
        -0x8000 * 0x1_0000_0000_0000_0000 <= s.sum <= 0x8000 * 0x1_0000_0000_0000_0000,
{
    assert(s.count * s.min >= s.count * (-0x8000)) by (nonlinear_arith)
        requires
            s.min >= -0x8000,
            s.count >= 0,
    ;
    assert(s.count * s.max <= s.count * 0x8000) by (nonlinear_arith)
        requires
            s.max <= 0x8000,
            s.count >= 0,
    ;
}

/// `keys` holds `k`.
pub open spec fn has_key(keys: Seq<Seq<u8>>, k: Seq<u8>) -> bool {
    exists|i: int| 0 <= i < keys.len() && #[trigger] keys[i] == k
}

/// An index at which `keys` holds `k`.
pub open spec fn index_of(keys: Seq<Seq<u8>>, k: Seq<u8>) -> int {
    choose|i: int| 0 <= i < keys.len() && #[trigger] keys[i] == k
}

/// The map that takes each of `keys` to the summary at the same index.
pub open spec fn table_map(keys: Seq<Seq<u8>>, summaries: Seq<Summary>) -> Map<Seq<u8>, Summary> {
    Map::new(|k: Seq<u8>| has_key(keys, k), |k: Seq<u8>| summaries[index_of(keys, k)])
}

/// What a table holds for `key` once the value `v` is taken for it.
pub open spec fn merged(m: Map<Seq<u8>, Summary>, key: Seq<u8>, v: int) -> Summary {
    if m.contains_key(key) {
        m[key].absorb(v)
    } else {
        Summary::single(v)
    }
}

/// In a strictly ascending sequence a key stands at one index only.
proof fn lemma_index_of(keys: Seq<Seq<u8>>, i: int)
    requires
        strictly_ascending(keys),
        0 <= i < keys.len(),
    ensures
        has_key(keys, keys[i]),
        index_of(keys, keys[i]) == i,
{
    let j = index_of(keys, keys[i]);
    if j < i {
        lemma_key_lt_asymmetric(keys[j], keys[i]);
    } else if i < j {
        lemma_key_lt_asymmetric(keys[i], keys[j]);
    }
}

/// Replacing the summary at index `i` replaces what the map holds for the
/// key at index `i`.
proof fn lemma_table_map_update(keys: Seq<Seq<u8>>, summaries: Seq<Summary>, i: int, s: Summary)
    requires
        strictly_ascending(keys),
        keys.len() == summaries.len(),
        0 <= i < keys.len(),
    ensures
        table_map(keys, summaries.update(i, s)) == table_map(keys, summaries).insert(keys[i], s),
{
    let before = table_map(keys, summaries);
    let after = table_map(keys, summaries.update(i, s));
    lemma_index_of(keys, i);
    assert forall|k: Seq<u8>| after.contains_key(k) implies #[trigger] after[k] == before.insert(keys[i], s)[k] by {
        let j = index_of(keys, k);
        lemma_index_of(keys, j);
    }
    assert(after =~= before.insert(keys[i], s));
}

/// Putting a new key in its place keeps the keys strictly ascending.
pub proof fn lemma_insert_ascending(keys: Seq<Seq<u8>>, pos: int, k: Seq<u8>)
    requires
        strictly_ascending(keys),
        0 <= pos <= keys.len(),
        forall|i: int| 0 <= i < pos ==> key_lt(#[trigger] keys[i], k),
        forall|i: int| pos <= i < keys.len() ==> key_lt(k, #[trigger] keys[i]),
    ensures
        strictly_ascending(keys.insert(pos, k)),
        !has_key(keys, k),
{
    let grown = keys.insert(pos, k);
    assert forall|i: int, j: int| 0 <= i < j < grown.len() implies key_lt(#[trigger] grown[i], #[trigger] grown[j]) by {
        if i < pos {
            assert(grown[i] == keys[i]);
        } else if i > pos {
            assert(grown[i] == keys[i - 1]);
        }
        if j < pos {
            assert(grown[j] == keys[j]);
        } else if j > pos {
            assert(grown[j] == keys[j - 1]);
        }
    }
    if has_key(keys, k) {
        let i = index_of(keys, k);
        if i < pos {
            lemma_key_lt_asymmetric(keys[i], k);
        } else {
            lemma_key_lt_asymmetric(k, keys[i]);
        }
    }
}

/// Putting a new key and its summary at index `pos` adds the pair to the map.
proof fn lemma_table_map_insert(
    keys: Seq<Seq<u8>>,
    summaries: Seq<Summary>,
    pos: int,
    k: Seq<u8>,
    s: Summary,
)
    requires
        strictly_ascending(keys),
        strictly_ascending(keys.insert(pos, k)),
        keys.len() == summaries.len(),
        0 <= pos <= keys.len(),
    ensures
        table_map(keys.insert(pos, k), summaries.insert(pos, s)) == table_map(keys, summaries).insert(k, s),
{
    let grown = keys.insert(pos, k);
    let grown_summaries = summaries.insert(pos, s);
    let before = table_map(keys, summaries);
    let after = table_map(grown, grown_summaries);
    assert(grown[pos] == k);
    lemma_index_of(grown, pos);
    assert forall|q: Seq<u8>| has_key(keys, q) implies has_key(grown, q) by {
        let j = index_of(keys, q);
        if j < pos {
            assert(grown[j] == q);
        } else {
            assert(grown[j + 1] == q);
        }
    }
    assert forall|q: Seq<u8>| has_key(grown, q) && q != k implies has_key(keys, q) by {
        let j = index_of(grown, q);
        if j < pos {
            assert(keys[j] == q);
        } else {
            assert(keys[j - 1] == q);
        }
    }
    assert forall|q: Seq<u8>| after.contains_key(q) implies #[trigger] after[q] == before.insert(k, s)[q] by {
        if q != k {
            let j = index_of(keys, q);
            lemma_index_of(keys, j);
            if j < pos {
                assert(grown[j] == q);
                lemma_index_of(grown, j);
            } else {
                assert(grown[j + 1] == q);
                lemma_index_of(grown, j + 1);
            }
        }
    }
    assert(after =~= before.insert(k, s));
}

/// The statistics of every key taken so far, in ascending order of the keys.
pub struct Table {
    keys: Vec<Vec<u8>>,
    stats: Vec<Stats>,
    observed: u64,
}

impl View for Table {
    type V = Map<Seq<u8>, Summary>;

    /// What the table holds for each key.
    open spec fn view(&self) -> Map<Seq<u8>, Summary> {
        table_map(self.keys(), self.summaries())
    }
}

impl Table {
    /// The keys in the order in which the table holds them.
    pub closed spec fn keys(&self) -> Seq<Seq<u8>> {
        Seq::new(self.keys@.len(), |i: int| self.keys@[i]@)
    }

    /// The summaries, each at the index of its key.
    pub closed spec fn summaries(&self) -> Seq<Summary> {
        Seq::new(self.stats@.len(), |i: int| self.stats@[i]@)
    }

    /// How many values the table has taken, over all keys.
    pub closed spec fn observed(&self) -> nat {
        self.observed as nat
    }

    /// The keys are strictly ascending, so none occurs twice; each has a well
    /// formed summary, which counts no more values than the table has taken.
    pub open spec fn wf(&self) -> bool {
        &&& self.keys().len() == self.summaries().len()
        &&& self.observed() <= u64::MAX
        &&& strictly_ascending(self.keys())
        &&& forall|i: int|
            0 <= i < self.summaries().len() ==> (#[trigger] self.summaries()[i]).wf()
                && self.summaries()[i].count <= self.observed()
    }

    /// A table without keys.
    pub fn new() -> (table: Table)
        ensures
            table.wf(),
            table@ == Map::<Seq<u8>, Summary>::empty(),
            table.keys().len() == 0,
            table.observed() == 0,
    {
        let table = Table { keys: Vec::new(), stats: Vec::new(), observed: 0 };
        assert(table@ =~= Map::<Seq<u8>, Summary>::empty());
        table
    }

    /// The number of keys.
    pub fn len(&self) -> (n: usize)
        requires
            self.wf(),
        ensures
            n == self.keys().len(),
    {
        self.keys.len()
    }

    /// The number of values taken, over all keys.
    pub fn records(&self) -> (n: u64)
        ensures
            n == self.observed(),
    {
        self.observed
    }

    /// The key at index `i` in ascending order.
    pub fn key_at(&self, i: usize) -> (key: &[u8])
        requires
            self.wf(),
            i < self.keys().len(),
        ensures
            key@ == self.keys()[i as int],
            self@.contains_key(key@),
    {
        proof {
            lemma_index_of(self.keys(), i as int);
        }
        self.keys[i].as_slice()
    }

    /// The statistics of the key at index `i` in ascending order.
    pub fn stats_at(&self, i: usize) -> (stats: Stats)
        requires
            self.wf(),
            i < self.keys().len(),
        ensures
            stats@ == self.summaries()[i as int],
            stats@ == self@[self.keys()[i as int]],
            stats@.wf(),
    {
        proof {
            lemma_index_of(self.keys(), i as int);
        }
        self.stats[i]
    }

    /// The table holds exactly its keys, each with the summary at its index.
    pub proof fn lemma_view(&self)
        requires
            self.wf(),
        ensures
            forall|i: int|
                0 <= i < self.keys().len() ==> self@.contains_key(#[trigger] self.keys()[i])
                    && self@[self.keys()[i]] == self.summaries()[i],
            forall|k: Seq<u8>| #[trigger]
                self@.contains_key(k) ==> exists|i: int|
                    0 <= i < self.keys().len() && #[trigger] self.keys()[i] == k,
            forall|k: Seq<u8>| #[trigger] self@.contains_key(k) ==> self@[k].wf(),
    {
        assert forall|i: int| 0 <= i < self.keys().len() implies self@.contains_key(#[trigger] self.keys()[i])
            && self@[self.keys()[i]] == self.summaries()[i] by {
            lemma_index_of(self.keys(), i);
        }
    }

    /// Where `key` stands, or where it would have to go.
    fn find(&self, key: &[u8]) -> (r: (bool, usize))
        requires
            self.wf(),
        ensures
            r.1 <= self.keys().len(),
            forall|i: int| 0 <= i < r.1 ==> key_lt(#[trigger] self.keys()[i], key@),
            r.0 ==> r.1 < self.keys().len() && self.keys()[r.1 as int] == key@,
            !r.0 ==> forall|i: int| r.1 <= i < self.keys().len() ==> key_lt(key@, #[trigger] self.keys()[i]),
    {
        let mut lo: usize = 0;
        let mut hi: usize = self.keys.len();
        while lo < hi
            invariant
                self.wf(),
                lo <= hi <= self.keys().len(),
                forall|i: int| 0 <= i < lo ==> key_lt(#[trigger] self.keys()[i], key@),
                forall|i: int| hi <= i < self.keys().len() ==> key_lt(key@, #[trigger] self.keys()[i]),
            decreases hi - lo,
        {
            let mid = lo + (hi - lo) / 2;
            let ghost pivot = self.keys()[mid as int];
            match compare_keys(key, self.keys[mid].as_slice()) {
                KeyOrder::Same => {
                    return (true, mid);
                },
                KeyOrder::Before => {
                    proof {
                        assert forall|i: int| mid <= i < self.keys().len() implies key_lt(
                            key@,
                            #[trigger] self.keys()[i],
                        ) by {
                            if i > mid {
                                lemma_key_lt_transitive(key@, pivot, self.keys()[i]);
                            }
                        }
                    }
                    hi = mid;
                },
                KeyOrder::After => {
                    proof {
                        assert forall|i: int| 0 <= i < mid + 1 implies key_lt(
                            #[trigger] self.keys()[i],
                            key@,
                        ) by {
                            if i < mid {
                                lemma_key_lt_transitive(self.keys()[i], pivot, key@);
                            }
                        }
                    }
                    lo = mid + 1;
                },
            }
        }
        (false, lo)
    }

    /// What the table holds for `key`, if anything.
    pub fn get(&self, key: &[u8]) -> (found: Option<Stats>)
        requires
            self.wf(),
        ensures
            match found {
                Some(stats) => self@.contains_key(key@) && stats@ == self@[key@],
                None => !self@.contains_key(key@),
            },
    {
        let (found, pos) = self.find(key);
        if found {
            proof {
                lemma_index_of(self.keys(), pos as int);
            }
            Some(self.stats[pos])
        } else {
            proof {
                lemma_insert_ascending(self.keys(), pos as int, key@);
            }
            None
        }
    }

    /// Takes the value `value` for `key`.
    ///
    /// A key that the table does not hold yet enters with a count of one and
    /// `value` as its least value, its greatest value and its total. For a
    /// key that it holds, `value` replaces the least value where it is below
    /// it and the greatest where it is above it, it is added to the total,
    /// and the count goes up by one. Nothing else in the table changes.
    pub fn update(&mut self, key: &[u8], value: i16)
        requires
            old(self).wf(),
            old(self).observed() < u64::MAX,
        ensures
            final(self).wf(),
            final(self).observed() == old(self).observed() + 1,
            final(self)@ == old(self)@.insert(key@, merged(old(self)@, key@, value as int)),
    {
        let (found, pos) = self.find(key);
        let ghost keys = self.keys();
        let ghost summaries = self.summaries();
        if found {
            let mut next = self.stats[pos];
            proof {
                assert(next@ == summaries[pos as int]);
                assert(summaries[pos as int].wf());
                lemma_index_of(keys, pos as int);
                lemma_sum_bounds(next);
                lemma_absorb_wf(next@, value as int);
                lemma_table_map_update(keys, summaries, pos as int, next@.absorb(value as int));
            }
            if value < next.min {
                next.min = value;
            } else if value > next.max {
                next.max = value;
            }
            next.sum = next.sum + value as i128;
            next.count = next.count + 1;
            self.stats[pos] = next;
            self.observed = self.observed + 1;
            assert(self.keys() =~= keys);
            assert(self.summaries() =~= summaries.update(pos as int, next@));
        } else {
            proof {
                lemma_insert_ascending(keys, pos as int, key@);
                lemma_table_map_insert(keys, summaries, pos as int, key@, Summary::single(value as int));
            }
            let first = Stats { count: 1, min: value, max: value, sum: value as i128 };
            self.keys.insert(pos, slice_to_vec(key));
            self.stats.insert(pos, first);
            self.observed = self.observed + 1;
            assert(self.keys() =~= keys.insert(pos as int, key@));
            assert(self.summaries() =~= summaries.insert(pos as int, first@));
        }
    }
}

} // verus!
