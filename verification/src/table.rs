//! The table from keys to stations: entries kept in ascending key order, so
//! that no key occurs twice and listing the entries lists them sorted.

use vstd::prelude::*;
use crate::key::{compare_keys, key_lt, lemma_key_lt_asymmetric, lemma_key_lt_transitive, KeyOrder};
use crate::station::{join, Station, Summary};

verus! {

/// One key with its station.
#[derive(Debug)]
pub struct Entry {
    pub key: Vec<u8>,
    pub station: Station,
}

/// The stations of a stretch of input, by key.
#[derive(Debug)]
pub struct StationTable {
    pub entries: Vec<Entry>,
}

/// The key of the entry at `i`.
pub open spec fn key_at(es: Seq<Entry>, i: int) -> Seq<u8> {
    es[i].key@
}

/// Whether some entry has the key `k`.
pub open spec fn holds_key(es: Seq<Entry>, k: Seq<u8>) -> bool {
    exists|i: int| 0 <= i < es.len() && #[trigger] key_at(es, i) == k
}

/// The index of an entry with the key `k`.
pub open spec fn index_of(es: Seq<Entry>, k: Seq<u8>) -> int {
    choose|i: int| 0 <= i < es.len() && #[trigger] key_at(es, i) == k
}

/// The entries as a map from key to summary.
pub open spec fn entries_map(es: Seq<Entry>) -> Map<Seq<u8>, Summary> {
    Map::new(|k: Seq<u8>| holds_key(es, k), |k: Seq<u8>| es[index_of(es, k)].station@)
}

/// Keys ascend strictly from entry to entry.
pub open spec fn ascending(es: Seq<Entry>) -> bool {
    forall|i: int, j: int|
        0 <= i < j < es.len() ==> key_lt(#[trigger] key_at(es, i), #[trigger] key_at(es, j))
}

/// Every station is well formed.
pub open spec fn stations_wf(es: Seq<Entry>) -> bool {
    forall|i: int| 0 <= i < es.len() ==> (#[trigger] es[i]).station.wf()
}

/// The map `m` after the summary `s` was recorded under `k`: joined to what
/// stood there, or entered where nothing did.
pub open spec fn record(m: Map<Seq<u8>, Summary>, k: Seq<u8>, s: Summary) -> Map<Seq<u8>, Summary> {
    m.insert(
        k,
        if m.contains_key(k) {
            join(m[k], s)
        } else {
            s
        },
    )
}

/// The key-wise merge of two maps: a key of both gets the joined summary, a
/// key of one keeps its own.
pub open spec fn merge_maps(a: Map<Seq<u8>, Summary>, b: Map<Seq<u8>, Summary>) -> Map<
    Seq<u8>,
    Summary,
> {
    Map::new(
        |k: Seq<u8>| a.contains_key(k) || b.contains_key(k),
        |k: Seq<u8>|
            if a.contains_key(k) && b.contains_key(k) {
                join(a[k], b[k])
            } else if a.contains_key(k) {
                a[k]
            } else {
                b[k]
            },
    )
}

/// Whether the summary `s` can be recorded under `k` in `m` within the range
/// of a station's counter and sum.
pub open spec fn can_record(m: Map<Seq<u8>, Summary>, k: Seq<u8>, s: Summary) -> bool {
    m.contains_key(k) ==> {
        &&& m[k].count + s.count <= u32::MAX
        &&& i64::MIN <= m[k].sum + s.sum <= i64::MAX
    }
}

/// Whether two maps can be merged within the range of a station's counter and
/// sum.
pub open spec fn can_merge_maps(a: Map<Seq<u8>, Summary>, b: Map<Seq<u8>, Summary>) -> bool {
    forall|k: Seq<u8>| #[trigger] b.contains_key(k) ==> can_record(a, k, b[k])
}

/// Every summary of `m` is bounded by `rows` observations within `limit`.
pub open spec fn map_bounded(m: Map<Seq<u8>, Summary>, rows: int, limit: int) -> bool {
    forall|k: Seq<u8>| #[trigger] m.contains_key(k) ==> m[k].bounded(rows, limit)
}

/// Merging maps is commutative.
pub proof fn lemma_merge_maps_commutative(a: Map<Seq<u8>, Summary>, b: Map<Seq<u8>, Summary>)
    ensures
        merge_maps(a, b) == merge_maps(b, a),
{
    assert(merge_maps(a, b) =~= merge_maps(b, a));
}

/// Merging maps is associative.
pub proof fn lemma_merge_maps_associative(
    a: Map<Seq<u8>, Summary>,
    b: Map<Seq<u8>, Summary>,
    c: Map<Seq<u8>, Summary>,
)
    ensures
        merge_maps(merge_maps(a, b), c) == merge_maps(a, merge_maps(b, c)),
{
    assert(merge_maps(merge_maps(a, b), c) =~= merge_maps(a, merge_maps(b, c)));
}

/// The empty map is neutral on either side.
pub proof fn lemma_merge_maps_empty(a: Map<Seq<u8>, Summary>)
    ensures
        merge_maps(a, Map::empty()) == a,
        merge_maps(Map::empty(), a) == a,
{
    assert(merge_maps(a, Map::empty()) =~= a);
    assert(merge_maps(Map::empty(), a) =~= a);
}

/// Recording under `k` is merging with the map that holds `k` alone.
pub proof fn lemma_record_is_merge(m: Map<Seq<u8>, Summary>, k: Seq<u8>, s: Summary)
    ensures
        record(m, k, s) == merge_maps(m, Map::empty().insert(k, s)),
{
    assert(record(m, k, s) =~= merge_maps(m, Map::empty().insert(k, s)));
}

/// In ascending entries, the entry at `i` is the one that the map shows under
/// its key.
pub proof fn lemma_lookup(es: Seq<Entry>, i: int)
    requires
        ascending(es),
        0 <= i < es.len(),
    ensures
        holds_key(es, key_at(es, i)),
        entries_map(es).contains_key(key_at(es, i)),
        index_of(es, key_at(es, i)) == i,
        entries_map(es)[key_at(es, i)] == es[i].station@,
{
    let k = key_at(es, i);
    assert(holds_key(es, k));
    let j = index_of(es, k);
    if j < i {
        lemma_key_lt_asymmetric(key_at(es, j), key_at(es, i));
    } else if i < j {
        lemma_key_lt_asymmetric(key_at(es, i), key_at(es, j));
    }
}

/// Ascending entries list every key of the table once: no two entries share
/// a key, and the table holds a key exactly where an entry has it.
pub proof fn lemma_listing(es: Seq<Entry>)
    requires
        ascending(es),
    ensures
        forall|i: int, j: int|
            0 <= i < j < es.len() ==> #[trigger] key_at(es, i) != #[trigger] key_at(es, j),
        forall|k: Seq<u8>| #[trigger] entries_map(es).contains_key(k) <==> holds_key(es, k),
{
    assert forall|i: int, j: int| 0 <= i < j < es.len() implies #[trigger] key_at(es, i)
        != #[trigger] key_at(es, j) by {
        lemma_key_lt_asymmetric(key_at(es, i), key_at(es, j));
    }
}

/// In ascending entries, the part from `i` on shows what the part after `i`
/// shows, and the entry at `i` besides, whose key the part after it lacks.
#[verifier::rlimit(40)]
pub proof fn lemma_entries_map_skip(es: Seq<Entry>, i: int)
    requires
        ascending(es),
        0 <= i < es.len(),
    ensures
        ascending(es.skip(i)),
        ascending(es.skip(i + 1)),
        !entries_map(es.skip(i + 1)).contains_key(key_at(es, i)),
        entries_map(es.skip(i)) == entries_map(es.skip(i + 1)).insert(
            key_at(es, i),
            es[i].station@,
        ),
{
    let whole = es.skip(i);
    let rest = es.skip(i + 1);
    assert forall|a: int, b: int| 0 <= a < b < whole.len() implies key_lt(
        #[trigger] key_at(whole, a),
        #[trigger] key_at(whole, b),
    ) by {
        assert(key_lt(key_at(es, a + i), key_at(es, b + i)));
    }
    assert forall|a: int, b: int| 0 <= a < b < rest.len() implies key_lt(
        #[trigger] key_at(rest, a),
        #[trigger] key_at(rest, b),
    ) by {
        assert(key_lt(key_at(es, a + i + 1), key_at(es, b + i + 1)));
    }
    let k0 = key_at(es, i);
    if holds_key(rest, k0) {
        let j = index_of(rest, k0);
        assert(key_at(rest, j) == key_at(es, j + i + 1));
        lemma_key_lt_asymmetric(key_at(es, i), key_at(es, j + i + 1));
    }
    let left = entries_map(whole);
    let right = entries_map(rest).insert(k0, es[i].station@);
    assert forall|k: Seq<u8>| left.contains_key(k) <==> right.contains_key(k) by {
        if left.contains_key(k) {
            let j = index_of(whole, k);
            if j > 0 {
                assert(key_at(rest, j - 1) == k);
            } else {
                assert(key_at(whole, 0) == k0);
            }
        }
        if right.contains_key(k) {
            if k == k0 {
                assert(key_at(whole, 0) == k);
            } else {
                let j = index_of(rest, k);
                assert(key_at(whole, j + 1) == k);
            }
        }
    }
    assert forall|k: Seq<u8>| left.contains_key(k) implies left[k] == right[k] by {
        let j = index_of(whole, k);
        lemma_lookup(whole, j);
        if j > 0 {
            assert(key_at(rest, j - 1) == k);
            lemma_lookup(rest, j - 1);
        } else {
            assert(key_at(whole, 0) == k0);
        }
    }
    assert(left =~= right);
}

/// Merging with a map that gained a new key is recording that key's summary
/// in the merge.
pub proof fn lemma_merge_maps_insert(
    a: Map<Seq<u8>, Summary>,
    m: Map<Seq<u8>, Summary>,
    k: Seq<u8>,
    s: Summary,
)
    requires
        !m.contains_key(k),
    ensures
        merge_maps(a, m.insert(k, s)) == record(merge_maps(a, m), k, s),
{
    assert(merge_maps(a, m.insert(k, s)) =~= record(merge_maps(a, m), k, s));
}

impl View for StationTable {
    type V = Map<Seq<u8>, Summary>;

    open spec fn view(&self) -> Map<Seq<u8>, Summary> {
        entries_map(self.entries@)
    }
}

impl StationTable {
    /// The table's invariant: strictly ascending keys, well-formed stations.
    pub open spec fn wf(&self) -> bool {
        ascending(self.entries@) && stations_wf(self.entries@)
    }

    /// The table without entries.
    pub fn new() -> (table: StationTable)
        ensures
            table.wf(),
            table@ == Map::<Seq<u8>, Summary>::empty(),
            table.entries@.len() == 0,
    {
        let table = StationTable { entries: Vec::new() };
        proof {
            assert(table@ =~= Map::<Seq<u8>, Summary>::empty());
        }
        table
    }

    /// The number of distinct keys.
    pub fn len(&self) -> (n: usize)
        requires
            self.wf(),
        ensures
            n == self.entries@.len(),
            n == self@.dom().len(),
            self@.dom().finite(),
    {
        proof {
            lemma_domain_size(self.entries@);
        }
        self.entries.len()
    }

    /// Where `key` stands or would stand, found by halving: the index of its
    /// entry if it has one, else the index at which an entry for it keeps the
    /// keys ascending.
    #[verifier::rlimit(40)]
    pub fn locate(&self, key: &[u8]) -> (place: (bool, usize))
        requires
            self.wf(),
        ensures
            place.0 == self@.contains_key(key@),
            place.1 <= self.entries@.len(),
            place.0 ==> place.1 < self.entries@.len() && key_at(self.entries@, place.1 as int)
                == key@,
            forall|j: int| 0 <= j < place.1 ==> key_lt(#[trigger] key_at(self.entries@, j), key@),
            !place.0 ==> forall|j: int|
                place.1 <= j < self.entries@.len() ==> key_lt(
                    key@,
                    #[trigger] key_at(self.entries@, j),
                ),
    {
        let ghost es = self.entries@;
        let mut lo: usize = 0;
        let mut hi: usize = self.entries.len();
        while lo < hi
            invariant
                es == self.entries@,
                self.wf(),
                0 <= lo <= hi <= es.len(),
                forall|j: int| 0 <= j < lo ==> key_lt(#[trigger] key_at(es, j), key@),
                forall|j: int| hi <= j < es.len() ==> key_lt(key@, #[trigger] key_at(es, j)),
            decreases hi - lo,
        {
            let mid: usize = lo + (hi - lo) / 2;
            let order = compare_keys(key, self.entries[mid].key.as_slice());
            match order {
                KeyOrder::Same => {
                    proof {
                        assert(key_at(es, mid as int) == key@);
                        assert forall|j: int| 0 <= j < mid implies key_lt(
                            #[trigger] key_at(es, j),
                            key@,
                        ) by {
                            assert(key_lt(key_at(es, j), key_at(es, mid as int)));
                        }
                    }
                    return (true, mid);
                },
                KeyOrder::Before => {
                    proof {
                        assert(key_lt(key@, key_at(es, mid as int)));
                        assert forall|j: int| mid <= j < es.len() implies key_lt(
                            key@,
                            #[trigger] key_at(es, j),
                        ) by {
                            if j > mid {
                                lemma_key_lt_transitive(
                                    key@,
                                    key_at(es, mid as int),
                                    key_at(es, j),
                                );
                            }
                        }
                    }
                    hi = mid;
                },
                KeyOrder::After => {
                    proof {
                        assert(key_lt(key_at(es, mid as int), key@));
                        assert forall|j: int| 0 <= j < mid + 1 implies key_lt(
                            #[trigger] key_at(es, j),
                            key@,
                        ) by {
                            if j < mid {
                                lemma_key_lt_transitive(
                                    key_at(es, j),
                                    key_at(es, mid as int),
                                    key@,
                                );
                            }
                        }
                    }
                    lo = mid + 1;
                },
            }
        }
        proof {
            lemma_absent(es, key@, lo as int);
        }
        (false, lo)
    }

    /// The station of `key`, if the table has one.
    pub fn get(&self, key: &[u8]) -> (found: Option<Station>)
        requires
            self.wf(),
        ensures
            found is Some <==> self@.contains_key(key@),
            found is Some ==> found->0@ == self@[key@] && found->0.wf(),
    {
        let (present, pos) = self.locate(key);
        if present {
            proof {
                lemma_lookup(self.entries@, pos as int);
            }
            Some(self.entries[pos].station)
        } else {
            None
        }
    }

    /// Records `station` under `key`: merged into the station that the key
    /// has, or entered as the key's station where it has none.
    #[verifier::rlimit(40)]
    pub fn absorb(&mut self, key: Vec<u8>, station: Station)
        requires
            old(self).wf(),
            station.wf(),
            can_record(old(self)@, key@, station@),
        ensures
            final(self).wf(),
            final(self)@ == record(old(self)@, key@, station@),
    {
        let ghost es = self.entries@;
        let ghost k = key@;
        let (present, pos) = self.locate(key.as_slice());
        if present {
            let mut merged = self.entries[pos].station;
            proof {
                lemma_lookup(es, pos as int);
            }
            merged.merge(&station);
            self.entries.set(pos, Entry { key, station: merged });
            proof {
                let es2 = self.entries@;
                assert forall|i: int| 0 <= i < es.len() implies key_at(es2, i) == key_at(es, i) by {}
                assert forall|i: int, j: int| 0 <= i < j < es2.len() implies key_lt(
                    #[trigger] key_at(es2, i),
                    #[trigger] key_at(es2, j),
                ) by {
                    assert(key_lt(key_at(es, i), key_at(es, j)));
                }
                let left = entries_map(es2);
                let right = record(entries_map(es), k, station@);
                assert forall|q: Seq<u8>| left.contains_key(q) <==> right.contains_key(q) by {
                    if left.contains_key(q) {
                        let j = index_of(es2, q);
                        assert(key_at(es, j) == q);
                    }
                    if right.contains_key(q) {
                        if q == k {
                            assert(key_at(es2, pos as int) == q);
                        } else {
                            let j = index_of(es, q);
                            assert(key_at(es2, j) == q);
                        }
                    }
                }
                assert forall|q: Seq<u8>| left.contains_key(q) implies left[q] == right[q] by {
                    let j = index_of(es2, q);
                    lemma_lookup(es2, j);
                    assert(key_at(es, j) == q);
                    lemma_lookup(es, j);
                }
                assert(left =~= right);
            }
        } else {
            self.entries.insert(pos, Entry { key, station });
            proof {
                let es2 = self.entries@;
                assert forall|i: int| 0 <= i < es2.len() implies #[trigger] key_at(es2, i) == (if i
                    < pos {
                    key_at(es, i)
                } else if i == pos {
                    k
                } else {
                    key_at(es, i - 1)
                }) by {}
                assert forall|i: int, j: int| 0 <= i < j < es2.len() implies key_lt(
                    #[trigger] key_at(es2, i),
                    #[trigger] key_at(es2, j),
                ) by {
                    if j < pos {
                        assert(key_lt(key_at(es, i), key_at(es, j)));
                    } else if j == pos {
                        assert(key_lt(key_at(es, i), k));
                    } else if i < pos {
                        assert(key_lt(key_at(es, i), key_at(es, j - 1)));
                    } else if i == pos {
                        assert(key_lt(k, key_at(es, j - 1)));
                    } else {
                        assert(key_lt(key_at(es, i - 1), key_at(es, j - 1)));
                    }
                }
                assert forall|i: int| 0 <= i < es2.len() implies (#[trigger] es2[i]).station.wf() by {
                    if i < pos {
                        assert(es2[i] == es[i]);
                    } else if i > pos {
                        assert(es2[i] == es[i - 1]);
                    }
                }
                let left = entries_map(es2);
                let right = record(entries_map(es), k, station@);
                assert forall|q: Seq<u8>| left.contains_key(q) <==> right.contains_key(q) by {
                    if left.contains_key(q) {
                        let j = index_of(es2, q);
                        if j < pos {
                            assert(key_at(es, j) == q);
                        } else if j > pos {
                            assert(key_at(es, j - 1) == q);
                        }
                    }
                    if right.contains_key(q) {
                        if q == k {
                            assert(key_at(es2, pos as int) == q);
                        } else {
                            let j = index_of(es, q);
                            if j < pos {
                                assert(key_at(es2, j) == q);
                            } else {
                                assert(key_at(es2, j + 1) == q);
                            }
                        }
                    }
                }
                assert forall|q: Seq<u8>| left.contains_key(q) implies left[q] == right[q] by {
                    let j = index_of(es2, q);
                    lemma_lookup(es2, j);
                    if j < pos {
                        assert(key_at(es, j) == q);
                        lemma_lookup(es, j);
                    } else if j > pos {
                        assert(key_at(es, j - 1) == q);
                        lemma_lookup(es, j - 1);
                    }
                }
                assert(left =~= right);
            }
        }
    }
}

/// A key that differs from every entry's key is not held.
pub proof fn lemma_absent(es: Seq<Entry>, k: Seq<u8>, pos: int)
    requires
        0 <= pos <= es.len(),
        forall|j: int| 0 <= j < pos ==> key_lt(#[trigger] key_at(es, j), k),
        forall|j: int| pos <= j < es.len() ==> key_lt(k, #[trigger] key_at(es, j)),
    ensures
        !holds_key(es, k),
        !entries_map(es).contains_key(k),
{
    if holds_key(es, k) {
        let j = index_of(es, k);
        if j < pos {
            lemma_key_lt_asymmetric(key_at(es, j), k);
        } else {
            lemma_key_lt_asymmetric(k, key_at(es, j));
        }
    }
}

/// Ascending entries show as many keys as there are entries.
pub proof fn lemma_domain_size(es: Seq<Entry>)
    requires
        ascending(es),
    ensures
        entries_map(es).dom().finite(),
        entries_map(es).dom().len() == es.len(),
    decreases es.len(),
{
    if es.len() == 0 {
        assert(entries_map(es).dom() =~= Set::<Seq<u8>>::empty());
    } else {
        lemma_entries_map_skip(es, 0);
        assert(es.skip(0) == es);
        lemma_domain_size(es.skip(1));
        let rest = entries_map(es.skip(1));
        assert(entries_map(es).dom() =~= rest.dom().insert(key_at(es, 0)));
    }
}

/// Merges the table `b` into the table `a`, key by key.
#[verifier::rlimit(40)]
pub fn merge_stats(a: StationTable, b: StationTable) -> (merged: StationTable)
    requires
        a.wf(),
        b.wf(),
        can_merge_maps(a@, b@),
    ensures
        merged.wf(),
        merged@ == merge_maps(a@, b@),
{
    let ghost es = b.entries@;
    let ghost am = a@;
    let mut acc = a;
    let mut rest = b.entries;
    proof {
        assert(es.skip(es.len() as int) =~= Seq::<Entry>::empty());
        assert(entries_map(Seq::<Entry>::empty()) =~= Map::<Seq<u8>, Summary>::empty());
        lemma_merge_maps_empty(am);
    }
    while rest.len() > 0
        invariant
            ascending(es),
            stations_wf(es),
            rest@ == es.take(rest@.len() as int),
            rest@.len() <= es.len(),
            acc.wf(),
            acc@ == merge_maps(am, entries_map(es.skip(rest@.len() as int))),
            can_merge_maps(am, entries_map(es)),
        decreases rest@.len(),
    {
        let ghost n = rest@.len() - 1;
        let entry = rest.pop().unwrap();
        proof {
            assert(entry == es[n]);
            assert(rest@ =~= es.take(n));
            lemma_entries_map_skip(es, n);
            lemma_lookup(es, n);
            let done = entries_map(es.skip(n + 1));
            lemma_merge_maps_insert(am, done, key_at(es, n), es[n].station@);
            assert(entries_map(es).contains_key(key_at(es, n)));
            assert(can_record(am, key_at(es, n), es[n].station@));
        }
        acc.absorb(entry.key, entry.station);
    }
    proof {
        assert(es.skip(0) == es);
    }
    acc
}

} // verus!
