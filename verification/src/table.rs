//! The station table: one accumulator per station name, names in ascending
//! order. Its mathematical value is a finite map from names to accumulators
//! in which an absent name stands for the identity accumulator.

use crate::station::identity_view;
use crate::station::lemma_merge_associative;
use crate::station::lemma_merge_commutative;
use crate::station::lemma_merge_valid;
use crate::station::merge_spec;
use crate::station::single_view;
use crate::station::valid_view;
use crate::station::Station;
use crate::station::StationView;
use vstd::prelude::*;

verus! {

/// Mathematical value of a station table.
pub type TableView = Map<Seq<u8>, StationView>;

/// `a` and `b` agree on their first `k` bytes, and there `a` ends or holds
/// the smaller byte.
pub open spec fn parts_before(a: Seq<u8>, b: Seq<u8>, k: int) -> bool {
    &&& 0 <= k <= a.len()
    &&& k < b.len()
    &&& forall|j: int| 0 <= j < k ==> a[j] == b[j]
    &&& k < a.len() ==> a[k] < b[k]
}

/// Lexicographic order on names, byte by byte: `a` comes strictly before `b`.
pub open spec fn key_before(a: Seq<u8>, b: Seq<u8>) -> bool {
    exists|k: int| parts_before(a, b, k)
}

/// Every name comes strictly before all the names after it.
pub open spec fn ascending(keys: Seq<Seq<u8>>) -> bool {
    forall|i: int, j: int|
        0 <= i < j < keys.len() ==> key_before(#[trigger] keys[i], #[trigger] keys[j])
}

/// The accumulator that a table holds for `key`: the identity if it has none.
pub open spec fn station_of(table: TableView, key: Seq<u8>) -> StationView {
    if table.dom().contains(key) {
        table[key]
    } else {
        identity_view()
    }
}

/// A table is valid when it is finite and each of its accumulators is valid
/// and has at least one observation.
pub open spec fn valid_table(table: TableView) -> bool {
    &&& table.dom().finite()
    &&& forall|key: Seq<u8>| #[trigger]
        table.dom().contains(key) ==> valid_view(table[key]) && table[key].count >= 1
}

/// The table after `station` has been merged into the entry of `key`.
pub open spec fn merge_entry(table: TableView, key: Seq<u8>, station: StationView) -> TableView {
    table.insert(key, merge_spec(station_of(table, key), station))
}

/// The table after one observation of `key`.
pub open spec fn insert_spec(table: TableView, key: Seq<u8>, value: int) -> TableView {
    merge_entry(table, key, single_view(value))
}

/// Union of two tables; a name that both hold gets the merged accumulator.
pub open spec fn merge_tables(a: TableView, b: TableView) -> TableView {
    Map::new(
        |key: Seq<u8>| a.dom().contains(key) || b.dom().contains(key),
        |key: Seq<u8>| merge_spec(station_of(a, key), station_of(b, key)),
    )
}

/// No name comes before itself.
pub proof fn lemma_key_before_irreflexive(a: Seq<u8>)
    ensures
        !key_before(a, a),
{
}

/// The order on names is transitive.
pub proof fn lemma_key_before_transitive(a: Seq<u8>, b: Seq<u8>, c: Seq<u8>)
    requires
        key_before(a, b),
        key_before(b, c),
    ensures
        key_before(a, c),
{
    let k1 = choose|k: int| parts_before(a, b, k);
    let k2 = choose|k: int| parts_before(b, c, k);
    let k = if k1 <= k2 { k1 } else { k2 };
    assert(parts_before(a, c, k));
}

/// Of two names, at most one comes before the other.
pub proof fn lemma_key_before_asymmetric(a: Seq<u8>, b: Seq<u8>)
    requires
        key_before(a, b),
    ensures
        !key_before(b, a),
{
    if key_before(b, a) {
        lemma_key_before_transitive(a, b, a);
        lemma_key_before_irreflexive(a);
    }
}

/// Merging an entry into a valid table leaves a valid table.
pub proof fn lemma_merge_entry_valid(table: TableView, key: Seq<u8>, station: StationView)
    requires
        valid_table(table),
        valid_view(station),
        station.count >= 1,
    ensures
        valid_table(merge_entry(table, key, station)),
{
    lemma_merge_valid(station_of(table, key), station);
}

/// Merging valid tables leaves a valid table.
pub proof fn lemma_merge_tables_valid(a: TableView, b: TableView)
    requires
        valid_table(a),
        valid_table(b),
    ensures
        valid_table(merge_tables(a, b)),
{
    let m = merge_tables(a, b);
    assert(m.dom() =~= a.dom().union(b.dom()));
    assert forall|key: Seq<u8>| #[trigger] m.dom().contains(key) implies valid_view(m[key])
        && m[key].count >= 1 by {
        lemma_merge_valid(station_of(a, key), station_of(b, key));
    }
}

/// The empty table is neutral on both sides of a valid table.
pub proof fn lemma_merge_tables_identity(a: TableView)
    requires
        valid_table(a),
    ensures
        merge_tables(a, Map::empty()) == a,
        merge_tables(Map::empty(), a) == a,
{
}

/// Merging tables is associative.
pub proof fn lemma_merge_tables_associative(a: TableView, b: TableView, c: TableView)
    ensures
        merge_tables(merge_tables(a, b), c) == merge_tables(a, merge_tables(b, c)),
{
    let left = merge_tables(merge_tables(a, b), c);
    let right = merge_tables(a, merge_tables(b, c));
    assert forall|key: Seq<u8>| left.dom().contains(key) implies #[trigger] left[key]
        == right[key] by {
        lemma_merge_associative(station_of(a, key), station_of(b, key), station_of(c, key));
        lemma_station_of_merged(a, b, key);
        lemma_station_of_merged(b, c, key);
    }
}

/// Merging valid tables is commutative.
pub proof fn lemma_merge_tables_commutative(a: TableView, b: TableView)
    requires
        valid_table(a),
        valid_table(b),
    ensures
        merge_tables(a, b) == merge_tables(b, a),
{
    assert forall|key: Seq<u8>| merge_spec(station_of(a, key), station_of(b, key)) == merge_spec(
        station_of(b, key),
        station_of(a, key),
    ) by {
        lemma_merge_commutative(station_of(a, key), station_of(b, key));
    }
}

/// For every name, the merged table holds as many observations as the two
/// tables held together.
pub proof fn lemma_merge_tables_count(a: TableView, b: TableView, key: Seq<u8>)
    ensures
        station_of(merge_tables(a, b), key).count == station_of(a, key).count + station_of(
            b,
            key,
        ).count,
{
}

/// What a merged table holds for a name is the merge of what the two held.
pub proof fn lemma_station_of_merged(a: TableView, b: TableView, key: Seq<u8>)
    ensures
        station_of(merge_tables(a, b), key) == merge_spec(station_of(a, key), station_of(b, key)),
{
}

/// Merging an entry into the right-hand table before the tables are merged
/// gives what merging it into the merged table gives.
pub proof fn lemma_merge_entry_commutes(
    a: TableView,
    b: TableView,
    key: Seq<u8>,
    station: StationView,
)
    ensures
        merge_entry(merge_tables(a, b), key, station) == merge_tables(
            a,
            merge_entry(b, key, station),
        ),
{
    lemma_merge_associative(station_of(a, key), station_of(b, key), station);
    assert(merge_entry(merge_tables(a, b), key, station) =~= merge_tables(
        a,
        merge_entry(b, key, station),
    ));
}

/// Merging an entry into the left-hand table before valid tables are merged
/// gives what merging it into the merged table gives.
pub proof fn lemma_merge_entry_commutes_left(
    a: TableView,
    b: TableView,
    key: Seq<u8>,
    station: StationView,
)
    requires
        valid_table(a),
        valid_table(b),
        valid_view(station),
    ensures
        merge_entry(merge_tables(a, b), key, station) == merge_tables(
            merge_entry(a, key, station),
            b,
        ),
{
    let x = station_of(a, key);
    let y = station_of(b, key);
    lemma_merge_associative(x, y, station);
    lemma_merge_commutative(y, station);
    lemma_merge_associative(x, station, y);
    assert(merge_entry(merge_tables(a, b), key, station) =~= merge_tables(
        merge_entry(a, key, station),
        b,
    ));
}

/// The table that holds `values[i]` for `keys[i]`.
pub open spec fn table_of(keys: Seq<Seq<u8>>, values: Seq<StationView>) -> TableView {
    Map::new(|key: Seq<u8>| keys.contains(key), |key: Seq<u8>| values[keys.index_of(key)])
}

/// In an ascending sequence every name stands at one place only.
pub proof fn lemma_ascending_distinct(keys: Seq<Seq<u8>>, i: int, j: int)
    requires
        ascending(keys),
        0 <= i < keys.len(),
        0 <= j < keys.len(),
        keys[i] == keys[j],
    ensures
        i == j,
{
    lemma_key_before_irreflexive(keys[i]);
}

/// The table of ascending names holds the `i`-th value for the `i`-th name.
pub proof fn lemma_table_of_lookup(keys: Seq<Seq<u8>>, values: Seq<StationView>, i: int)
    requires
        ascending(keys),
        0 <= i < keys.len(),
    ensures
        table_of(keys, values).dom().contains(keys[i]),
        table_of(keys, values)[keys[i]] == values[i],
{
    lemma_ascending_distinct(keys, i, keys.index_of(keys[i]));
}

/// The table of a sequence of names is finite.
pub proof fn lemma_table_of_finite(keys: Seq<Seq<u8>>, values: Seq<StationView>)
    ensures
        table_of(keys, values).dom().finite(),
{
    vstd::seq_lib::seq_to_set_is_finite(keys);
}

/// Replacing the `i`-th value replaces the entry of the `i`-th name.
proof fn lemma_table_of_update(
    keys: Seq<Seq<u8>>,
    values: Seq<StationView>,
    i: int,
    value: StationView,
)
    requires
        ascending(keys),
        keys.len() == values.len(),
        0 <= i < keys.len(),
    ensures
        table_of(keys, values.update(i, value)) == table_of(keys, values).insert(keys[i], value),
{
    let before = table_of(keys, values);
    let after = table_of(keys, values.update(i, value));
    assert forall|key: Seq<u8>| after.dom().contains(key) implies #[trigger] after[key]
        == before.insert(keys[i], value)[key] by {
        let j = keys.index_of(key);
        lemma_table_of_lookup(keys, values, j);
        lemma_table_of_lookup(keys, values.update(i, value), j);
        if key == keys[i] {
            lemma_ascending_distinct(keys, i, j);
        }
    }
}

/// Putting a new name and its value at the same place of both sequences adds
/// that entry to the table.
proof fn lemma_table_of_insert(
    keys: Seq<Seq<u8>>,
    values: Seq<StationView>,
    i: int,
    key: Seq<u8>,
    value: StationView,
)
    requires
        ascending(keys),
        ascending(keys.insert(i, key)),
        keys.len() == values.len(),
        0 <= i <= keys.len(),
    ensures
        !keys.contains(key),
        table_of(keys.insert(i, key), values.insert(i, value)) == table_of(keys, values).insert(
            key,
            value,
        ),
{
    let keys2 = keys.insert(i, key);
    let values2 = values.insert(i, value);
    let before = table_of(keys, values);
    let after = table_of(keys2, values2);
    assert(keys2[i] == key);
    if keys.contains(key) {
        let j = keys.index_of(key);
        let j2 = if j < i { j } else { j + 1 };
        lemma_ascending_distinct(keys2, i, j2);
    }
    assert forall|name: Seq<u8>| after.dom().contains(name) <==> before.insert(
        key,
        value,
    ).dom().contains(name) by {
        if keys.contains(name) {
            let j = keys.index_of(name);
            assert(keys2[if j < i { j } else { j + 1 }] == name);
        }
    }
    assert forall|name: Seq<u8>| after.dom().contains(name) implies #[trigger] after[name]
        == before.insert(key, value)[name] by {
        let j2 = keys2.index_of(name);
        lemma_table_of_lookup(keys2, values2, j2);
        if j2 < i {
            lemma_table_of_lookup(keys, values, j2);
        } else if j2 > i {
            lemma_table_of_lookup(keys, values, j2 - 1);
        }
    }
}

/// Two ascending sequences that hold the same names are the same sequence.
pub proof fn lemma_ascending_unique(a: Seq<Seq<u8>>, b: Seq<Seq<u8>>)
    requires
        ascending(a),
        ascending(b),
        forall|key: Seq<u8>| a.contains(key) <==> b.contains(key),
    ensures
        a == b,
    decreases a.len(),
{
    if a.len() == 0 {
        if b.len() > 0 {
            assert(b.contains(b[0]));
        }
    } else {
        let a_top = a.len() - 1;
        assert(a.contains(a[a_top]));
        let b_top = b.len() - 1;
        assert(b.contains(b[b_top]));
        let j = b.index_of(a[a_top]);
        let i = a.index_of(b[b_top]);
        if j < b_top {
            if i < a_top {
                lemma_key_before_asymmetric(a[i], a[a_top]);
            } else {
                lemma_key_before_irreflexive(a[a_top]);
            }
        }
        let a_rest = a.drop_last();
        let b_rest = b.drop_last();
        assert forall|key: Seq<u8>| a_rest.contains(key) <==> b_rest.contains(key) by {
            if a_rest.contains(key) {
                let x = a_rest.index_of(key);
                assert(a.contains(key));
                let y = b.index_of(key);
                if y == b_top {
                    lemma_ascending_distinct(a, x, a_top);
                }
                assert(b_rest[y] == key);
            }
            if b_rest.contains(key) {
                let y = b_rest.index_of(key);
                assert(b.contains(key));
                let x = a.index_of(key);
                if x == a_top {
                    lemma_ascending_distinct(b, y, b_top);
                }
                assert(a_rest[x] == key);
            }
        }
        assert(ascending(a_rest) && ascending(b_rest));
        lemma_ascending_unique(a_rest, b_rest);
        assert(a =~= a_rest.push(a[a_top]));
    }
}

/// The names of a table in ascending order.
pub open spec fn sorted_keys(table: TableView) -> Seq<Seq<u8>> {
    choose|keys: Seq<Seq<u8>>|
        ascending(keys) && forall|key: Seq<u8>| keys.contains(key) <==> table.dom().contains(key)
}

/// The accumulators of a table, in the ascending order of their names.
pub open spec fn sorted_values(table: TableView) -> Seq<StationView> {
    Seq::new(sorted_keys(table).len(), |i: int| table[sorted_keys(table)[i]])
}

/// How one name stands to another in the order on names.
pub enum KeyOrder {
    Before,
    Same,
    After,
}

/// Compares two names byte by byte.
pub fn key_order(a: &[u8], b: &[u8]) -> (r: KeyOrder)
    ensures
        match r {
            KeyOrder::Before => key_before(a@, b@),
            KeyOrder::Same => a@ == b@,
            KeyOrder::After => key_before(b@, a@),
        },
{
    let mut at: usize = 0;
    while at < a.len() && at < b.len()
        invariant
            at <= a.len(),
            at <= b.len(),
            forall|j: int| 0 <= j < at ==> a@[j] == b@[j],
        decreases a.len() - at,
    {
        if a[at] < b[at] {
            assert(parts_before(a@, b@, at as int));
            return KeyOrder::Before;
        }
        if a[at] > b[at] {
            assert(parts_before(b@, a@, at as int));
            return KeyOrder::After;
        }
        at += 1;
    }
    if at < b.len() {
        assert(parts_before(a@, b@, at as int));
        KeyOrder::Before
    } else if at < a.len() {
        assert(parts_before(b@, a@, at as int));
        KeyOrder::After
    } else {
        KeyOrder::Same
    }
}

/// One accumulator per station name, the names in ascending order.
#[derive(Clone, Debug)]
pub struct Stations {
    names: Vec<Vec<u8>>,
    stats: Vec<Station>,
}

impl View for Stations {
    type V = TableView;

    open spec fn view(&self) -> TableView {
        table_of(self.keys(), self.values())
    }
}

impl Default for Stations {
    /// The empty table.
    fn default() -> (table: Stations)
        ensures
            table.wf(),
            table@ == Map::<Seq<u8>, StationView>::empty(),
    {
        Stations::new()
    }
}

impl Stations {
    /// The station names, in the order in which the table holds them.
    pub closed spec fn keys(&self) -> Seq<Seq<u8>> {
        Seq::new(self.names@.len(), |i: int| self.names@[i]@)
    }

    /// The accumulators, each at the place of its name in `keys`.
    pub closed spec fn values(&self) -> Seq<StationView> {
        Seq::new(self.stats@.len(), |i: int| self.stats@[i]@)
    }

    /// Well-formedness: a valid accumulator with at least one observation
    /// for each name, and the names in strictly ascending order.
    pub open spec fn wf(&self) -> bool {
        &&& self.keys().len() == self.values().len()
        &&& ascending(self.keys())
        &&& forall|i: int|
            0 <= i < self.values().len() ==> valid_view(#[trigger] self.values()[i])
                && self.values()[i].count >= 1
    }

    /// The view of a well-formed table is a valid table that holds exactly
    /// the entries of `keys` and `values`.
    pub proof fn lemma_view(&self)
        requires
            self.wf(),
        ensures
            valid_table(self@),
            forall|i: int|
                0 <= i < self.keys().len() ==> self@.dom().contains(#[trigger] self.keys()[i])
                    && self@[self.keys()[i]] == self.values()[i],
            forall|key: Seq<u8>|
                self@.dom().contains(key) ==> self.keys().contains(key),
            forall|i: int|
                0 <= i < self.values().len() ==> (#[trigger] self.values()[i]).count <= u64::MAX,
    {
        lemma_table_of_finite(self.keys(), self.values());
        assert forall|i: int| 0 <= i < self.keys().len() implies self@.dom().contains(
            #[trigger] self.keys()[i],
        ) && self@[self.keys()[i]] == self.values()[i] by {
            lemma_table_of_lookup(self.keys(), self.values(), i);
        }
        assert forall|key: Seq<u8>| #[trigger] self@.dom().contains(key) implies valid_view(
            self@[key],
        ) && self@[key].count >= 1 by {
            lemma_table_of_lookup(self.keys(), self.values(), self.keys().index_of(key));
        }
        assert forall|i: int| 0 <= i < self.values().len() implies (
        #[trigger] self.values()[i]).count <= u64::MAX by {
            self.stats@[i].lemma_view_in_range();
        }
    }

    /// A well-formed table holds its names in the one ascending order that
    /// there is, so names and accumulators are determined by the view.
    pub proof fn lemma_entries(&self)
        requires
            self.wf(),
        ensures
            self.keys() == sorted_keys(self@),
            self.values() == sorted_values(self@),
    {
        self.lemma_view();
        let keys = self.keys();
        assert(ascending(keys) && forall|key: Seq<u8>|
            keys.contains(key) <==> self@.dom().contains(key));
        lemma_ascending_unique(keys, sorted_keys(self@));
    }

    /// The empty table.
    pub fn new() -> (table: Stations)
        ensures
            table.wf(),
            table@ == Map::<Seq<u8>, StationView>::empty(),
            table.keys().len() == 0,
    {
        Stations { names: Vec::new(), stats: Vec::new() }
    }

    /// Number of stations.
    pub fn len(&self) -> (n: usize)
        requires
            self.wf(),
        ensures
            n == self.keys().len(),
    {
        self.names.len()
    }

    /// Name of the `i`-th station in ascending order.
    pub fn name(&self, i: usize) -> (name: &[u8])
        requires
            self.wf(),
            i < self.keys().len(),
        ensures
            name@ == self.keys()[i as int],
    {
        self.names[i].as_slice()
    }

    /// Accumulator of the `i`-th station in ascending order.
    pub fn station(&self, i: usize) -> (station: Station)
        requires
            self.wf(),
            i < self.keys().len(),
        ensures
            station@ == self.values()[i as int],
            station.wf(),
            station@.count >= 1,
    {
        self.stats[i]
    }

    /// Place of `name` among the names, and whether the table holds it. For
    /// a name that it does not hold, the place where the name belongs.
    fn locate(&self, name: &[u8]) -> (r: (usize, bool))
        requires
            self.wf(),
        ensures
            r.0 <= self.keys().len(),
            r.1 ==> r.0 < self.keys().len() && self.keys()[r.0 as int] == name@,
            !r.1 ==> forall|i: int| 0 <= i < r.0 ==> key_before(#[trigger] self.keys()[i], name@),
            !r.1 ==> forall|i: int|
                r.0 <= i < self.keys().len() ==> key_before(name@, #[trigger] self.keys()[i]),
    {
        let mut low: usize = 0;
        let mut high: usize = self.names.len();
        while low < high
            invariant
                self.wf(),
                low <= high <= self.keys().len(),
                self.keys().len() == self.names@.len(),
                forall|i: int| 0 <= i < low ==> key_before(#[trigger] self.keys()[i], name@),
                forall|i: int|
                    high <= i < self.keys().len() ==> key_before(name@, #[trigger] self.keys()[i]),
            decreases high - low,
        {
            let mid = low + (high - low) / 2;
            match key_order(self.names[mid].as_slice(), name) {
                KeyOrder::Before => {
                    assert forall|i: int| 0 <= i < mid + 1 implies key_before(
                        #[trigger] self.keys()[i],
                        name@,
                    ) by {
                        if i < mid {
                            lemma_key_before_transitive(
                                self.keys()[i],
                                self.keys()[mid as int],
                                name@,
                            );
                        }
                    }
                    low = mid + 1;
                },
                KeyOrder::Same => {
                    return (mid, true);
                },
                KeyOrder::After => {
                    assert forall|i: int| mid <= i < self.keys().len() implies key_before(
                        name@,
                        #[trigger] self.keys()[i],
                    ) by {
                        if mid < i {
                            lemma_key_before_transitive(
                                name@,
                                self.keys()[mid as int],
                                self.keys()[i],
                            );
                        }
                    }
                    high = mid;
                },
            }
        }
        (low, false)
    }

    /// The accumulator that the table holds for `name`, if any.
    pub fn get(&self, name: &[u8]) -> (r: Option<Station>)
        requires
            self.wf(),
        ensures
            match r {
                Some(station) => self@.dom().contains(name@) && station@ == self@[name@]
                    && station.wf(),
                None => !self@.dom().contains(name@),
            },
    {
        let (at, found) = self.locate(name);
        proof {
            self.lemma_view();
        }
        if found {
            Some(self.stats[at])
        } else {
            proof {
                lemma_key_before_irreflexive(name@);
            }
            None
        }
    }

    /// Merges `station` into the entry of `name`, which is made if the table
    /// has none.
    pub fn add_station(&mut self, name: Vec<u8>, station: Station)
        requires
            old(self).wf(),
            station.wf(),
            station@.count >= 1,
            station_of(old(self)@, name@).count + station@.count <= u64::MAX,
        ensures
            final(self).wf(),
            final(self)@ == merge_entry(old(self)@, name@, station@),
    {
        let (at, found) = self.locate(name.as_slice());
        let ghost keys = self.keys();
        let ghost values = self.values();
        proof {
            self.lemma_view();
        }
        if found {
            let mut merged = self.stats[at];
            merged.add(station);
            self.stats.set(at, merged);
            proof {
                assert(self.values() =~= values.update(at as int, merged@));
                lemma_table_of_update(keys, values, at as int, merged@);
            }
        } else {
            self.names.insert(at, name);
            self.stats.insert(at, station);
            proof {
                let keys2 = keys.insert(at as int, name@);
                assert(self.keys() =~= keys2);
                assert(self.values() =~= values.insert(at as int, station@));
                assert(ascending(keys2));
                lemma_table_of_insert(keys, values, at as int, name@, station@);
            }
        }
    }

    /// Folds one observation into the table.
    pub fn insert_line(self, line: (Vec<u8>, i128)) -> (table: Stations)
        requires
            self.wf(),
            station_of(self@, line.0@).count < u64::MAX,
        ensures
            table.wf(),
            table@ == insert_spec(self@, line.0@, line.1 as int),
            table@.dom().contains(line.0@),
            table@[line.0@].min <= line.1 <= table@[line.0@].max,
            self@.dom().contains(line.0@) ==> table@[line.0@].min <= self@[line.0@].min
                && self@[line.0@].max <= table@[line.0@].max,
    {
        proof {
            self.lemma_view();
        }
        let mut table = self;
        let (name, value) = line;
        table.add_station(name, Station::new(value));
        table
    }

    /// Merges two tables into one.
    pub fn merge(self, other: Stations) -> (table: Stations)
        requires
            self.wf(),
            other.wf(),
            forall|key: Seq<u8>|
                station_of(self@, key).count + station_of(other@, key).count <= u64::MAX,
        ensures
            table.wf(),
            table@ == merge_tables(self@, other@),
    {
        let ghost keys = other.keys();
        let ghost values = other.values();
        let ghost target = merge_tables(self@, other@);
        let mut table = self;
        let mut names = other.names;
        let mut stats = other.stats;
        proof {
            assert(keys.subrange(0, keys.len() as int) == keys);
        }
        while names.len() > 0
            invariant
                table.wf(),
                ascending(keys),
                keys.len() == values.len(),
                names@.len() == stats@.len(),
                names@.len() <= keys.len(),
                forall|i: int| 0 <= i < names@.len() ==> (#[trigger] names@[i])@ == keys[i],
                forall|i: int| 0 <= i < stats@.len() ==> (#[trigger] stats@[i])@ == values[i],
                forall|i: int|
                    0 <= i < values.len() ==> valid_view(#[trigger] values[i]) && values[i].count
                        >= 1,
                forall|key: Seq<u8>| (#[trigger] station_of(target, key)).count <= u64::MAX,
                merge_tables(
                    table@,
                    table_of(
                        keys.subrange(0, names@.len() as int),
                        values.subrange(0, names@.len() as int),
                    ),
                ) == target,
            decreases names@.len(),
        {
            let ghost n = names@.len() as int;
            let ghost before = table@;
            let name = names.pop().unwrap();
            let station = stats.pop().unwrap();
            proof {
                let short_keys = keys.subrange(0, n - 1);
                let short_values = values.subrange(0, n - 1);
                let rest = table_of(short_keys, short_values);
                assert(short_keys.insert(n - 1, name@) =~= keys.subrange(0, n));
                assert(ascending(short_keys) && ascending(keys.subrange(0, n)));
                lemma_table_of_insert(short_keys, short_values, n - 1, name@, station@);
                assert(table_of(keys.subrange(0, n), values.subrange(0, n)) == merge_entry(
                    rest,
                    name@,
                    station@,
                ));
                lemma_merge_entry_commutes(before, rest, name@, station@);
                table.lemma_view();
                lemma_table_of_finite(short_keys, short_values);
                assert(valid_table(rest)) by {
                    assert forall|key: Seq<u8>| #[trigger]
                        rest.dom().contains(key) implies valid_view(rest[key]) && rest[key].count
                        >= 1 by {
                        let i = short_keys.index_of(key);
                        lemma_table_of_lookup(short_keys, short_values, i);
                    }
                }
                lemma_merge_entry_commutes_left(before, rest, name@, station@);
                assert(station_of(target, name@) == merge_spec(
                    station_of(before, name@),
                    station@,
                ));
            }
            table.add_station(name, station);
        }
        proof {
            assert(table_of(keys.subrange(0, 0), values.subrange(0, 0)) =~= Map::<
                Seq<u8>,
                StationView,
            >::empty());
            table.lemma_view();
            lemma_merge_tables_identity(table@);
        }
        table
    }
}

} // verus!
