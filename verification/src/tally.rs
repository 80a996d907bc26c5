//! Counting observations: none is lost and none is counted twice, neither
//! by a merge of tables nor by a fold of lines.

use crate::aggregate::fold_lines;
use crate::aggregate::lemma_fold_lines_valid;
use crate::line::line_units;
use crate::station::StationView;
use crate::table::lemma_merge_entry_commutes;
use crate::table::lemma_merge_tables_identity;
use crate::table::merge_entry;
use crate::table::merge_tables;
use crate::table::station_of;
use crate::table::valid_table;
use crate::table::TableView;
use vstd::prelude::*;

verus! {

/// Number of observations that a finite table holds, over all its stations.
pub open spec fn observations(table: TableView) -> nat
    decreases table.dom().len(),
    when table.dom().finite()
{
    if table.dom().len() == 0 {
        0
    } else {
        let key = table.dom().choose();
        table[key].count + observations(table.remove(key))
    }
}

/// Number of lines that write a name and a value.
pub open spec fn parsed_lines(lines: Seq<Seq<u8>>) -> nat
    decreases lines.len(),
{
    if lines.len() == 0 {
        0
    } else {
        parsed_lines(lines.drop_last()) + if line_units(lines.last()) is Some {
            1nat
        } else {
            0nat
        }
    }
}

/// The observations of a table are those of any one station and those of
/// the table without it.
pub proof fn lemma_observations_remove(table: TableView, key: Seq<u8>)
    requires
        table.dom().finite(),
        table.dom().contains(key),
    ensures
        observations(table) == table[key].count + observations(table.remove(key)),
    decreases table.dom().len(),
{
    let first = table.dom().choose();
    if first != key {
        lemma_observations_remove(table.remove(first), key);
        lemma_observations_remove(table.remove(key), first);
        assert(table.remove(first).remove(key) =~= table.remove(key).remove(first));
    }
}

/// Setting the entry of a name changes the observations by the difference
/// of the new count and the old.
pub proof fn lemma_observations_insert(table: TableView, key: Seq<u8>, station: StationView)
    requires
        table.dom().finite(),
    ensures
        observations(table.insert(key, station)) + station_of(table, key).count == observations(
            table,
        ) + station.count,
{
    let after = table.insert(key, station);
    lemma_observations_remove(after, key);
    assert(after.remove(key) =~= table.remove(key));
    if table.dom().contains(key) {
        lemma_observations_remove(table, key);
    } else {
        assert(table.remove(key) =~= table);
    }
}

/// Merging an accumulator into a table adds its observations.
pub proof fn lemma_merge_entry_observations(table: TableView, key: Seq<u8>, station: StationView)
    requires
        table.dom().finite(),
    ensures
        observations(merge_entry(table, key, station)) == observations(table) + station.count,
{
    lemma_observations_insert(
        table,
        key,
        crate::station::merge_spec(station_of(table, key), station),
    );
}

/// Count conservation: the merged table holds as many observations as the
/// two tables held together.
pub proof fn lemma_merge_tables_observations(a: TableView, b: TableView)
    requires
        valid_table(a),
        valid_table(b),
    ensures
        observations(merge_tables(a, b)) == observations(a) + observations(b),
    decreases b.dom().len(),
{
    if b.dom().len() == 0 {
        assert(b =~= Map::<Seq<u8>, StationView>::empty());
        lemma_merge_tables_identity(a);
    } else {
        let key = b.dom().choose();
        let rest = b.remove(key);
        assert(b =~= merge_entry(rest, key, b[key]));
        lemma_merge_tables_observations(a, rest);
        lemma_merge_entry_commutes(a, rest, key, b[key]);
        assert(merge_tables(a, rest).dom() =~= a.dom().union(rest.dom()));
        lemma_merge_entry_observations(merge_tables(a, rest), key, b[key]);
        lemma_observations_remove(b, key);
    }
}

/// The table of a run of lines holds one observation for each line that
/// writes a name and a value.
pub proof fn lemma_fold_lines_observations(lines: Seq<Seq<u8>>)
    ensures
        observations(fold_lines(lines)) == parsed_lines(lines),
    decreases lines.len(),
{
    if lines.len() > 0 {
        lemma_fold_lines_observations(lines.drop_last());
        lemma_fold_lines_valid(lines.drop_last());
        match line_units(lines.last()) {
            Some((name, value)) => {
                lemma_merge_entry_observations(
                    fold_lines(lines.drop_last()),
                    name,
                    crate::station::single_view(value),
                );
            },
            None => {},
        }
    } else {
    }
}

} // verus!
