//! Folding lines into a station table, sequentially and chunk by chunk.
//!
//! The chunks of a partition are folded independently of one another and
//! their tables are merged afterwards; the result is the table that folding
//! all the lines in one pass gives, whatever the partition.

use crate::line::parse_line;
use crate::line::fits;
use crate::line::line_fits;
use crate::line::line_units;
use crate::station::StationView;
use crate::table::insert_spec;
use crate::table::lemma_merge_entry_commutes;
use crate::table::lemma_merge_entry_valid;
use crate::table::lemma_merge_tables_commutative;
use crate::table::lemma_merge_tables_identity;
use crate::table::merge_tables;
use crate::table::station_of;
use crate::table::valid_table;
use crate::table::Stations;
use crate::table::TableView;
use rayon::iter::IntoParallelRefIterator;
use rayon::iter::ParallelIterator;
use vstd::prelude::*;

verus! {

/// Every line fits.
pub open spec fn all_fit(lines: Seq<Seq<u8>>) -> bool {
    forall|i: int| 0 <= i < lines.len() ==> line_fits(#[trigger] lines[i])
}

/// The table after one more line: unchanged unless the line writes a name
/// and a value.
pub open spec fn fold_line(table: TableView, line: Seq<u8>) -> TableView {
    match line_units(line) {
        Some((name, value)) => insert_spec(table, name, value),
        None => table,
    }
}

/// The table of a sequence of lines, folded from the first line to the last.
pub open spec fn fold_lines(lines: Seq<Seq<u8>>) -> TableView
    decreases lines.len(),
{
    if lines.len() == 0 {
        Map::empty()
    } else {
        fold_line(fold_lines(lines.drop_last()), lines.last())
    }
}

/// The tables of a sequence of chunks, merged from the first to the last.
pub open spec fn merge_all(tables: Seq<TableView>) -> TableView
    decreases tables.len(),
{
    if tables.len() == 0 {
        Map::empty()
    } else {
        merge_tables(merge_all(tables.drop_last()), tables.last())
    }
}

/// The lines of a sequence of chunks, in order.
pub open spec fn join_chunks(chunks: Seq<Seq<Seq<u8>>>) -> Seq<Seq<u8>>
    decreases chunks.len(),
{
    if chunks.len() == 0 {
        Seq::empty()
    } else {
        join_chunks(chunks.drop_last()) + chunks.last()
    }
}

/// The byte strings that a sequence of borrowed lines holds.
pub open spec fn lines_view(lines: Seq<&[u8]>) -> Seq<Seq<u8>> {
    Seq::new(lines.len(), |i: int| lines[i]@)
}

/// Folding lines gives a valid table.
pub proof fn lemma_fold_lines_valid(lines: Seq<Seq<u8>>)
    ensures
        valid_table(fold_lines(lines)),
    decreases lines.len(),
{
    if lines.len() > 0 {
        lemma_fold_lines_valid(lines.drop_last());
        match line_units(lines.last()) {
            Some((name, value)) => {
                lemma_merge_entry_valid(
                    fold_lines(lines.drop_last()),
                    name,
                    crate::station::single_view(value),
                );
            },
            None => {},
        }
    }
}

/// No station has more observations than there are lines.
pub proof fn lemma_fold_lines_count(lines: Seq<Seq<u8>>, key: Seq<u8>)
    ensures
        station_of(fold_lines(lines), key).count <= lines.len(),
    decreases lines.len(),
{
    if lines.len() > 0 {
        lemma_fold_lines_count(lines.drop_last(), key);
    }
}

/// Folding two runs of lines apart and merging the tables gives what folding
/// them as one run gives.
pub proof fn lemma_fold_lines_concat(a: Seq<Seq<u8>>, b: Seq<Seq<u8>>)
    ensures
        fold_lines(a + b) == merge_tables(fold_lines(a), fold_lines(b)),
    decreases b.len(),
{
    if b.len() == 0 {
        lemma_fold_lines_valid(a);
        lemma_merge_tables_identity(fold_lines(a));
    } else {
        assert((a + b).drop_last() == a + b.drop_last());
        lemma_fold_lines_concat(a, b.drop_last());
        match line_units(b.last()) {
            Some((name, value)) => {
                lemma_merge_entry_commutes(
                    fold_lines(a),
                    fold_lines(b.drop_last()),
                    name,
                    crate::station::single_view(value),
                );
            },
            None => {},
        }
    }
}

/// Partition invariance: however a run of lines is cut into chunks, merging
/// the tables of the chunks gives the table of the whole run.
pub proof fn lemma_partition_invariance(chunks: Seq<Seq<Seq<u8>>>)
    ensures
        merge_all(chunks.map_values(|chunk: Seq<Seq<u8>>| fold_lines(chunk))) == fold_lines(
            join_chunks(chunks),
        ),
    decreases chunks.len(),
{
    let tables = chunks.map_values(|chunk: Seq<Seq<u8>>| fold_lines(chunk));
    if chunks.len() > 0 {
        lemma_partition_invariance(chunks.drop_last());
        assert(tables.drop_last() == chunks.drop_last().map_values(
            |chunk: Seq<Seq<u8>>| fold_lines(chunk),
        ));
        lemma_fold_lines_concat(join_chunks(chunks.drop_last()), chunks.last());
    }
}

/// A way to combine the tables of chunks: the table of one chunk, or the
/// merge of what two ways give. An empty chunk stands for the empty table.
pub enum MergePlan {
    Chunk(Seq<Seq<u8>>),
    Merge(Box<MergePlan>, Box<MergePlan>),
}

/// The lines of the chunks of a plan, from left to right.
pub open spec fn plan_lines(plan: MergePlan) -> Seq<Seq<u8>>
    decreases plan,
{
    match plan {
        MergePlan::Chunk(lines) => lines,
        MergePlan::Merge(left, right) => plan_lines(*left) + plan_lines(*right),
    }
}

/// The table that a plan gives.
pub open spec fn plan_table(plan: MergePlan) -> TableView
    decreases plan,
{
    match plan {
        MergePlan::Chunk(lines) => fold_lines(lines),
        MergePlan::Merge(left, right) => merge_tables(plan_table(*left), plan_table(*right)),
    }
}

/// However the merges are grouped, a plan gives the table of its lines.
pub proof fn lemma_merge_plan(plan: MergePlan)
    ensures
        plan_table(plan) == fold_lines(plan_lines(plan)),
    decreases plan,
{
    match plan {
        MergePlan::Chunk(lines) => {},
        MergePlan::Merge(left, right) => {
            lemma_merge_plan(*left);
            lemma_merge_plan(*right);
            lemma_fold_lines_concat(plan_lines(*left), plan_lines(*right));
        },
    }
}

/// The table of a run of lines does not depend on the order of the lines.
pub proof fn lemma_fold_lines_permutation(a: Seq<Seq<u8>>, b: Seq<Seq<u8>>)
    requires
        a.to_multiset() == b.to_multiset(),
    ensures
        fold_lines(a) == fold_lines(b),
    decreases b.len(),
{
    a.to_multiset_ensures();
    b.to_multiset_ensures();
    if b.len() == 0 {
        assert(a == b);
    } else {
        let line = b.last();
        let b_rest = b.drop_last();
        b_rest.to_multiset_ensures();
        assert(b == b_rest.push(line));
        assert(b.to_multiset().count(line) > 0);
        let i = a.index_of(line);
        let head = a.subrange(0, i);
        let tail = a.subrange(i + 1, a.len() as int);
        let one = seq![line];
        assert(a.remove(i) == head + tail);
        assert((head + tail).to_multiset() == b_rest.to_multiset()) by {
            assert(b.to_multiset().remove(line) =~= b_rest.to_multiset());
        }
        lemma_fold_lines_permutation(head + tail, b_rest);
        assert(a == head + (one + tail));
        lemma_fold_lines_concat(head, one + tail);
        lemma_fold_lines_swap(one, tail);
        lemma_fold_lines_concat(head, tail + one);
        assert(head + (tail + one) == (head + tail).push(line));
        assert((head + tail).push(line).drop_last() == head + tail);
    }
}

/// Partition invariance in full: however the lines are cut into chunks, in
/// whatever order the chunks are taken and however their tables are grouped
/// for merging, the result is the table of the sequential fold.
pub proof fn lemma_any_order_and_grouping(plan: MergePlan, lines: Seq<Seq<u8>>)
    requires
        plan_lines(plan).to_multiset() == lines.to_multiset(),
    ensures
        plan_table(plan) == fold_lines(lines),
{
    lemma_merge_plan(plan);
    lemma_fold_lines_permutation(plan_lines(plan), lines);
}

/// The order of two chunks does not matter to the table of their lines.
pub proof fn lemma_fold_lines_swap(a: Seq<Seq<u8>>, b: Seq<Seq<u8>>)
    ensures
        fold_lines(a + b) == fold_lines(b + a),
{
    lemma_fold_lines_concat(a, b);
    lemma_fold_lines_concat(b, a);
    lemma_fold_lines_valid(a);
    lemma_fold_lines_valid(b);
    lemma_merge_tables_commutative(fold_lines(a), fold_lines(b));
}

/// A line that writes no name and value contributes nothing, wherever it
/// stands.
pub proof fn lemma_malformed_line_ignored(
    before: Seq<Seq<u8>>,
    line: Seq<u8>,
    after: Seq<Seq<u8>>,
)
    requires
        line_units(line) is None,
    ensures
        fold_lines(before + seq![line] + after) == fold_lines(before + after),
{
    let one = seq![line];
    assert(fold_lines(one.drop_last()) == Map::<Seq<u8>, StationView>::empty());
    lemma_fold_lines_concat(before, one);
    lemma_fold_lines_valid(before);
    lemma_merge_tables_identity(fold_lines(before));
    lemma_fold_lines_concat(before + one, after);
    lemma_fold_lines_concat(before, after);
}

/// Folds the lines `lines[from..to]` into a fresh table, one after another.
pub fn fold_chunk(lines: &[&[u8]], from: usize, to: usize) -> (table: Stations)
    requires
        from <= to <= lines.len(),
        all_fit(lines_view(lines@)),
    ensures
        table.wf(),
        table@ == fold_lines(lines_view(lines@).subrange(from as int, to as int)),
{
    let ghost chunk = lines_view(lines@).subrange(from as int, to as int);
    let mut table = Stations::new();
    let mut at = from;
    while at < to
        invariant
            from <= at <= to <= lines.len(),
            all_fit(lines_view(lines@)),
            chunk == lines_view(lines@).subrange(from as int, to as int),
            table.wf(),
            table@ == fold_lines(chunk.subrange(0, at - from)),
        decreases to - at,
    {
        let ghost done = chunk.subrange(0, at - from);
        proof {
            let next = chunk.subrange(0, at - from + 1);
            assert(next.drop_last() == done);
            assert(line_fits(lines_view(lines@)[at as int]));
        }
        match parse_line(lines[at]) {
            Some(entry) => {
                proof {
                    lemma_fold_lines_count(done, entry.0@);
                }
                table = table.insert_line(entry);
            },
            None => {},
        }
        at += 1;
    }
    proof {
        assert(chunk.subrange(0, to - from) == chunk);
    }
    table
}

/// Lines per chunk when `len` lines are shared out among `workers`: the
/// quotient rounded up, and at least one. No workers count as one.
pub open spec fn chunk_size(len: nat, workers: nat) -> nat {
    let shares: nat = if workers == 0 { 1 } else { workers };
    let size: nat = len / shares + if len % shares == 0 { 0nat } else { 1nat };
    if size == 0 { 1 } else { size }
}

/// Number of chunks of `size` lines that `len` lines make; the last chunk
/// may be shorter.
pub open spec fn chunk_count(len: nat, size: nat) -> nat {
    if len == 0 {
        0
    } else {
        ((len - 1) / (size as int) + 1) as nat
    }
}

/// First line and end of the `i`-th chunk of `size` lines among `len` lines.
pub open spec fn chunk_bounds(len: nat, size: nat, i: int) -> (int, int) {
    (i * size, if i * size + size < len { i * size + size } else { len as int })
}

/// The ranges follow one another without a gap from the first line to the
/// last, and none of them is empty.
pub open spec fn is_partition(ranges: Seq<(usize, usize)>, len: nat) -> bool {
    &&& len == 0 <==> ranges.len() == 0
    &&& ranges.len() > 0 ==> ranges[0].0 == 0 && ranges[ranges.len() - 1].1 == len
    &&& forall|i: int| 0 <= i < ranges.len() ==> (#[trigger] ranges[i]).0 < ranges[i].1 <= len
    &&& forall|i: int|
        0 <= i < ranges.len() - 1 ==> (#[trigger] ranges[i]).1 == ranges[i + 1].0
}

/// Per-chunk line count for `len` lines and `workers` workers.
pub fn chunk_size_of(len: usize, workers: usize) -> (size: usize)
    ensures
        size == chunk_size(len as nat, workers as nat),
        size >= 1,
{
    let shares: usize = if workers == 0 { 1 } else { workers };
    let whole = len / shares;
    let rest = len % shares;
    proof {
        vstd::arithmetic::div_mod::lemma_fundamental_div_mod(len as int, shares as int);
        assert(rest != 0 ==> whole < len) by (nonlinear_arith)
            requires
                len == shares * whole + rest,
                shares >= 1,
                rest >= 0,
        ;
    }
    let size: usize = if rest == 0 { whole } else { whole + 1 };
    if size == 0 { 1 } else { size }
}

/// Cuts the line numbers `0..len` into consecutive chunks for `workers`
/// workers.
pub fn chunk_ranges(len: usize, workers: usize) -> (ranges: Vec<(usize, usize)>)
    ensures
        ranges@.len() == chunk_count(len as nat, chunk_size(len as nat, workers as nat)),
        forall|i: int|
            0 <= i < ranges@.len() ==> ((#[trigger] ranges@[i]).0 as int, ranges@[i].1 as int)
                == chunk_bounds(len as nat, chunk_size(len as nat, workers as nat), i),
        is_partition(ranges@, len as nat),
{
    let size = chunk_size_of(len, workers);
    let mut ranges: Vec<(usize, usize)> = Vec::new();
    let mut start: usize = 0;
    assert(0 * size == 0);
    while start < len
        invariant
            size >= 1,
            start <= len,
            start == if ranges@.len() * size < len { ranges@.len() * size } else { len as int },
            ranges@.len() > 0 ==> (ranges@.len() - 1) * size < len,
            ranges@.len() > 0 ==> ranges@[0].0 == 0 && ranges@[ranges@.len() - 1].1 == start,
            forall|i: int|
                0 <= i < ranges@.len() ==> ((#[trigger] ranges@[i]).0 as int, ranges@[i].1 as int)
                    == chunk_bounds(len as nat, size as nat, i),
            forall|i: int|
                0 <= i < ranges@.len() ==> (#[trigger] ranges@[i]).0 < ranges@[i].1 <= len,
            forall|i: int|
                0 <= i < ranges@.len() - 1 ==> (#[trigger] ranges@[i]).1 == ranges@[i + 1].0,
        decreases len - start,
    {
        let end: usize = if len - start <= size { len } else { start + size };
        proof {
            let n = ranges@.len() as int;
            assert((n + 1) * size == n * size + size) by (nonlinear_arith);
        }
        ranges.push((start, end));
        start = end;
    }
    proof {
        let n = ranges@.len() as int;
        if len > 0 {
            let rest = len - 1 - (n - 1) * size;
            vstd::arithmetic::div_mod::lemma_fundamental_div_mod_converse(
                (len - 1) as int,
                size as int,
                n - 1,
                rest,
            );
        }
    }
    ranges
}

/// Folds each of the ranges into a table of its own, the ranges side by side
/// on rayon's thread pool.
///
/// Rests on `par_iter`, `map` and `collect` of rayon's parallel iterators:
/// collected into a vector, the results stand in the order of the items they
/// were made from, one for each item, and each is what `fold_chunk` returns
/// for its range.
#[verifier::external_body]
fn fold_ranges(lines: &[&[u8]], ranges: &Vec<(usize, usize)>) -> (tables: Vec<Stations>)
    requires
        forall|i: int|
            0 <= i < ranges@.len() ==> (#[trigger] ranges@[i]).0 <= ranges@[i].1 <= lines.len(),
        all_fit(lines_view(lines@)),
    ensures
        tables@.len() == ranges@.len(),
        forall|i: int|
            0 <= i < tables@.len() ==> (#[trigger] tables@[i]).wf() && tables@[i]@ == fold_lines(
                lines_view(lines@).subrange(ranges@[i].0 as int, ranges@[i].1 as int),
            ),
{
    ranges.par_iter().map(|range| fold_chunk(lines, range.0, range.1)).collect()
}

/// Aggregates the lines: cuts them into chunks for `workers` workers, folds
/// the chunks in parallel and merges their tables. The table is that of the
/// sequential fold of all the lines, whatever `workers` is.
pub fn aggregate(lines: &[&[u8]], workers: usize) -> (table: Stations)
    requires
        all_fit(lines_view(lines@)),
    ensures
        table.wf(),
        table@ == fold_lines(lines_view(lines@)),
{
    let ghost all = lines_view(lines@);
    let ranges = chunk_ranges(lines.len(), workers);
    let mut parts = fold_ranges(lines, &ranges);
    let mut table = Stations::new();
    while parts.len() > 0
        invariant
            all == lines_view(lines@),
            all.len() == lines.len(),
            is_partition(ranges@, lines.len() as nat),
            parts@.len() <= ranges@.len(),
            forall|i: int|
                0 <= i < parts@.len() ==> (#[trigger] parts@[i]).wf() && parts@[i]@ == fold_lines(
                    all.subrange(ranges@[i].0 as int, ranges@[i].1 as int),
                ),
            table.wf(),
            table@ == fold_lines(
                all.subrange(
                    if parts@.len() < ranges@.len() {
                        ranges@[parts@.len() as int].0 as int
                    } else {
                        all.len() as int
                    },
                    all.len() as int,
                ),
            ),
        decreases parts@.len(),
    {
        let ghost n = parts@.len() as int;
        let ghost boundary = if n < ranges@.len() {
            ranges@[n].0 as int
        } else {
            all.len() as int
        };
        let part = parts.pop().unwrap();
        proof {
            let from = ranges@[n - 1].0 as int;
            let chunk = all.subrange(from, boundary);
            let rest = all.subrange(boundary, all.len() as int);
            assert(chunk + rest == all.subrange(from, all.len() as int));
            lemma_fold_lines_concat(chunk, rest);
            assert forall|key: Seq<u8>|
                station_of(part@, key).count + station_of(table@, key).count <= u64::MAX by {
                lemma_fold_lines_count(chunk, key);
                lemma_fold_lines_count(rest, key);
            }
        }
        table = part.merge(table);
    }
    proof {
        assert(all.subrange(0, all.len() as int) == all);
    }
    table
}

/// Tells whether every line fits.
pub fn lines_fit(lines: &[&[u8]]) -> (r: bool)
    ensures
        r == all_fit(lines_view(lines@)),
{
    let mut at: usize = 0;
    while at < lines.len()
        invariant
            at <= lines.len(),
            forall|i: int| 0 <= i < at ==> line_fits(#[trigger] lines_view(lines@)[i]),
        decreases lines.len() - at,
    {
        if !fits(lines[at]) {
            assert(!line_fits(lines_view(lines@)[at as int]));
            return false;
        }
        at += 1;
    }
    true
}

/// Aggregates the lines if every one of them fits; `None` if one writes a
/// value whose magnitude is beyond what a measurement holds.
pub fn try_aggregate(lines: &[&[u8]], workers: usize) -> (r: Option<Stations>)
    ensures
        r is Some <==> all_fit(lines_view(lines@)),
        match r {
            Some(table) => table.wf() && table@ == fold_lines(lines_view(lines@)),
            None => true,
        },
{
    if lines_fit(lines) {
        Some(aggregate(lines, workers))
    } else {
        None
    }
}

} // verus!
