//! The summary of a station table: `{name=min/mean/max, ...}`, the names in
//! ascending order and every number with one digit after the point. This is
//! the one place where numbers are rounded: each to the nearest tenth, halves
//! away from zero.

use crate::line::MINUS;
use crate::line::POINT;
use crate::line::ZERO;
use crate::station::mean_in;
use crate::station::round_to;
use crate::station::rounded_quotient;
use crate::station::Station;
use crate::station::StationView;
use crate::table::sorted_keys;
use crate::table::sorted_values;
use crate::table::Stations;
use crate::table::TableView;
use crate::wide::HALF;
use vstd::prelude::*;

verus! {

/// Units in a tenth.
pub const UNITS_PER_TENTH: u64 = 100_000_000;

/// Opens the summary: `{`.
pub const OPEN: u8 = 123;

/// Closes the summary: `}`.
pub const CLOSE: u8 = 125;

/// Stands between a name and its numbers: `=`.
pub const EQUALS: u8 = 61;

/// Stands between the numbers of an entry: `/`.
pub const SLASH: u8 = 47;

/// First byte of the separator of two entries: `,`.
pub const COMMA: u8 = 44;

/// Second byte of the separator of two entries: a space.
pub const SPACE: u8 = 32;

/// The decimal digits of `n`, without leading zeros; `0` for zero.
pub open spec fn decimal_digits(n: nat) -> Seq<u8>
    decreases n,
{
    if n < 10 {
        seq![(ZERO + n) as u8]
    } else {
        decimal_digits(n / 10).push((ZERO + n % 10) as u8)
    }
}

/// A number of tenths with one digit after the point, and a minus sign in
/// front when it is below zero.
pub open spec fn render_tenths(tenths: int) -> Seq<u8> {
    let magnitude: nat = if tenths < 0 { (-tenths) as nat } else { tenths as nat };
    let sign: Seq<u8> = if tenths < 0 { seq![MINUS] } else { Seq::empty() };
    sign + decimal_digits(magnitude / 10) + seq![POINT, (ZERO + magnitude % 10) as u8]
}

/// A number of units rounded to tenths, halves away from zero.
pub open spec fn tenths_of(units: int) -> int {
    rounded_quotient(units, UNITS_PER_TENTH as int)
}

/// The mean of a station rounded to tenths: the exact total over the count,
/// rounded once, halves away from zero.
pub open spec fn mean_tenths(station: StationView) -> int {
    mean_in(station, UNITS_PER_TENTH as int)
}

/// One entry: the name, `=`, and minimum, mean and maximum between slashes.
pub open spec fn render_entry(name: Seq<u8>, station: StationView) -> Seq<u8> {
    name + seq![EQUALS] + render_tenths(tenths_of(station.min)) + seq![SLASH] + render_tenths(
        mean_tenths(station),
    ) + seq![SLASH] + render_tenths(tenths_of(station.max))
}

/// The first `n` entries, each but the first after a comma and a space.
pub open spec fn render_entries(keys: Seq<Seq<u8>>, values: Seq<StationView>, n: int) -> Seq<u8>
    decreases n,
{
    if n <= 0 {
        Seq::empty()
    } else if n == 1 {
        render_entry(keys[0], values[0])
    } else {
        render_entries(keys, values, n - 1) + seq![COMMA, SPACE] + render_entry(
            keys[n - 1],
            values[n - 1],
        )
    }
}

/// All the entries between braces.
pub open spec fn render_table(keys: Seq<Seq<u8>>, values: Seq<StationView>) -> Seq<u8> {
    seq![OPEN] + render_entries(keys, values, keys.len() as int) + seq![CLOSE]
}

/// The summary of a table: its entries in the ascending order of their names.
pub open spec fn render_view(table: TableView) -> Seq<u8> {
    render_table(sorted_keys(table), sorted_values(table))
}

/// Appends the decimal digits of `n`.
fn push_decimal(out: &mut Vec<u8>, n: u128)
    ensures
        final(out)@ == old(out)@ + decimal_digits(n as nat),
    decreases n,
{
    if n >= 10 {
        push_decimal(out, n / 10);
    }
    out.push(ZERO + (n % 10) as u8);
    assert(out@ =~= old(out)@ + decimal_digits(n as nat));
}

/// Appends a number of tenths.
fn push_tenths(out: &mut Vec<u8>, tenths: i128)
    ensures
        final(out)@ == old(out)@ + render_tenths(tenths as int),
{
    let magnitude: u128 = if tenths < 0 {
        out.push(MINUS);
        if tenths == i128::MIN {
            HALF
        } else {
            (0 - tenths) as u128
        }
    } else {
        tenths as u128
    };
    push_decimal(out, magnitude / 10);
    out.push(POINT);
    out.push(ZERO + (magnitude % 10) as u8);
    assert(out@ =~= old(out)@ + render_tenths(tenths as int));
}

/// Appends all the bytes of `bytes`.
fn push_bytes(out: &mut Vec<u8>, bytes: &[u8])
    ensures
        final(out)@ == old(out)@ + bytes@,
{
    let mut at: usize = 0;
    while at < bytes.len()
        invariant
            at <= bytes.len(),
            out@ == old(out)@ + bytes@.subrange(0, at as int),
        decreases bytes.len() - at,
    {
        out.push(bytes[at]);
        at += 1;
        assert(out@ =~= old(out)@ + bytes@.subrange(0, at as int));
    }
    assert(bytes@.subrange(0, at as int) == bytes@);
}

/// Appends the entry of one station.
fn push_entry(out: &mut Vec<u8>, name: &[u8], station: Station)
    requires
        station.wf(),
        station@.count >= 1,
    ensures
        final(out)@ == old(out)@ + render_entry(name@, station@),
{
    push_bytes(out, name);
    out.push(EQUALS);
    let ghost named = out@;
    push_tenths(out, round_to(station.min(), UNITS_PER_TENTH));
    out.push(SLASH);
    let ghost with_min = out@;
    push_tenths(out, station.mean_in(UNITS_PER_TENTH));
    out.push(SLASH);
    let ghost with_mean = out@;
    push_tenths(out, round_to(station.max(), UNITS_PER_TENTH));
    proof {
        assert(named =~= old(out)@ + name@ + seq![EQUALS]);
        assert(with_min =~= named + render_tenths(tenths_of(station@.min)) + seq![SLASH]);
        assert(with_mean =~= with_min + render_tenths(mean_tenths(station@)) + seq![SLASH]);
        assert(out@ =~= with_mean + render_tenths(tenths_of(station@.max)));
        assert(out@ =~= old(out)@ + render_entry(name@, station@));
    }
}

/// Appends the separator of two entries.
fn push_separator(out: &mut Vec<u8>)
    ensures
        final(out)@ == old(out)@ + seq![COMMA, SPACE],
{
    out.push(COMMA);
    out.push(SPACE);
    assert(out@ =~= old(out)@ + seq![COMMA, SPACE]);
}

impl Stations {
    /// The summary of the table.
    pub fn summary(&self) -> (out: Vec<u8>)
        requires
            self.wf(),
        ensures
            out@ == render_view(self@),
            out@ == render_table(self.keys(), self.values()),
    {
        proof {
            self.lemma_entries();
        }
        let mut out: Vec<u8> = Vec::new();
        out.push(OPEN);
        let count = self.len();
        let mut at: usize = 0;
        assert(out@ =~= seq![OPEN] + render_entries(self.keys(), self.values(), 0));
        while at < count
            invariant
                self.wf(),
                count == self.keys().len(),
                at <= count,
                out@ == seq![OPEN] + render_entries(self.keys(), self.values(), at as int),
            decreases count - at,
        {
            let ghost done = render_entries(self.keys(), self.values(), at as int);
            let ghost entry = render_entry(self.keys()[at as int], self.values()[at as int]);
            if at > 0 {
                push_separator(&mut out);
                push_entry(&mut out, self.name(at), self.station(at));
                assert(out@ =~= seq![OPEN] + (done + seq![COMMA, SPACE] + entry));
            } else {
                push_entry(&mut out, self.name(at), self.station(at));
                assert(out@ =~= seq![OPEN] + entry);
            }
            at += 1;
        }
        out.push(CLOSE);
        out
    }
}

} // verus!
