use station_stats::aggregate::aggregate;
use station_stats::aggregate::chunk_ranges;
use station_stats::aggregate::chunk_size_of;
use station_stats::aggregate::fold_chunk;
use station_stats::aggregate::lines_fit;
use station_stats::aggregate::try_aggregate;
use station_stats::table::Stations;
use station_stats::text::split_lines;
use station_stats::text::summarize;
use station_stats::text::try_summarize;

const TENTH: i128 = 100_000_000;

fn text_of(out: Vec<u8>) -> String {
    String::from_utf8(out).unwrap()
}

fn entries(t: &Stations) -> Vec<(Vec<u8>, i128, i128, i128, u64)> {
    let mut out = Vec::new();
    for i in 0..t.len() {
        let s = t.station(i);
        out.push((t.name(i).to_vec(), s.min(), s.max(), s.total().to_i128().unwrap(), s.count()));
    }
    out
}

#[test]
fn summary_of_two_stations() {
    assert_eq!(
        text_of(summarize(b"A;10.0\nB;5.0\nA;20.0\n", 4)),
        "{A=10.0/15.0/20.0, B=5.0/5.0/5.0}"
    );
}

#[test]
fn summary_of_empty_input() {
    assert_eq!(text_of(summarize(b"", 4)), "{}");
    assert_eq!(text_of(summarize(b"", 0)), "{}");
    assert_eq!(text_of(Stations::new().summary()), "{}");
}

#[test]
fn malformed_line_is_ignored() {
    assert_eq!(text_of(summarize(b"garbage\nC;1.0\n", 2)), "{C=1.0/1.0/1.0}");
    assert_eq!(text_of(summarize(b"C;1.0\ngarbage\n", 2)), "{C=1.0/1.0/1.0}");
    assert_eq!(text_of(summarize(b"C;x\nC;1.0\nno delimiter\n", 2)), "{C=1.0/1.0/1.0}");
    assert_eq!(text_of(summarize(b"garbage\n", 2)), "{}");
}

#[test]
fn mean_of_opposite_values_is_zero() {
    assert_eq!(text_of(summarize(b"X;-5.0\nX;5.0\n", 3)), "{X=-5.0/0.0/5.0}");
}

#[test]
fn summary_does_not_depend_on_workers() {
    let mut text = Vec::new();
    for i in 0..500u32 {
        let name = format!("station{}", (i * 37) % 23);
        let value = ((i * 7919) % 1999) as i64 - 999;
        text.extend_from_slice(
            format!(
                "{};{}{}.{}{}\n",
                name,
                if value < 0 { "-" } else { "" },
                value.abs() / 10,
                value.abs() % 10,
                i % 7
            )
            .as_bytes(),
        );
        if i % 50 == 0 {
            text.extend_from_slice(b"not a measurement\n");
        }
    }
    let one = summarize(&text, 1);
    for workers in [0usize, 2, 3, 7, 16, 499, 500, 501, 10_000, usize::MAX] {
        assert_eq!(summarize(&text, workers), one);
        assert_eq!(try_summarize(&text, workers), Some(one.clone()));
    }
}

#[test]
fn aggregate_matches_sequential_fold() {
    let text = b"b;1.0\na;2.0\nb;3.5\nbad\nc;-4.0\na;0.1\nb;-9.9\n";
    let lines = split_lines(text);
    let expected = entries(&fold_chunk(&lines, 0, lines.len()));
    assert_eq!(
        expected,
        vec![
            (b"a".to_vec(), TENTH, 20 * TENTH, 21 * TENTH, 2),
            (b"b".to_vec(), -99 * TENTH, 35 * TENTH, -54 * TENTH, 3),
            (b"c".to_vec(), -40 * TENTH, -40 * TENTH, -40 * TENTH, 1)
        ]
    );
    for workers in 0..10usize {
        assert_eq!(entries(&aggregate(&lines, workers)), expected);
        assert_eq!(entries(&try_aggregate(&lines, workers).unwrap()), expected);
    }
}

#[test]
fn aggregate_of_no_lines_is_empty() {
    let lines: Vec<&[u8]> = Vec::new();
    assert_eq!(aggregate(&lines, 8).len(), 0);
}

#[test]
fn fold_chunk_takes_only_its_range() {
    let lines: Vec<&[u8]> = vec![b"a;1", b"b;2", b"c;3", b"d;4"];
    assert_eq!(
        entries(&fold_chunk(&lines, 1, 3)),
        vec![
            (b"b".to_vec(), 20 * TENTH, 20 * TENTH, 20 * TENTH, 1),
            (b"c".to_vec(), 30 * TENTH, 30 * TENTH, 30 * TENTH, 1)
        ]
    );
    assert_eq!(entries(&fold_chunk(&lines, 2, 2)), vec![]);
}

#[test]
fn chunk_ranges_cut_evenly() {
    assert_eq!(chunk_ranges(10, 3), vec![(0, 4), (4, 8), (8, 10)]);
    assert_eq!(chunk_ranges(9, 3), vec![(0, 3), (3, 6), (6, 9)]);
    assert_eq!(chunk_ranges(3, 10), vec![(0, 1), (1, 2), (2, 3)]);
    assert_eq!(chunk_ranges(5, 1), vec![(0, 5)]);
    assert_eq!(chunk_ranges(5, 0), vec![(0, 5)]);
    assert_eq!(chunk_ranges(0, 4), vec![]);
    assert_eq!(chunk_ranges(7, 4), vec![(0, 2), (2, 4), (4, 6), (6, 7)]);
    assert_eq!(chunk_ranges(9, 4), vec![(0, 3), (3, 6), (6, 9)]);
}

#[test]
fn chunk_size_rounds_up() {
    assert_eq!(chunk_size_of(10, 3), 4);
    assert_eq!(chunk_size_of(9, 3), 3);
    assert_eq!(chunk_size_of(0, 3), 1);
    assert_eq!(chunk_size_of(2, 5), 1);
    assert_eq!(chunk_size_of(7, 0), 7);
    assert_eq!(chunk_size_of(usize::MAX, 2), usize::MAX / 2 + 1);
    assert_eq!(chunk_size_of(usize::MAX, usize::MAX), 1);
}

#[test]
fn lines_end_at_line_feeds() {
    let expected: Vec<&[u8]> = vec![b"a", b"", b"b"];
    assert_eq!(split_lines(b"a\n\nb"), expected);
    assert_eq!(split_lines(b"a\n\nb\n"), expected);
    assert_eq!(split_lines(b""), Vec::<&[u8]>::new());
    let blank: Vec<&[u8]> = vec![b""];
    assert_eq!(split_lines(b"\n"), blank);
}

#[test]
fn carriage_return_before_line_feed_is_dropped() {
    let expected: Vec<&[u8]> = vec![b"a;1", b"b;2"];
    assert_eq!(split_lines(b"a;1\r\nb;2\r\n"), expected);
    assert_eq!(split_lines(b"a;1\r\nb;2\r"), expected);
    let inner: Vec<&[u8]> = vec![b"a\rb", b"\r"];
    assert_eq!(split_lines(b"a\rb\n\r\r\n"), inner);
    assert_eq!(text_of(summarize(b"A;1.5\r\nA;2.5\r\n", 2)), "{A=1.5/2.0/2.5}");
}

#[test]
fn numbers_are_rounded_only_when_rendered() {
    assert_eq!(text_of(summarize(b"k;0.05\nk;0.0\n", 1)), "{k=0.0/0.0/0.1}");
    assert_eq!(text_of(summarize(b"k;0.25\n", 1)), "{k=0.3/0.3/0.3}");
    assert_eq!(text_of(summarize(b"k;0.24\nk;0.24\n", 1)), "{k=0.2/0.2/0.2}");
    assert_eq!(text_of(summarize(b"k;0.04\nk;0.04\nk;0.07\n", 1)), "{k=0.0/0.1/0.1}");
    assert_eq!(text_of(summarize(b"k;0.049999999\n", 1)), "{k=0.0/0.0/0.0}");
    assert_eq!(text_of(summarize(b"k;-0.05\nk;0\n", 1)), "{k=-0.1/0.0/0.0}");
    assert_eq!(text_of(summarize(b"k;-0.04\n", 1)), "{k=0.0/0.0/0.0}");
}

#[test]
fn numbers_have_one_digit_after_the_point() {
    assert_eq!(text_of(summarize(b"k;0\nk;-0.3\nk;1234.56\n", 1)), "{k=-0.3/411.4/1234.6}");
    assert_eq!(text_of(summarize(b"k;-12\n", 1)), "{k=-12.0/-12.0/-12.0}");
    assert_eq!(text_of(summarize(b"k;1e3\nk;2.5e-1\n", 1)), "{k=0.3/500.1/1000.0}");
    assert_eq!(text_of(summarize(b"k;1e10\nk;9223372037\n", 1)), "{k=9223372037.0/9611686018.5/10000000000.0}");
    assert_eq!(
        text_of(summarize(
            b"k;170141183460469231731687303715.884105727\nk;-170141183460469231731687303715.884105727\n",
            1
        )),
        "{k=-170141183460469231731687303715.9/0.0/170141183460469231731687303715.9}"
    );
}

#[test]
fn sums_beyond_128_bits_are_exact() {
    assert_eq!(
        text_of(summarize(b"k;1e29\nk;1e29\nk;1e29\nk;0.4\n", 2)),
        "{k=0.4/75000000000000000000000000000.1/100000000000000000000000000000.0}"
    );
    assert_eq!(
        text_of(summarize(b"k;-1.7e29\nk;-1.7e29\nk;-1.7e29\n", 3)),
        "{k=-170000000000000000000000000000.0/-170000000000000000000000000000.0/-170000000000000000000000000000.0}"
    );
}

#[test]
fn values_finer_than_a_unit_count_as_rounded() {
    assert_eq!(text_of(summarize(b"k;0.30000000000000004\n", 1)), "{k=0.3/0.3/0.3}");
    assert_eq!(text_of(summarize(b"k;1e-10\nk;0.2\n", 1)), "{k=0.0/0.1/0.2}");
    assert_eq!(text_of(summarize(b"k;0.0499999994\n", 1)), "{k=0.0/0.0/0.0}");
    assert_eq!(text_of(summarize(b"k;0.0499999995\n", 1)), "{k=0.1/0.1/0.1}");
    assert_eq!(text_of(summarize(b"k;0.04999999995\n", 1)), "{k=0.1/0.1/0.1}");
}

#[test]
fn mean_in_summary_rounds_half_away_from_zero() {
    assert_eq!(text_of(summarize(b"k;0.1\nk;0.2\n", 1)), "{k=0.1/0.2/0.2}");
    assert_eq!(text_of(summarize(b"k;-0.1\nk;-0.2\n", 1)), "{k=-0.2/-0.2/-0.1}");
    assert_eq!(text_of(summarize(b"k;0.1\nk;0.1\nk;0.2\n", 1)), "{k=0.1/0.1/0.2}");
    assert_eq!(text_of(summarize(b"k;0.0\nk;-0.1\nk;0.0\n", 1)), "{k=-0.1/0.0/0.0}");
}

#[test]
fn entries_are_sorted_and_separated() {
    assert_eq!(
        text_of(summarize(b"b;1\na;2\nc;3\nab;4\n", 2)),
        "{a=2.0/2.0/2.0, ab=4.0/4.0/4.0, b=1.0/1.0/1.0, c=3.0/3.0/3.0}"
    );
}

#[test]
fn every_written_value_is_counted_once() {
    let text = b"a;1\nb;2\nbad\na;3\nc;x\nb;4\na;5\n;6\n";
    let lines = split_lines(text);
    for workers in [1usize, 2, 3, 8] {
        let table = aggregate(&lines, workers);
        let total: u64 = entries(&table).iter().map(|e| e.4).sum();
        assert_eq!(total, 6);
    }
}

#[test]
fn only_a_value_too_large_is_refused() {
    assert_eq!(try_summarize(b"a;1\nb;1e30\n", 2), None);
    assert_eq!(try_summarize(b"a;1\nb;-1e1000\n", 2), None);
    assert_eq!(
        try_summarize(b"a;1\nb;1e19\nc;1e-10\nd;0e1000001\ne;0.30000000000000004\n", 2).map(text_of),
        Some(
            "{a=1.0/1.0/1.0, b=10000000000000000000.0/10000000000000000000.0/10000000000000000000.0, c=0.0/0.0/0.0, d=0.0/0.0/0.0, e=0.3/0.3/0.3}"
                .to_string()
        )
    );
    assert_eq!(
        try_summarize(b"a;1\nb;x\n", 2).map(text_of),
        Some("{a=1.0/1.0/1.0}".to_string())
    );
    let lines: Vec<&[u8]> = vec![b"a;1", b"b;1e30"];
    assert!(!lines_fit(&lines));
    assert!(try_aggregate(&lines, 2).is_none());
    let fine: Vec<&[u8]> = vec![b"a;1", b"b;nothing", b"c", b"d;1e29"];
    assert!(lines_fit(&fine));
}

#[test]
fn order_of_lines_does_not_matter() {
    let text = b"b;1.25\na;2e1\nb;3.5\nbad\nc;-4.0\na;0.001\nb;-9.9\nc;7\n";
    let lines = split_lines(text);
    let mut reversed = lines.clone();
    reversed.reverse();
    let mut rotated = lines.clone();
    rotated.rotate_left(3);
    let expected = entries(&fold_chunk(&lines, 0, lines.len()));
    for workers in [1usize, 2, 3, 5] {
        assert_eq!(entries(&aggregate(&reversed, workers)), expected);
        assert_eq!(entries(&aggregate(&rotated, workers)), expected);
    }
}

#[test]
fn grouping_of_merges_does_not_matter() {
    let lines: Vec<&[u8]> = vec![b"a;1", b"b;2", b"a;3", b"c;4", b"b;5", b"a;6"];
    let whole = entries(&fold_chunk(&lines, 0, 6));
    let left_first = fold_chunk(&lines, 0, 2)
        .merge(fold_chunk(&lines, 2, 4))
        .merge(fold_chunk(&lines, 4, 6));
    let right_first =
        fold_chunk(&lines, 0, 2).merge(fold_chunk(&lines, 2, 4).merge(fold_chunk(&lines, 4, 6)));
    let shuffled = fold_chunk(&lines, 4, 6)
        .merge(Stations::new())
        .merge(fold_chunk(&lines, 0, 2).merge(fold_chunk(&lines, 2, 4)));
    assert_eq!(entries(&left_first), whole);
    assert_eq!(entries(&right_first), whole);
    assert_eq!(entries(&shuffled), whole);
}
