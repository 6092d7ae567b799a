use timings::formatting::{
    decimal_places, headers, table_summaries, SummaryRow, SummaryTable, TimeUnit,
};
use timings::Label;

fn row(label: &'static str, cell: &str) -> SummaryRow {
    SummaryRow {
        label: Label::from(label),
        average: format!("{cell}1"),
        min: format!("{cell}2"),
        max: format!("{cell}3"),
        stddev: format!("{cell}4"),
        outliers: format!("{cell}5"),
    }
}

#[test]
fn columns_have_their_names() {
    assert_eq!(headers(), vec!["Label", "avg", "min", "max", "stddev", "out%"]);
}

#[test]
fn rows_have_their_cells_in_order() {
    assert_eq!(row("l", "c").fields(), vec!["l", "c1", "c2", "c3", "c4", "c5"]);
}

#[test]
fn tables_are_rendered() {
    let report = vec![
        SummaryTable {
            metric: String::from("lock"),
            rows: vec![row("std", ""), row("other", "long")],
        },
        SummaryTable {
            metric: String::from("m"),
            rows: Vec::new(),
        },
    ];
    assert_eq!(
        table_summaries(&report),
        vec![
            "\
+-------+-------+-------+-------+--------+-------+
| lock                                           |
+-------+-------+-------+-------+--------+-------+
| Label | avg   | min   | max   | stddev | out%  |
+-------+-------+-------+-------+--------+-------+
| std   | 1     | 2     | 3     | 4      | 5     |
+-------+-------+-------+-------+--------+-------+
| other | long1 | long2 | long3 | long4  | long5 |
+-------+-------+-------+-------+--------+-------+",
            "\
+-------+-----+-----+-----+--------+------+
| m                                       |
+-------+-----+-----+-----+--------+------+
| Label | avg | min | max | stddev | out% |
+-------+-----+-----+-----+--------+------+",
        ]
    );
    assert_eq!(table_summaries(&Vec::new()), Vec::<String>::new());
}

#[test]
fn a_table_is_rendered_like_that_of_tabled() {
    let table = SummaryTable {
        metric: String::from("title"),
        rows: vec![row("a", "x")],
    };
    let mut builder = tabled::builder::Builder::default();
    builder.set_columns(["Label", "avg", "min", "max", "stddev", "out%"]);
    builder.add_record(["a", "x1", "x2", "x3", "x4", "x5"]);
    assert_eq!(
        table.render(),
        builder.build().with(tabled::Header("title")).to_string()
    );
}

#[test]
fn units_change_at_their_bounds() {
    assert_eq!(TimeUnit::pick(true, 0), TimeUnit::Zero);
    assert_eq!(TimeUnit::pick(false, 0), TimeUnit::Nanoseconds);
    assert_eq!(TimeUnit::pick(false, 999), TimeUnit::Nanoseconds);
    assert_eq!(TimeUnit::pick(false, 1_000), TimeUnit::Microseconds);
    assert_eq!(TimeUnit::pick(false, 999_999), TimeUnit::Microseconds);
    assert_eq!(TimeUnit::pick(false, 1_000_000), TimeUnit::Milliseconds);
    assert_eq!(TimeUnit::pick(false, 999_999_999), TimeUnit::Milliseconds);
    assert_eq!(TimeUnit::pick(false, 1_000_000_000), TimeUnit::Seconds);
    assert_eq!(TimeUnit::pick(false, 999_999_999_999), TimeUnit::Seconds);
    assert_eq!(TimeUnit::pick(false, 1_000_000_000_000), TimeUnit::Minutes);
    assert_eq!(TimeUnit::pick(false, u64::MAX), TimeUnit::Minutes);
}

#[test]
fn units_have_a_length_and_a_suffix() {
    let units = [
        (TimeUnit::Zero, (1, 1), "s"),
        (TimeUnit::Nanoseconds, (1, 1), "ns"),
        (TimeUnit::Microseconds, (1_000, 1), "us"),
        (TimeUnit::Milliseconds, (1_000_000, 1), "ms"),
        (TimeUnit::Seconds, (1_000_000_000, 1), "s"),
        (TimeUnit::Minutes, (1_000_000_000, 60), "m"),
    ];
    for (unit, divisors, suffix) in units {
        assert_eq!(unit.divisors(), divisors);
        assert_eq!(unit.suffix(), suffix);
    }
}

#[test]
fn the_whole_part_decides_on_the_decimal_places() {
    assert_eq!([0, 9, 10, 99, 100, u64::MAX].map(decimal_places), [3, 3, 2, 2, 1, 1]);
}
