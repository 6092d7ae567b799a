//! Tables of the summaries, and the units and digits that their numbers are printed with.
use vstd::prelude::*;

use crate::label::Label;

verus! {

/// What a table renders to, given its title, the names of its columns and the cells of its rows.
pub uninterp spec fn rendered_table(
    title: Seq<char>,
    columns: Seq<Seq<char>>,
    rows: Seq<Seq<Seq<char>>>,
) -> Seq<char>;

/// Builds a table with [`tabled::builder::Builder`], puts a [`tabled::Header`] above it, and
/// renders it as [`tabled::Table`] does. The rendering is a function of the texts alone.
#[verifier::external_body]
fn render_table(title: &str, columns: Vec<String>, rows: Vec<Vec<String>>) -> (table: String)
    requires
        columns@.len() > 0,
    ensures
        table@ == rendered_table(title@, columns.deep_view(), rows.deep_view()),
{
    let mut builder = rows.into_iter().collect::<tabled::builder::Builder>();
    builder.set_columns(columns);
    builder.build().with(tabled::Header(title)).to_string()
}

/// What is printed of the statistics of one label.
pub struct SummaryRow {
    /// The label.
    pub label: Label,
    /// The average of its measurements.
    pub average: String,
    /// The minimum.
    pub min: String,
    /// The maximum.
    pub max: String,
    /// The standard deviation.
    pub stddev: String,
    /// The share of outliers.
    pub outliers: String,
}

/// What is printed of the summary of one metric.
pub struct SummaryTable {
    /// The metric.
    pub metric: String,
    /// The statistics of its labels.
    pub rows: Vec<SummaryRow>,
}

impl SummaryRow {
    /// The cells of the row, in the order of the columns.
    pub open spec fn cells(self) -> Seq<Seq<char>> {
        seq![
            self.label@,
            self.average@,
            self.min@,
            self.max@,
            self.stddev@,
            self.outliers@,
        ]
    }

    /// The cells of the row, in the order of the columns.
    pub fn fields(&self) -> (fields: Vec<String>)
        ensures
            fields.deep_view() == self.cells(),
    {
        let mut fields: Vec<String> = Vec::new();
        fields.push(self.label.to_string());
        fields.push(self.average.clone());
        fields.push(self.min.clone());
        fields.push(self.max.clone());
        fields.push(self.stddev.clone());
        fields.push(self.outliers.clone());
        assert(fields.deep_view() =~= self.cells());
        fields
    }
}

/// The names of the columns.
pub open spec fn columns() -> Seq<Seq<char>> {
    seq!["Label"@, "avg"@, "min"@, "max"@, "stddev"@, "out%"@]
}

/// The names of the columns.
pub fn headers() -> (headers: Vec<String>)
    ensures
        headers.deep_view() == columns(),
        headers@.len() == 6,
{
    let mut headers: Vec<String> = Vec::new();
    headers.push("Label".to_owned());
    headers.push("avg".to_owned());
    headers.push("min".to_owned());
    headers.push("max".to_owned());
    headers.push("stddev".to_owned());
    headers.push("out%".to_owned());
    assert(headers.deep_view() =~= columns());
    headers
}

impl SummaryTable {
    /// The cells of all rows.
    pub open spec fn cells(self) -> Seq<Seq<Seq<char>>> {
        self.rows@.map_values(|row: SummaryRow| row.cells())
    }

    /// Renders the table.
    pub fn render(&self) -> (table: String)
        ensures
            table@ == rendered_table(self.metric@, columns(), self.cells()),
    {
        let mut rows: Vec<Vec<String>> = Vec::new();
        let mut i: usize = 0;
        while i < self.rows.len()
            invariant
                i <= self.rows@.len(),
                rows.deep_view() == self.cells().take(i as int),
            decreases self.rows@.len() - i,
        {
            let ghost before = rows.deep_view();
            rows.push(self.rows[i].fields());
            assert(rows.deep_view() =~= before.push(self.cells()[i as int]));
            assert(self.cells().take(i + 1) =~= before.push(self.cells()[i as int]));
            i += 1;
        }
        assert(self.cells().take(i as int) =~= self.cells());
        render_table(self.metric.as_str(), headers(), rows)
    }
}

/// Renders the tables of a report, one for each metric, in their order.
pub fn table_summaries(report: &Vec<SummaryTable>) -> (tables: Vec<String>)
    ensures
        tables@.len() == report@.len(),
        forall|i: int|
            0 <= i < tables@.len() ==> (#[trigger] tables@[i])@ == rendered_table(
                report@[i].metric@,
                columns(),
                report@[i].cells(),
            ),
{
    let mut tables: Vec<String> = Vec::new();
    let mut i: usize = 0;
    while i < report.len()
        invariant
            i <= report@.len(),
            tables@.len() == i,
            forall|j: int|
                0 <= j < i ==> (#[trigger] tables@[j])@ == rendered_table(
                    report@[j].metric@,
                    columns(),
                    report@[j].cells(),
                ),
        decreases report@.len() - i,
    {
        tables.push(report[i].render());
        i += 1;
    }
    tables
}

/// The unit that a time is printed in.
#[derive(Clone, Copy, PartialEq, Eq, Structural, Debug)]
pub enum TimeUnit {
    /// No time to speak of: it is printed as `0s`, whatever it is exactly.
    Zero,
    /// `ns`.
    Nanoseconds,
    /// `us`.
    Microseconds,
    /// `ms`.
    Milliseconds,
    /// `s`.
    Seconds,
    /// `m`.
    Minutes,
}

/// The unit for a time, given whether it is negligible and its whole nanoseconds. As all bounds
/// are whole numbers, the fraction of a nanosecond beyond does not matter.
pub open spec fn unit_for(negligible: bool, whole_nanoseconds: u64) -> TimeUnit {
    if negligible {
        TimeUnit::Zero
    } else if whole_nanoseconds < 1_000 {
        TimeUnit::Nanoseconds
    } else if whole_nanoseconds < 1_000_000 {
        TimeUnit::Microseconds
    } else if whole_nanoseconds < 1_000_000_000 {
        TimeUnit::Milliseconds
    } else if whole_nanoseconds < 1_000_000_000_000 {
        TimeUnit::Seconds
    } else {
        TimeUnit::Minutes
    }
}

impl TimeUnit {
    /// Picks the unit for a time, given whether it is negligible and its whole nanoseconds.
    pub fn pick(negligible: bool, whole_nanoseconds: u64) -> (unit: TimeUnit)
        ensures
            unit == unit_for(negligible, whole_nanoseconds),
    {
        if negligible {
            TimeUnit::Zero
        } else if whole_nanoseconds < 1_000 {
            TimeUnit::Nanoseconds
        } else if whole_nanoseconds < 1_000_000 {
            TimeUnit::Microseconds
        } else if whole_nanoseconds < 1_000_000_000 {
            TimeUnit::Milliseconds
        } else if whole_nanoseconds < 1_000_000_000_000 {
            TimeUnit::Seconds
        } else {
            TimeUnit::Minutes
        }
    }

    /// The two numbers whose product is the length of the unit in nanoseconds.
    pub open spec fn factors(self) -> (u64, u64) {
        match self {
            TimeUnit::Zero => (1, 1),
            TimeUnit::Nanoseconds => (1, 1),
            TimeUnit::Microseconds => (1_000, 1),
            TimeUnit::Milliseconds => (1_000_000, 1),
            TimeUnit::Seconds => (1_000_000_000, 1),
            TimeUnit::Minutes => (1_000_000_000, 60),
        }
    }

    /// What nanoseconds are divided by to get this unit: first by the one, then by the other.
    pub fn divisors(&self) -> (divisors: (u64, u64))
        ensures
            divisors == self.factors(),
    {
        match self {
            TimeUnit::Zero => (1, 1),
            TimeUnit::Nanoseconds => (1, 1),
            TimeUnit::Microseconds => (1_000, 1),
            TimeUnit::Milliseconds => (1_000_000, 1),
            TimeUnit::Seconds => (1_000_000_000, 1),
            TimeUnit::Minutes => (1_000_000_000, 60),
        }
    }

    /// What is printed behind the number.
    pub open spec fn sign(self) -> Seq<char> {
        match self {
            TimeUnit::Zero => "s"@,
            TimeUnit::Nanoseconds => "ns"@,
            TimeUnit::Microseconds => "us"@,
            TimeUnit::Milliseconds => "ms"@,
            TimeUnit::Seconds => "s"@,
            TimeUnit::Minutes => "m"@,
        }
    }

    /// What is printed behind the number.
    pub fn suffix(&self) -> (suffix: &'static str)
        ensures
            suffix@ == self.sign(),
    {
        match self {
            TimeUnit::Zero => "s",
            TimeUnit::Nanoseconds => "ns",
            TimeUnit::Microseconds => "us",
            TimeUnit::Milliseconds => "ms",
            TimeUnit::Seconds => "s",
            TimeUnit::Minutes => "m",
        }
    }
}

/// How many decimal places a number is printed with, given its whole part.
pub fn decimal_places(whole: u64) -> (places: usize)
    ensures
        places == (if whole < 10 {
            3int
        } else if whole < 100 {
            2int
        } else {
            1int
        }),
{
    if whole < 10 {
        3
    } else if whole < 100 {
        2
    } else {
        1
    }
}

/// A time of at least a nanosecond and less than a thousand seconds is printed as a number from one
/// to below a thousand.
pub proof fn lemma_times_are_printed_with_few_digits(whole_nanoseconds: u64)
    requires
        1 <= whole_nanoseconds < 1_000_000_000_000,
    ensures
        ({
            let (first, second) = unit_for(false, whole_nanoseconds).factors();
            &&& first * second <= whole_nanoseconds
            &&& whole_nanoseconds < 1_000 * (first * second)
        }),
{
}

/// A time is printed as zero exactly if it is negligible, whatever its whole nanoseconds are.
pub proof fn lemma_only_negligible_times_are_zero(
    negligible: bool,
    whole_nanoseconds: u64,
    unit: TimeUnit,
)
    requires
        call_ensures(TimeUnit::pick, (negligible, whole_nanoseconds), unit),
    ensures
        unit == TimeUnit::Zero <==> negligible,
{
}

/// A time that is not negligible is printed in the one unit that fits: the largest that is not longer
/// than the time. Nanoseconds take what is shorter than any unit, and minutes begin at a thousand
/// seconds.
pub proof fn lemma_the_unit_fits(whole_nanoseconds: u64, unit: TimeUnit, divisors: (u64, u64))
    requires
        call_ensures(TimeUnit::pick, (false, whole_nanoseconds), unit),
        call_ensures(TimeUnit::divisors, (&unit,), divisors),
    ensures
        unit != TimeUnit::Zero,
        whole_nanoseconds < 1_000_000_000_000 ==> whole_nanoseconds < 1_000 * (divisors.0
            * divisors.1),
        1_000 <= whole_nanoseconds < 1_000_000_000_000 ==> divisors.0 * divisors.1
            <= whole_nanoseconds,
        whole_nanoseconds < 1_000 ==> divisors.0 * divisors.1 == 1,
        whole_nanoseconds >= 1_000_000_000_000 ==> divisors.0 * divisors.1 == 60_000_000_000,
        divisors.0 * divisors.1 < 60_000_000_000 ==> divisors.1 == 1,
{
}

/// A longer time is never printed in a shorter unit.
pub proof fn lemma_longer_times_have_no_shorter_units(
    shorter: u64,
    longer: u64,
    units: (TimeUnit, TimeUnit),
    divisors: ((u64, u64), (u64, u64)),
)
    requires
        shorter <= longer,
        call_ensures(TimeUnit::pick, (false, shorter), units.0),
        call_ensures(TimeUnit::pick, (false, longer), units.1),
        call_ensures(TimeUnit::divisors, (&units.0,), divisors.0),
        call_ensures(TimeUnit::divisors, (&units.1,), divisors.1),
    ensures
        divisors.0.0 * divisors.0.1 <= divisors.1.0 * divisors.1.1,
        divisors.0 == divisors.1 ==> units.0 == units.1,
{
}

/// What is printed behind a number names the length that it was divided by; zero is printed in
/// seconds.
pub proof fn lemma_the_suffix_names_the_length(
    unit: TimeUnit,
    divisors: (u64, u64),
    suffix: &'static str,
)
    requires
        call_ensures(TimeUnit::divisors, (&unit,), divisors),
        call_ensures(TimeUnit::suffix, (&unit,), suffix),
    ensures
        ({
            let length = divisors.0 * divisors.1;
            &&& unit == TimeUnit::Zero ==> suffix@ == "s"@
            &&& unit != TimeUnit::Zero && length == 1 ==> suffix@ == "ns"@
            &&& length == 1_000 ==> suffix@ == "us"@
            &&& length == 1_000_000 ==> suffix@ == "ms"@
            &&& length == 1_000_000_000 ==> suffix@ == "s"@
            &&& length == 60_000_000_000 ==> suffix@ == "m"@
            &&& length == 1 || length == 1_000 || length == 1_000_000 || length == 1_000_000_000
                || length == 60_000_000_000
        }),
{
}

/// A number below a thousand is printed with four digits in all, unless it is less than one.
pub proof fn lemma_numbers_are_printed_with_four_digits(whole: u64, places: usize)
    requires
        call_ensures(decimal_places, (whole,), places),
    ensures
        whole < 10 <==> places == 3,
        10 <= whole < 100 <==> places == 2,
        whole >= 100 <==> places == 1,
{
}

/// Each number of a row stands below the name of its column.
pub proof fn lemma_numbers_stand_below_their_names(
    row: SummaryRow,
    names: Vec<String>,
    fields: Vec<String>,
)
    requires
        call_ensures(headers, (), names),
        call_ensures(SummaryRow::fields, (&row,), fields),
    ensures
        names@.len() == 6,
        fields@.len() == 6,
        names@[0]@ == "Label"@ && fields@[0]@ == row.label@,
        names@[1]@ == "avg"@ && fields@[1]@ == row.average@,
        names@[2]@ == "min"@ && fields@[2]@ == row.min@,
        names@[3]@ == "max"@ && fields@[3]@ == row.max@,
        names@[4]@ == "stddev"@ && fields@[4]@ == row.stddev@,
        names@[5]@ == "out%"@ && fields@[5]@ == row.outliers@,
{
    assert(names.deep_view().len() == 6 && fields.deep_view().len() == 6);
    assert forall|k: int| 0 <= k < 6 implies names@[k]@ == #[trigger] names.deep_view()[k] by {}
    assert forall|k: int| 0 <= k < 6 implies fields@[k]@ == #[trigger] fields.deep_view()[k] by {}
    assert(names@[0]@ == names.deep_view()[0] && fields@[0]@ == fields.deep_view()[0]);
    assert(names@[1]@ == names.deep_view()[1] && fields@[1]@ == fields.deep_view()[1]);
    assert(names@[2]@ == names.deep_view()[2] && fields@[2]@ == fields.deep_view()[2]);
    assert(names@[3]@ == names.deep_view()[3] && fields@[3]@ == fields.deep_view()[3]);
    assert(names@[4]@ == names.deep_view()[4] && fields@[4]@ == fields.deep_view()[4]);
    assert(names@[5]@ == names.deep_view()[5] && fields@[5]@ == fields.deep_view()[5]);
}

/// A table is rendered from all that it holds: the metric above, the names of the columns, and for
/// each row its label and its numbers, in the order of the rows.
pub proof fn lemma_a_table_shows_all_it_holds(table: SummaryTable, text: String)
    requires
        call_ensures(SummaryTable::render, (&table,), text),
    ensures
        text@ == rendered_table(
            table.metric@,
            seq!["Label"@, "avg"@, "min"@, "max"@, "stddev"@, "out%"@],
            Seq::new(
                table.rows@.len(),
                |i: int|
                    seq![
                        table.rows@[i].label@,
                        table.rows@[i].average@,
                        table.rows@[i].min@,
                        table.rows@[i].max@,
                        table.rows@[i].stddev@,
                        table.rows@[i].outliers@,
                    ],
            ),
        ),
{
    let names = seq!["Label"@, "avg"@, "min"@, "max"@, "stddev"@, "out%"@];
    let cells = Seq::new(
        table.rows@.len(),
        |i: int|
            seq![
                table.rows@[i].label@,
                table.rows@[i].average@,
                table.rows@[i].min@,
                table.rows@[i].max@,
                table.rows@[i].stddev@,
                table.rows@[i].outliers@,
            ],
    );
    assert(columns() =~= names);
    assert forall|i: int| 0 <= i < cells.len() implies table.cells()[i] == cells[i] by {
        assert(table.cells()[i] =~= cells[i]);
    }
    assert(table.cells() =~= cells);
}

/// A report has a table for each metric, in the order of the metrics: that which is rendered of the
/// metric alone.
pub proof fn lemma_a_report_has_the_table_of_each_metric(
    report: Vec<SummaryTable>,
    tables: Vec<String>,
    i: int,
    text: String,
)
    requires
        call_ensures(table_summaries, (&report,), tables),
        0 <= i < report@.len(),
        call_ensures(SummaryTable::render, (&report@[i],), text),
    ensures
        tables@.len() == report@.len(),
        tables@[i]@ == text@,
{
}

} // verus!
