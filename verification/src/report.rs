//! The report: the rows of the sheet that shows the table.

use vstd::prelude::*;
use vstd::string::StringExecFns;
use crate::table::CountTable;
use crate::text::{decimal, decimal_string};

verus! {

/// One row of the report: the text of its two cells.
#[derive(Debug, PartialEq, Eq)]
pub struct ReportRow {
    pub address: String,
    pub count: String,
}

impl DeepView for ReportRow {
    type V = (Seq<char>, Seq<char>);

    open spec fn deep_view(&self) -> (Seq<char>, Seq<char>) {
        (self.address@, self.count@)
    }
}

/// The heading of the report.
pub open spec fn heading() -> (Seq<char>, Seq<char>) {
    ("Email 地址"@, "计数"@)
}

/// The report of a table: the heading, then one row for each key in the
/// order of the table's rows, with the count as a decimal numeral.
pub open spec fn report_of(rows: Seq<(Seq<char>, nat)>) -> Seq<(Seq<char>, Seq<char>)> {
    Seq::new(
        rows.len() + 1,
        |i: int|
            if i == 0 {
                heading()
            } else {
                (rows[i - 1].0, decimal(rows[i - 1].1))
            },
    )
}

/// Lays out the report of a table: the heading row, then one row per
/// sender value with its count.
pub fn report_rows(table: &CountTable) -> (report: Vec<ReportRow>)
    requires
        table.wf(),
    ensures
        report.len() == table@.len() + 1,
        report.deep_view() == report_of(table@),
{
    let pairs = table.snapshot();
    let mut report: Vec<ReportRow> = Vec::new();
    report.push(
        ReportRow {
            address: String::from_str("Email 地址"),
            count: String::from_str("计数"),
        },
    );
    let mut i: usize = 0;
    while i < pairs.len()
        invariant
            i <= pairs.len(),
            pairs.len() == table@.len(),
            forall|j: int|
                0 <= j < pairs.len() ==> (#[trigger] pairs[j]).0@ == table@[j].0 && pairs[j].1
                    == table@[j].1,
            report.len() == i + 1,
            forall|j: int|
                0 <= j <= i ==> (#[trigger] report[j]).deep_view() == report_of(table@)[j],
        decreases pairs.len() - i,
    {
        let address = pairs[i].0.clone();
        let count = decimal_string(pairs[i].1);
        report.push(ReportRow { address, count });
        i += 1;
    }
    assert(report.deep_view() =~= report_of(table@));
    report
}

} // verus!
