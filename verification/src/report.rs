//! The sweep as text: a table for people, and comma-separated values.
use vstd::prelude::*;
use vstd::string::*;

use crate::bench::{SweepResult, SweepRow};
use crate::text::{
    aligned_string, fixed_string, fixed_text, in_field, law_counts_read_back,
    lemma_number_in_field, lemma_optional_in_field, lemma_speedup_in_field, magnitude_string,
    nat_string, nat_text, optional_string, optional_text, right_aligned, speedup_string,
    speedup_text,
};

verus! {

/// One line of the table.
pub open spec fn table_row(r: SweepRow) -> Seq<char> {
    right_aligned(nat_text(r.k as nat), 3) + "  "@ + right_aligned(
        fixed_text(r.alpha_target as int, 2),
        7,
    ) + "  "@ + right_aligned(fixed_text(r.alpha_measured as int, 4), 9) + "  "@ + right_aligned(
        optional_text(r.empirical_tokens, 4),
        10,
    ) + "  "@ + right_aligned(fixed_text(r.analytical_tokens as int, 4), 10) + "  "@
        + right_aligned(speedup_text(r.empirical_speedup, 3), 9) + "x  "@ + right_aligned(
        fixed_text(r.analytical_speedup as int, 3),
        9,
    ) + "x\n"@
}

/// The first `n` lines of the table.
pub open spec fn table_rows(rows: Seq<SweepRow>, n: nat) -> Seq<char>
    decreases n,
{
    if n == 0 {
        Seq::empty()
    } else {
        table_rows(rows, (n - 1) as nat) + table_row(rows[n - 1])
    }
}

/// One line on the best draft length for an acceptance rate.
pub open spec fn best_row(entry: (i64, u32, u128)) -> Seq<char> {
    "  alpha = "@ + fixed_text(entry.0 as int, 2) + "  ->  k* = "@ + nat_text(entry.1 as nat)
        + "  (analytical speedup "@ + fixed_text(entry.2 as int, 3) + "x)\n"@
}

/// The first `n` lines on best draft lengths.
pub open spec fn best_rows(entries: Seq<(i64, u32, u128)>, n: nat) -> Seq<char>
    decreases n,
{
    if n == 0 {
        Seq::empty()
    } else {
        best_rows(entries, (n - 1) as nat) + best_row(entries[n - 1])
    }
}

/// One line of comma-separated values.
pub open spec fn csv_row(r: SweepRow) -> Seq<char> {
    nat_text(r.k as nat) + ","@ + fixed_text(r.alpha_target as int, 4) + ","@ + fixed_text(
        r.alpha_measured as int,
        6,
    ) + ","@ + optional_text(r.empirical_tokens, 6) + ","@ + fixed_text(
        r.analytical_tokens as int,
        6,
    ) + ","@ + speedup_text(r.empirical_speedup, 6) + ","@ + fixed_text(
        r.analytical_speedup as int,
        6,
    ) + "\n"@
}

/// The first `n` lines of comma-separated values.
pub open spec fn csv_rows(rows: Seq<SweepRow>, n: nat) -> Seq<char>
    decreases n,
{
    if n == 0 {
        Seq::empty()
    } else {
        csv_rows(rows, (n - 1) as nat) + csv_row(rows[n - 1])
    }
}

fn table_line(r: &SweepRow) -> (line: String)
    ensures
        line@ == table_row(*r),
{
    let mut line = aligned_string(nat_string(r.k as u128).as_str(), 3);
    line.append("  ");
    line.append(aligned_string(fixed_string(r.alpha_target as i128, 2).as_str(), 7).as_str());
    line.append("  ");
    line.append(aligned_string(magnitude_string(r.alpha_measured, 4).as_str(), 9).as_str());
    line.append("  ");
    line.append(aligned_string(optional_string(r.empirical_tokens, 4).as_str(), 10).as_str());
    line.append("  ");
    line.append(aligned_string(magnitude_string(r.analytical_tokens, 4).as_str(), 10).as_str());
    line.append("  ");
    line.append(aligned_string(speedup_string(&r.empirical_speedup, 3).as_str(), 9).as_str());
    line.append("x  ");
    line.append(aligned_string(magnitude_string(r.analytical_speedup, 3).as_str(), 9).as_str());
    line.append("x\n");
    line
}

fn best_line(entry: &(i64, u32, u128)) -> (line: String)
    ensures
        line@ == best_row(*entry),
{
    let mut line = String::from_str("  alpha = ");
    line.append(fixed_string(entry.0 as i128, 2).as_str());
    line.append("  ->  k* = ");
    line.append(nat_string(entry.1 as u128).as_str());
    line.append("  (analytical speedup ");
    line.append(magnitude_string(entry.2, 3).as_str());
    line.append("x)\n");
    line
}

fn csv_line(r: &SweepRow) -> (line: String)
    ensures
        line@ == csv_row(*r),
{
    let mut line = nat_string(r.k as u128);
    line.append(",");
    line.append(fixed_string(r.alpha_target as i128, 4).as_str());
    line.append(",");
    line.append(magnitude_string(r.alpha_measured, 6).as_str());
    line.append(",");
    line.append(optional_string(r.empirical_tokens, 6).as_str());
    line.append(",");
    line.append(magnitude_string(r.analytical_tokens, 6).as_str());
    line.append(",");
    line.append(speedup_string(&r.empirical_speedup, 6).as_str());
    line.append(",");
    line.append(magnitude_string(r.analytical_speedup, 6).as_str());
    line.append("\n");
    line
}

impl SweepResult {
    /// The sweep as a table for people.
    pub open spec fn table_text(self) -> Seq<char> {
        "  k    alpha  alpha_hat     emp_tok     ana_tok     emp_spd     ana_spd\n"@
            + "------------------------------------------------------------------------\n"@
            + table_rows(self.rows@, self.rows@.len())
            + "\nOptimal k per acceptance rate (cost_ratio = "@
            + fixed_text(self.cost_ratio as int, 3) + "):\n"@ + best_rows(
            self.optimal_per_alpha@,
            self.optimal_per_alpha@.len(),
        )
    }

    /// The rows as comma-separated values, under a header.
    pub open spec fn csv_text(self) -> Seq<char> {
        "k,alpha_target,alpha_measured,empirical_tokens,analytical_tokens,empirical_speedup,analytical_speedup\n"@
            + csv_rows(self.rows@, self.rows@.len())
    }

    /// Renders the sweep as a table for people.
    #[must_use]
    pub fn to_table(&self) -> (out: String)
        ensures
            out@ == self.table_text(),
    {
        let mut out = String::from_str(
            "  k    alpha  alpha_hat     emp_tok     ana_tok     emp_spd     ana_spd\n",
        );
        out.append(
            "------------------------------------------------------------------------\n",
        );
        let ghost top = out@;
        let mut i: usize = 0;
        while i < self.rows.len()
            invariant
                i <= self.rows@.len(),
                out@ == top + table_rows(self.rows@, i as nat),
            decreases self.rows@.len() - i,
        {
            out.append(table_line(&self.rows[i]).as_str());
            i = i + 1;
            assert(out@ =~= top + table_rows(self.rows@, i as nat));
        }
        out.append("\nOptimal k per acceptance rate (cost_ratio = ");
        out.append(fixed_string(self.cost_ratio, 3).as_str());
        out.append("):\n");
        let ghost middle = out@;
        let mut j: usize = 0;
        while j < self.optimal_per_alpha.len()
            invariant
                j <= self.optimal_per_alpha@.len(),
                out@ == middle + best_rows(self.optimal_per_alpha@, j as nat),
            decreases self.optimal_per_alpha@.len() - j,
        {
            out.append(best_line(&self.optimal_per_alpha[j]).as_str());
            j = j + 1;
            assert(out@ =~= middle + best_rows(self.optimal_per_alpha@, j as nat));
        }
        assert(out@ =~= self.table_text());
        out
    }

    /// Renders the rows as comma-separated values, under a header.
    #[must_use]
    pub fn to_csv(&self) -> (out: String)
        ensures
            out@ == self.csv_text(),
    {
        let mut out = String::from_str(
            "k,alpha_target,alpha_measured,empirical_tokens,analytical_tokens,empirical_speedup,analytical_speedup\n",
        );
        let ghost top = out@;
        let mut i: usize = 0;
        while i < self.rows.len()
            invariant
                i <= self.rows@.len(),
                out@ == top + csv_rows(self.rows@, i as nat),
            decreases self.rows@.len() - i,
        {
            out.append(csv_line(&self.rows[i]).as_str());
            i = i + 1;
            assert(out@ =~= top + csv_rows(self.rows@, i as nat));
        }
        out
    }
}

/// Text put together from the left is text put together from the right.
proof fn lemma_regroup(a: Seq<char>, b: Seq<char>, c: Seq<char>)
    ensures
        (a + b) + c == a + (b + c),
{
    assert((a + b) + c =~= a + (b + c));
}

/// Equal texts of equal beginnings are equal in both parts.
proof fn lemma_split_at(a: Seq<char>, b: Seq<char>, c: Seq<char>, d: Seq<char>)
    requires
        a + b == c + d,
        a.len() == c.len(),
    ensures
        a == c,
        b == d,
{
    let n = a.len() as int;
    assert(a =~= (a + b).take(n));
    assert(c =~= (c + d).take(n));
    assert(b =~= (a + b).skip(n));
    assert(d =~= (c + d).skip(n));
}

/// Two texts of fields: the first field ends at the first comma, so equal texts have
/// equal first fields and equal rests.
proof fn lemma_first_field(a: Seq<char>, b: Seq<char>, c: Seq<char>, d: Seq<char>)
    requires
        in_field(a),
        in_field(c),
        a + ","@ + b == c + ","@ + d,
    ensures
        a == c,
        b == d,
{
    reveal_strlit(",");
    let x = a + ","@ + b;
    let y = c + ","@ + d;
    let (m, n) = (a.len() as int, c.len() as int);
    assert(x[m] == ',');
    assert(y[n] == ',');
    if m < n {
        assert(y[m] == c[m]);
    } else if n < m {
        assert(x[n] == a[n]);
    }
    assert(m == n);
    lemma_split_at(a + ","@, b, c + ","@, d);
    lemma_split_at(a, ","@, c, ","@);
}

/// A field and its comma moved from the text before them to the text behind them.
proof fn lemma_move_field(before: Seq<char>, field: Seq<char>, behind: Seq<char>)
    ensures
        before + field + ","@ + behind == before + (field + ","@ + behind),
{
    lemma_regroup(before + field, ","@, behind);
    lemma_regroup(before, field, ","@ + behind);
    lemma_regroup(field, ","@, behind);
}

/// A line of comma-separated values: seven fields between commas, in the order of the
/// header, and a line's end.
pub proof fn law_csv_row_is_seven_fields(r: SweepRow)
    ensures
        csv_row(r) == nat_text(r.k as nat) + ","@ + (fixed_text(r.alpha_target as int, 4) + ","@ + (
        fixed_text(r.alpha_measured as int, 6) + ","@ + (optional_text(r.empirical_tokens, 6) + ","@
            + (fixed_text(r.analytical_tokens as int, 6) + ","@ + (speedup_text(
            r.empirical_speedup,
            6,
        ) + ","@ + (fixed_text(r.analytical_speedup as int, 6) + "\n"@)))))),
{
    let f0 = nat_text(r.k as nat);
    let f1 = fixed_text(r.alpha_target as int, 4);
    let f2 = fixed_text(r.alpha_measured as int, 6);
    let f3 = optional_text(r.empirical_tokens, 6);
    let f4 = fixed_text(r.analytical_tokens as int, 6);
    let f5 = speedup_text(r.empirical_speedup, 6);
    let f6 = fixed_text(r.analytical_speedup as int, 6);
    let l1 = f0 + ","@;
    let l2 = l1 + f1 + ","@;
    let l3 = l2 + f2 + ","@;
    let l4 = l3 + f3 + ","@;
    let l5 = l4 + f4 + ","@;
    let l6 = l5 + f5 + ","@;
    assert(csv_row(r) == l6 + f6 + "\n"@);
    let t6 = f6 + "\n"@;
    let t5 = f5 + ","@ + t6;
    let t4 = f4 + ","@ + t5;
    let t3 = f3 + ","@ + t4;
    let t2 = f2 + ","@ + t3;
    let t1 = f1 + ","@ + t2;
    lemma_regroup(l6, f6, "\n"@);
    lemma_move_field(l5, f5, t6);
    lemma_move_field(l4, f4, t5);
    lemma_move_field(l3, f3, t4);
    lemma_move_field(l2, f2, t3);
    lemma_move_field(l1, f1, t2);
    assert(csv_row(r) == l1 + t1);
}

/// None of the fields of a line holds a comma or a line's end.
pub proof fn law_csv_fields_hold_no_separator(r: SweepRow)
    ensures
        in_field(nat_text(r.k as nat)),
        in_field(fixed_text(r.alpha_target as int, 4)),
        in_field(fixed_text(r.alpha_measured as int, 6)),
        in_field(optional_text(r.empirical_tokens, 6)),
        in_field(fixed_text(r.analytical_tokens as int, 6)),
        in_field(speedup_text(r.empirical_speedup, 6)),
        in_field(fixed_text(r.analytical_speedup as int, 6)),
{
    law_counts_read_back(r.k as nat);
    lemma_number_in_field(r.alpha_target as int, 4);
    lemma_number_in_field(r.alpha_measured as int, 6);
    lemma_optional_in_field(r.empirical_tokens, 6);
    lemma_number_in_field(r.analytical_tokens as int, 6);
    lemma_speedup_in_field(r.empirical_speedup, 6);
    lemma_number_in_field(r.analytical_speedup as int, 6);
}

/// A line tells its row: rows of equal lines have equal draft lengths, and every other
/// value of theirs has equal text.
pub proof fn law_csv_row_tells_its_row(x: SweepRow, y: SweepRow)
    requires
        csv_row(x) == csv_row(y),
    ensures
        x.k == y.k,
        fixed_text(x.alpha_target as int, 4) == fixed_text(y.alpha_target as int, 4),
        fixed_text(x.alpha_measured as int, 6) == fixed_text(y.alpha_measured as int, 6),
        optional_text(x.empirical_tokens, 6) == optional_text(y.empirical_tokens, 6),
        fixed_text(x.analytical_tokens as int, 6) == fixed_text(y.analytical_tokens as int, 6),
        speedup_text(x.empirical_speedup, 6) == speedup_text(y.empirical_speedup, 6),
        fixed_text(x.analytical_speedup as int, 6) == fixed_text(y.analytical_speedup as int, 6),
{
    law_csv_row_is_seven_fields(x);
    law_csv_row_is_seven_fields(y);
    law_csv_fields_hold_no_separator(x);
    law_csv_fields_hold_no_separator(y);
    let (x0, y0) = (nat_text(x.k as nat), nat_text(y.k as nat));
    let (x1, y1) = (fixed_text(x.alpha_target as int, 4), fixed_text(y.alpha_target as int, 4));
    let (x2, y2) = (fixed_text(x.alpha_measured as int, 6), fixed_text(y.alpha_measured as int, 6));
    let (x3, y3) = (optional_text(x.empirical_tokens, 6), optional_text(y.empirical_tokens, 6));
    let (x4, y4) = (
        fixed_text(x.analytical_tokens as int, 6),
        fixed_text(y.analytical_tokens as int, 6),
    );
    let (x5, y5) = (speedup_text(x.empirical_speedup, 6), speedup_text(y.empirical_speedup, 6));
    let (x6, y6) = (
        fixed_text(x.analytical_speedup as int, 6) + "\n"@,
        fixed_text(y.analytical_speedup as int, 6) + "\n"@,
    );
    let (u5, v5) = (x5 + ","@ + x6, y5 + ","@ + y6);
    let (u4, v4) = (x4 + ","@ + u5, y4 + ","@ + v5);
    let (u3, v3) = (x3 + ","@ + u4, y3 + ","@ + v4);
    let (u2, v2) = (x2 + ","@ + u3, y2 + ","@ + v3);
    let (u1, v1) = (x1 + ","@ + u2, y1 + ","@ + v2);
    lemma_first_field(x0, u1, y0, v1);
    lemma_first_field(x1, u2, y1, v2);
    lemma_first_field(x2, u3, y2, v3);
    lemma_first_field(x3, u4, y3, v4);
    lemma_first_field(x4, u5, y4, v5);
    lemma_first_field(x5, x6, y5, y6);
    let (a, b) = (
        fixed_text(x.analytical_speedup as int, 6),
        fixed_text(y.analytical_speedup as int, 6),
    );
    assert(x6.len() == a.len() + "\n"@.len());
    assert(y6.len() == b.len() + "\n"@.len());
    lemma_split_at(a, "\n"@, b, "\n"@);
    law_counts_read_back(x.k as nat);
    law_counts_read_back(y.k as nat);
}

/// Text without a line's end.
spec fn in_line(t: Seq<char>) -> bool {
    forall|i: int| 0 <= i < t.len() ==> #[trigger] t[i] != '\n'
}

/// A field, a comma and more text without a line's end are such text.
proof fn lemma_line_of_field(field: Seq<char>, behind: Seq<char>)
    requires
        in_field(field),
        in_line(behind),
    ensures
        in_line(field + ","@ + behind),
{
    reveal_strlit(",");
}

/// A line is text without a line's end, and a line's end.
proof fn lemma_csv_row_is_a_line(r: SweepRow) -> (body: Seq<char>)
    ensures
        csv_row(r) == body + "\n"@,
        in_line(body),
{
    let f0 = nat_text(r.k as nat);
    let f1 = fixed_text(r.alpha_target as int, 4);
    let f2 = fixed_text(r.alpha_measured as int, 6);
    let f3 = optional_text(r.empirical_tokens, 6);
    let f4 = fixed_text(r.analytical_tokens as int, 6);
    let f5 = speedup_text(r.empirical_speedup, 6);
    let f6 = fixed_text(r.analytical_speedup as int, 6);
    law_csv_fields_hold_no_separator(r);
    law_csv_row_is_seven_fields(r);
    let end = "\n"@;
    let t5 = f5 + ","@ + f6;
    let t4 = f4 + ","@ + t5;
    let t3 = f3 + ","@ + t4;
    let t2 = f2 + ","@ + t3;
    let t1 = f1 + ","@ + t2;
    let t0 = f0 + ","@ + t1;
    assert(in_line(f6));
    lemma_line_of_field(f5, f6);
    lemma_line_of_field(f4, t5);
    lemma_line_of_field(f3, t4);
    lemma_line_of_field(f2, t3);
    lemma_line_of_field(f1, t2);
    lemma_line_of_field(f0, t1);
    lemma_regroup(f5 + ","@, f6, end);
    lemma_regroup(f4 + ","@, t5, end);
    lemma_regroup(f3 + ","@, t4, end);
    lemma_regroup(f2 + ","@, t3, end);
    lemma_regroup(f1 + ","@, t2, end);
    lemma_regroup(f0 + ","@, t1, end);
    t0
}

/// The values of a sweep grow by a line with each row: a result of one row more has
/// the text of the others, and then the line of that row.
pub proof fn law_csv_grows_by_lines(x: SweepResult, y: SweepResult, r: SweepRow)
    requires
        y.rows@ == x.rows@.push(r),
    ensures
        y.csv_text() == x.csv_text() + csv_row(r),
{
    let n = x.rows@.len();
    lemma_csv_rows_agree(x.rows@, y.rows@, n);
    assert(y.csv_text() =~= x.csv_text() + csv_row(r));
}

/// The values of no rows are the header.
pub proof fn law_csv_begins_with_its_header(x: SweepResult)
    requires
        x.rows@.len() == 0,
    ensures
        x.csv_text()
            == "k,alpha_target,alpha_measured,empirical_tokens,analytical_tokens,empirical_speedup,analytical_speedup\n"@,
{
    assert(x.csv_text()
        =~= "k,alpha_target,alpha_measured,empirical_tokens,analytical_tokens,empirical_speedup,analytical_speedup\n"@);
}

proof fn lemma_csv_rows_agree(x: Seq<SweepRow>, y: Seq<SweepRow>, n: nat)
    requires
        n <= x.len(),
        n <= y.len(),
        forall|i: int| 0 <= i < n ==> x[i] == y[i],
    ensures
        csv_rows(x, n) == csv_rows(y, n),
    decreases n,
{
    if n > 0 {
        lemma_csv_rows_agree(x, y, (n - 1) as nat);
    }
}

/// Lines are told apart by their ends: equal texts that end in a line each have equal
/// last lines and equal texts before them.
proof fn lemma_last_line(
    before: Seq<char>,
    line: Seq<char>,
    other_before: Seq<char>,
    other_line: Seq<char>,
)
    requires
        before.len() > 0,
        other_before.len() > 0,
        before.last() == '\n',
        other_before.last() == '\n',
        in_line(line),
        in_line(other_line),
        before + (line + "\n"@) == other_before + (other_line + "\n"@),
    ensures
        before == other_before,
        line == other_line,
{
    reveal_strlit("\n");
    let x = before + (line + "\n"@);
    let y = other_before + (other_line + "\n"@);
    let (m, n) = (before.len() as int, other_before.len() as int);
    assert(x.len() == m + line.len() + 1);
    assert(y.len() == n + other_line.len() + 1);
    if m < n {
        assert(y[n - 1] == other_before[n - 1]);
        assert(x[n - 1] == line[n - 1 - m]);
    } else if n < m {
        assert(x[m - 1] == before[m - 1]);
        assert(y[m - 1] == other_line[m - 1 - n]);
    }
    assert(m == n);
    lemma_split_at(before, line + "\n"@, other_before, other_line + "\n"@);
    lemma_split_at(line, "\n"@, other_line, "\n"@);
}

proof fn lemma_csv_tells_lines(
    head: Seq<char>,
    x: Seq<SweepRow>,
    y: Seq<SweepRow>,
    m: nat,
    n: nat,
)
    requires
        head.len() > 0,
        head.last() == '\n',
        m <= x.len(),
        n <= y.len(),
        head + csv_rows(x, m) == head + csv_rows(y, n),
    ensures
        m == n,
        forall|i: int| 0 <= i < m ==> csv_row(#[trigger] x[i]) == csv_row(y[i]),
    decreases m,
{
    if m > 0 && n > 0 {
        let (j, k) = ((m - 1) as nat, (n - 1) as nat);
        let a = lemma_csv_row_is_a_line(x[m - 1]);
        let b = lemma_csv_row_is_a_line(y[n - 1]);
        let (p, q) = (head + csv_rows(x, j), head + csv_rows(y, k));
        lemma_ends_in_a_line(head, x, j);
        lemma_ends_in_a_line(head, y, k);
        lemma_regroup(head, csv_rows(x, j), csv_row(x[m - 1]));
        lemma_regroup(head, csv_rows(y, k), csv_row(y[n - 1]));
        lemma_last_line(p, a, q, b);
        lemma_csv_tells_lines(head, x, y, j, k);
    } else if m > 0 {
        lemma_csv_rows_not_empty(x, m);
        assert((head + csv_rows(x, m)).len() == head.len() + csv_rows(x, m).len());
        assert((head + csv_rows(y, n)).len() == head.len());
    } else if n > 0 {
        lemma_csv_rows_not_empty(y, n);
        assert((head + csv_rows(y, n)).len() == head.len() + csv_rows(y, n).len());
        assert((head + csv_rows(x, m)).len() == head.len());
    }
}

proof fn lemma_csv_rows_not_empty(x: Seq<SweepRow>, n: nat)
    requires
        0 < n <= x.len(),
    ensures
        csv_rows(x, n).len() > 0,
        csv_rows(x, n).last() == '\n',
{
    reveal_strlit("\n");
    let a = lemma_csv_row_is_a_line(x[n - 1]);
    let before = csv_rows(x, (n - 1) as nat);
    assert(csv_rows(x, n) == before + (a + "\n"@));
}

proof fn lemma_ends_in_a_line(head: Seq<char>, x: Seq<SweepRow>, n: nat)
    requires
        head.len() > 0,
        head.last() == '\n',
        n <= x.len(),
    ensures
        (head + csv_rows(x, n)).len() > 0,
        (head + csv_rows(x, n)).last() == '\n',
{
    if n > 0 {
        lemma_csv_rows_not_empty(x, n);
    } else {
        assert(head + csv_rows(x, n) =~= head);
    }
}

/// The values tell the rows: results of equal text have as many rows, with the same
/// draft lengths in the same order and equal text for every other value.
pub proof fn law_csv_tells_the_rows(x: SweepResult, y: SweepResult)
    requires
        x.csv_text() == y.csv_text(),
    ensures
        x.rows@.len() == y.rows@.len(),
        forall|i: int|
            0 <= i < x.rows@.len() ==> {
                &&& csv_row(#[trigger] x.rows@[i]) == csv_row(y.rows@[i])
                &&& x.rows@[i].k == y.rows@[i].k
            },
{
    reveal_strlit(
        "k,alpha_target,alpha_measured,empirical_tokens,analytical_tokens,empirical_speedup,analytical_speedup\n",
    );
    let head =
        "k,alpha_target,alpha_measured,empirical_tokens,analytical_tokens,empirical_speedup,analytical_speedup\n"@;
    lemma_csv_tells_lines(head, x.rows@, y.rows@, x.rows@.len(), y.rows@.len());
    assert forall|i: int| 0 <= i < x.rows@.len() implies {
        &&& csv_row(#[trigger] x.rows@[i]) == csv_row(y.rows@[i])
        &&& x.rows@[i].k == y.rows@[i].k
    } by {
        law_csv_row_tells_its_row(x.rows@[i], y.rows@[i]);
    }
}

/// A line of the table: the values of its row in seven columns, aligned to the right
/// two spaces apart, the speedups with a mark behind them.
pub proof fn law_table_row_is_seven_columns(r: SweepRow)
    ensures
        ({
            let k = right_aligned(nat_text(r.k as nat), 3);
            let alpha = right_aligned(fixed_text(r.alpha_target as int, 2), 7);
            let measured = right_aligned(fixed_text(r.alpha_measured as int, 4), 9);
            let tokens = right_aligned(optional_text(r.empirical_tokens, 4), 10);
            let expected = right_aligned(fixed_text(r.analytical_tokens as int, 4), 10);
            let speedup = right_aligned(speedup_text(r.empirical_speedup, 3), 9);
            let best = right_aligned(fixed_text(r.analytical_speedup as int, 3), 9);
            table_row(r) == k + "  "@ + alpha + "  "@ + measured + "  "@ + tokens + "  "@ + expected
                + "  "@ + speedup + "x  "@ + best + "x\n"@
        }),
{
}

proof fn lemma_table_rows_agree(x: Seq<SweepRow>, y: Seq<SweepRow>, n: nat)
    requires
        n <= x.len(),
        n <= y.len(),
        forall|i: int| 0 <= i < n ==> x[i] == y[i],
    ensures
        table_rows(x, n) == table_rows(y, n),
    decreases n,
{
    if n > 0 {
        lemma_table_rows_agree(x, y, (n - 1) as nat);
    }
}

proof fn lemma_best_rows_agree(x: Seq<(i64, u32, u128)>, y: Seq<(i64, u32, u128)>, n: nat)
    requires
        n <= x.len(),
        n <= y.len(),
        forall|i: int| 0 <= i < n ==> x[i] == y[i],
    ensures
        best_rows(x, n) == best_rows(y, n),
    decreases n,
{
    if n > 0 {
        lemma_best_rows_agree(x, y, (n - 1) as nat);
    }
}

/// The table of a sweep without rows: the header, the line that names the cost ratio,
/// and nothing else.
pub proof fn law_table_of_nothing(x: SweepResult)
    requires
        x.rows@.len() == 0,
        x.optimal_per_alpha@.len() == 0,
    ensures
        x.table_text()
            == "  k    alpha  alpha_hat     emp_tok     ana_tok     emp_spd     ana_spd\n"@ + (
        "------------------------------------------------------------------------\n"@ + (
        "\nOptimal k per acceptance rate (cost_ratio = "@ + (fixed_text(x.cost_ratio as int, 3)
            + "):\n"@))),
{
    assert(x.table_text()
        =~= "  k    alpha  alpha_hat     emp_tok     ana_tok     emp_spd     ana_spd\n"@ + (
    "------------------------------------------------------------------------\n"@ + (
    "\nOptimal k per acceptance rate (cost_ratio = "@ + (fixed_text(x.cost_ratio as int, 3)
        + "):\n"@))));
}

/// The table grows by a line with each row: a result of one row more has the lines of
/// the others, then the line of that row, and then what followed them. What follows
/// the rows is what follows the header in the table of the same result without rows.
pub proof fn law_table_grows_by_lines(
    x: SweepResult,
    y: SweepResult,
    r: SweepRow,
) -> (parts: (Seq<char>, Seq<char>))
    requires
        y.rows@ == x.rows@.push(r),
        y.optimal_per_alpha@ == x.optimal_per_alpha@,
        y.cost_ratio == x.cost_ratio,
    ensures
        x.table_text() == parts.0 + parts.1,
        y.table_text() == parts.0 + table_row(r) + parts.1,
        parts.1 == "\nOptimal k per acceptance rate (cost_ratio = "@ + fixed_text(
            x.cost_ratio as int,
            3,
        ) + "):\n"@ + best_rows(x.optimal_per_alpha@, x.optimal_per_alpha@.len()),
{
    let n = x.rows@.len();
    let head = "  k    alpha  alpha_hat     emp_tok     ana_tok     emp_spd     ana_spd\n"@
        + "------------------------------------------------------------------------\n"@;
    let rows = table_rows(x.rows@, n);
    let middle = "\nOptimal k per acceptance rate (cost_ratio = "@;
    let cost = fixed_text(x.cost_ratio as int, 3);
    let best = best_rows(x.optimal_per_alpha@, x.optimal_per_alpha@.len());
    lemma_table_rows_agree(x.rows@, y.rows@, n);
    assert(table_rows(y.rows@, n + 1) == rows + table_row(r));
    lemma_regroup(head, rows, table_row(r));
    lemma_regroup_tail(head + rows, middle, cost, "):\n"@, best);
    lemma_regroup_tail(head + rows + table_row(r), middle, cost, "):\n"@, best);
    (head + rows, middle + cost + "):\n"@ + best)
}

proof fn lemma_regroup_tail(
    a: Seq<char>,
    b: Seq<char>,
    c: Seq<char>,
    d: Seq<char>,
    e: Seq<char>,
)
    ensures
        a + b + c + d + e == a + (b + c + d + e),
{
    lemma_regroup(a, b, c);
    lemma_regroup(a, b + c, d);
    lemma_regroup(a, b + c + d, e);
}

/// The table grows by a line with each best draft length, at its end.
pub proof fn law_table_grows_by_best_lengths(
    x: SweepResult,
    y: SweepResult,
    entry: (i64, u32, u128),
)
    requires
        y.rows@ == x.rows@,
        y.optimal_per_alpha@ == x.optimal_per_alpha@.push(entry),
        y.cost_ratio == x.cost_ratio,
    ensures
        y.table_text() == x.table_text() + ("  alpha = "@ + fixed_text(entry.0 as int, 2)
            + "  ->  k* = "@ + nat_text(entry.1 as nat) + "  (analytical speedup "@ + fixed_text(
            entry.2 as int,
            3,
        ) + "x)\n"@),
{
    let n = x.optimal_per_alpha@.len();
    let before = "  k    alpha  alpha_hat     emp_tok     ana_tok     emp_spd     ana_spd\n"@
        + "------------------------------------------------------------------------\n"@
        + table_rows(x.rows@, x.rows@.len()) + "\nOptimal k per acceptance rate (cost_ratio = "@
        + fixed_text(x.cost_ratio as int, 3) + "):\n"@;
    lemma_best_rows_agree(x.optimal_per_alpha@, y.optimal_per_alpha@, n);
    let best = best_rows(x.optimal_per_alpha@, n);
    assert(best_rows(y.optimal_per_alpha@, n + 1) == best + best_row(entry));
    lemma_regroup(before, best, best_row(entry));
}

} // verus!
