//! The grade report: students ranked by score, percentages to one decimal
//! place, letter grades on fixed break points, a grade histogram, and
//! summary statistics. Percentages and the mean are computed exactly over
//! integers: a percentage is kept as tenths of a percent, rounded half up.

use vstd::prelude::*;

use crate::grade::{Class, ScoreRow};
use crate::text::{append_dec, push_char, spec_dec, spec_digit_char};

verus! {

/// The letter grade of `score` out of `total` points: at least ninety
/// percent is an A, at least eighty a B, at least seventy a C, at least
/// sixty a D, anything else an F.
pub open spec fn letter_of(score: nat, total: nat) -> char {
    if 10 * score >= 9 * total {
        'A'
    } else if 10 * score >= 8 * total {
        'B'
    } else if 10 * score >= 7 * total {
        'C'
    } else if 10 * score >= 6 * total {
        'D'
    } else {
        'F'
    }
}

/// The percentage of `score` out of `total`, in tenths of a percent,
/// rounded half up.
pub open spec fn pct_tenths(score: nat, total: nat) -> nat
    recommends
        total > 0,
{
    ((2000 * score + total) / (2 * total)) as nat
}

/// The letter grade of a score.
pub fn letter_grade(score: usize, total: usize) -> (r: char)
    requires
        total > 0,
    ensures
        r == letter_of(score as nat, total as nat),
{
    let s10 = 10u128 * score as u128;
    if s10 >= 9u128 * total as u128 {
        'A'
    } else if s10 >= 8u128 * total as u128 {
        'B'
    } else if s10 >= 7u128 * total as u128 {
        'C'
    } else if s10 >= 6u128 * total as u128 {
        'D'
    } else {
        'F'
    }
}

/// The percentage of a score, in tenths of a percent.
fn pct_of(score: usize, total: usize) -> (r: u64)
    requires
        total > 0,
        score <= total,
    ensures
        r as nat == pct_tenths(score as nat, total as nat),
{
    let num = 2000u128 * score as u128 + total as u128;
    let den = 2u128 * total as u128;
    let t = num / den;
    proof {
        let q = num as int / den as int;
        vstd::arithmetic::div_mod::lemma_fundamental_div_mod(num as int, den as int);
        assert(q <= 1001) by (nonlinear_arith)
            requires
                num as int == den as int * q + num as int % den as int,
                0 <= num as int % den as int,
                den as int == 2 * (total as int),
                total as int > 0,
                num as int <= 2001 * (total as int),
        {}
    }
    t as u64
}

/// Strict lexicographic order on character sequences, by scalar value: the
/// order of student names.
pub open spec fn lex_lt(a: Seq<char>, b: Seq<char>) -> bool
    decreases a.len(),
{
    if b.len() == 0 {
        false
    } else if a.len() == 0 {
        true
    } else if a[0] == b[0] {
        lex_lt(a.drop_first(), b.drop_first())
    } else {
        (a[0] as u32) < (b[0] as u32)
    }
}

/// The name order is asymmetric.
proof fn lemma_lex_lt_asym(a: Seq<char>, b: Seq<char>)
    requires
        lex_lt(a, b),
    ensures
        !lex_lt(b, a),
    decreases a.len(),
{
    if b.len() > 0 && a.len() > 0 && a[0] == b[0] {
        lemma_lex_lt_asym(a.drop_first(), b.drop_first());
    }
}

/// The name order is transitive.
proof fn lemma_lex_lt_trans(a: Seq<char>, b: Seq<char>, c: Seq<char>)
    requires
        lex_lt(a, b),
        lex_lt(b, c),
    ensures
        lex_lt(a, c),
    decreases a.len(),
{
    if c.len() > 0 && b.len() > 0 && a.len() > 0 && a[0] == b[0] && b[0] == c[0] {
        lemma_lex_lt_trans(a.drop_first(), b.drop_first(), c.drop_first());
    }
}

/// Whether `a` comes strictly before `b` in name order.
fn str_lt(a: &str, b: &str) -> (r: bool)
    ensures
        r == lex_lt(a@, b@),
{
    let na = a.unicode_len();
    let nb = b.unicode_len();
    let mut i: usize = 0;
    proof {
        assert(a@.skip(0) =~= a@);
        assert(b@.skip(0) =~= b@);
    }
    while i < na && i < nb
        invariant
            i <= na,
            i <= nb,
            na == a@.len(),
            nb == b@.len(),
            lex_lt(a@, b@) == lex_lt(a@.skip(i as int), b@.skip(i as int)),
        decreases na - i,
    {
        let ca = a.get_char(i);
        let cb = b.get_char(i);
        proof {
            assert(a@.skip(i as int)[0] == a@[i as int]);
            assert(b@.skip(i as int)[0] == b@[i as int]);
        }
        if ca == cb {
            proof {
                assert(a@.skip(i as int).drop_first() =~= a@.skip(i + 1));
                assert(b@.skip(i as int).drop_first() =~= b@.skip(i + 1));
            }
            i += 1;
        } else {
            return (ca as u32) < (cb as u32);
        }
    }
    proof {
        assert(a@.skip(i as int).len() == na - i);
        assert(b@.skip(i as int).len() == nb - i);
    }
    i < nb
}

/// One ranked row of the report.
pub struct GradeRow {
    pub name: String,
    pub score: usize,
    pub tenths: u64,
    pub grade: char,
    pub wrong: Vec<usize>,
}

/// What identifies a score row regardless of order.
pub open spec fn score_core(s: ScoreRow) -> (Seq<char>, nat, Seq<usize>) {
    (s.name@, s.score as nat, s.wrong@)
}

/// What identifies a ranked row regardless of order.
pub open spec fn row_core(r: GradeRow) -> (Seq<char>, nat, Seq<usize>) {
    (r.name@, r.score as nat, r.wrong@)
}

/// The ranked rows carry the graded students, reordered by descending
/// score, each with its exact percentage and letter grade.
pub open spec fn ranked_ok(scores: Seq<ScoreRow>, total: nat, rows: Seq<GradeRow>) -> bool {
    &&& rows.len() == scores.len()
    &&& rows.map_values(|r: GradeRow| row_core(r)).to_multiset() == scores.map_values(
        |s: ScoreRow| score_core(s),
    ).to_multiset()
    &&& (forall|i: int, j: int|
        0 <= i < j < rows.len() ==> (#[trigger] rows[i]).score >= (#[trigger] rows[j]).score)
    &&& (forall|i: int, j: int|
        0 <= i < j < rows.len() && (#[trigger] rows[i]).score == (#[trigger] rows[j]).score
            ==> !lex_lt(rows[j].name@, rows[i].name@))
    &&& (forall|i: int|
        0 <= i < rows.len() ==> (#[trigger] rows[i]).score <= total && rows[i].tenths as nat
            == pct_tenths(rows[i].score as nat, total) && rows[i].grade == letter_of(
            rows[i].score as nat,
            total,
        ))
}

/// Ranks the graded students by descending score and computes each row's
/// percentage and letter grade.
fn ranked_rows(scores: &Vec<ScoreRow>, total: usize) -> (rows: Vec<GradeRow>)
    requires
        total > 0,
        forall|i: int| 0 <= i < scores@.len() ==> (#[trigger] scores@[i]).score <= total,
    ensures
        ranked_ok(scores@, total as nat, rows@),
{
    broadcast use vstd::seq_lib::group_to_multiset_ensures;

    let mut rows: Vec<GradeRow> = Vec::new();
    let n = scores.len();
    let mut i: usize = 0;
    proof {
        assert(rows@.map_values(|r: GradeRow| row_core(r)) =~= Seq::<
            (Seq<char>, nat, Seq<usize>),
        >::empty());
        assert(scores@.map_values(|s: ScoreRow| score_core(s)).take(0) =~= Seq::<
            (Seq<char>, nat, Seq<usize>),
        >::empty());
    }
    while i < n
        invariant
            i <= n,
            n == scores@.len(),
            total > 0,
            forall|k: int| 0 <= k < scores@.len() ==> (#[trigger] scores@[k]).score <= total,
            rows@.len() == i,
            rows@.map_values(|r: GradeRow| row_core(r)).to_multiset() == scores@.map_values(
                |s: ScoreRow| score_core(s),
            ).take(i as int).to_multiset(),
            forall|a: int, b: int|
                0 <= a < b < rows@.len() ==> (#[trigger] rows@[a]).score >= (
                #[trigger] rows@[b]).score,
            forall|a: int, b: int|
                0 <= a < b < rows@.len() && (#[trigger] rows@[a]).score == (
                #[trigger] rows@[b]).score ==> !lex_lt(rows@[b].name@, rows@[a].name@),
            forall|a: int|
                0 <= a < rows@.len() ==> (#[trigger] rows@[a]).score <= total && rows@[a].tenths
                    as nat == pct_tenths(rows@[a].score as nat, total as nat) && rows@[a].grade
                    == letter_of(rows@[a].score as nat, total as nat),
        decreases n - i,
    {
        let s = &scores[i];
        let mut wrong: Vec<usize> = Vec::new();
        let mut w: usize = 0;
        while w < s.wrong.len()
            invariant
                w <= s.wrong@.len(),
                wrong@ == s.wrong@.take(w as int),
            decreases s.wrong@.len() - w,
        {
            wrong.push(s.wrong[w]);
            proof {
                assert(wrong@ =~= s.wrong@.take(w + 1));
            }
            w += 1;
        }
        proof {
            assert(wrong@ =~= s.wrong@);
        }
        let row = GradeRow {
            name: s.name.clone(),
            score: s.score,
            tenths: pct_of(s.score, total),
            grade: letter_grade(s.score, total),
            wrong,
        };
        let ghost pre = rows@;
        let mut pos: usize = 0;
        while pos < rows.len() && (rows[pos].score > row.score || (rows[pos].score == row.score
            && !str_lt(row.name.as_str(), rows[pos].name.as_str())))
            invariant
                pos <= rows@.len(),
                rows@ == pre,
                forall|a: int|
                    0 <= a < pos ==> (#[trigger] rows@[a]).score > row.score || (rows@[a].score
                        == row.score && !lex_lt(row.name@, rows@[a].name@)),
            decreases rows@.len() - pos,
        {
            pos += 1;
        }
        proof {
            if (pos as int) < pre.len() {
                assert(pre[pos as int].score < row.score || (pre[pos as int].score == row.score
                    && lex_lt(row.name@, pre[pos as int].name@)));
            }
        }
        rows.insert(pos, row);
        proof {
            // The two orderings survive the insertion: rows before `pos`
            // precede the new row, and every row from `pos` on follows it.
            assert forall|a: int, b: int|
                0 <= a < b < rows@.len() && (#[trigger] rows@[a]).score == (
                #[trigger] rows@[b]).score implies !lex_lt(rows@[b].name@, rows@[a].name@) by {
                let p = pos as int;
                if a < p && b == p {
                    assert(rows@[a] == pre[a] && rows@[b] == row);
                } else if a == p && b > p {
                    assert(rows@[a] == row && rows@[b] == pre[b - 1]);
                    assert(pre[p].score == row.score && lex_lt(row.name@, pre[p].name@));
                    if b - 1 > p {
                        assert(pre[p].score >= pre[b - 1].score);
                        assert(!lex_lt(pre[b - 1].name@, pre[p].name@));
                        if lex_lt(pre[b - 1].name@, row.name@) {
                            lemma_lex_lt_trans(pre[b - 1].name@, row.name@, pre[p].name@);
                        }
                    } else {
                        lemma_lex_lt_asym(row.name@, pre[p].name@);
                    }
                } else if a < p && b < p {
                    assert(rows@[a] == pre[a] && rows@[b] == pre[b]);
                } else if a > p && b > p {
                    assert(rows@[a] == pre[a - 1] && rows@[b] == pre[b - 1]);
                } else if a < p && b > p {
                    assert(rows@[a] == pre[a] && rows@[b] == pre[b - 1]);
                }
            }
            assert(row_core(row) == score_core(scores@[i as int]));
            assert(rows@.map_values(|r: GradeRow| row_core(r)) =~= pre.map_values(
                |r: GradeRow| row_core(r),
            ).insert(pos as int, row_core(row)));
            let mapped = pre.map_values(|r: GradeRow| row_core(r));
            assert(mapped.len() == pre.len());
            vstd::seq_lib::to_multiset_insert(mapped, pos as int, row_core(row));
            let sc = scores@.map_values(|s: ScoreRow| score_core(s));
            assert(sc.take(i + 1) =~= sc.take(i as int).push(sc[i as int]));
            vstd::seq_lib::to_multiset_build(sc.take(i as int), sc[i as int]);
            assert(sc[i as int] == score_core(scores@[i as int]));
        }
        i += 1;
    }
    proof {
        assert(scores@.map_values(|s: ScoreRow| score_core(s)).take(n as int) =~= scores@
            .map_values(|s: ScoreRow| score_core(s)));
    }
    rows
}

/// The sum of the first `i` ranked scores.
pub open spec fn sum_scores(rows: Seq<GradeRow>, i: int) -> nat
    decreases i,
{
    if i <= 0 {
        0
    } else {
        sum_scores(rows, i - 1) + rows[i - 1].score as nat
    }
}

/// How many of the first `i` rows carry this letter grade.
pub open spec fn count_grade(rows: Seq<GradeRow>, c: char, i: int) -> nat
    decreases i,
{
    if i <= 0 {
        0
    } else {
        count_grade(rows, c, i - 1) + (if rows[i - 1].grade == c {
            1nat
        } else {
            0nat
        })
    }
}

/// The mean score: the sum over the count, rounded to the nearest whole
/// point, half up.
pub open spec fn mean_of(sum: nat, count: nat) -> nat
    recommends
        count > 0,
{
    ((2 * sum + count) / (2 * count)) as nat
}

/// A percentage in tenths, rendered to one decimal place.
pub open spec fn pct_str(t: nat) -> Seq<char> {
    spec_dec(t / 10) + "."@ + seq![spec_digit_char((t % 10) as int)] + "%"@
}

/// The wrong-question positions joined by a comma and a space.
pub open spec fn wrong_join(ws: Seq<usize>, i: int) -> Seq<char>
    decreases i,
{
    if i <= 0 {
        Seq::empty()
    } else if i == 1 {
        spec_dec(ws[0] as nat)
    } else {
        wrong_join(ws, i - 1) + ", "@ + spec_dec(ws[i - 1] as nat)
    }
}

/// One ranked table line.
pub open spec fn grade_line(r: GradeRow) -> Seq<char> {
    r.name@ + "|"@ + spec_dec(r.score as nat) + "|"@ + pct_str(r.tenths as nat) + "|"@ + seq![
        r.grade,
    ] + "|"@ + wrong_join(r.wrong@, r.wrong@.len() as int) + "\n"@
}

/// The first `i` ranked table lines.
pub open spec fn grade_lines(rows: Seq<GradeRow>, i: int) -> Seq<char>
    decreases i,
{
    if i <= 0 {
        Seq::empty()
    } else {
        grade_lines(rows, i - 1) + grade_line(rows[i - 1])
    }
}

/// The ranked table.
pub open spec fn grades_table(rows: Seq<GradeRow>) -> Seq<char> {
    "Name|Score|Percent|Grade|Questions\n-|-:|-:|-|-\n"@ + grade_lines(rows, rows.len() as int)
}

/// The part of a statistics line after its label: the value, an optional
/// percentage, and an optional letter grade.
pub open spec fn stat_rest(value: nat, pct: Option<nat>, grade: Option<char>) -> Seq<char> {
    "|"@ + spec_dec(value) + "|"@ + (match pct {
        Some(t) => pct_str(t),
        None => Seq::empty(),
    }) + "|"@ + (match grade {
        Some(c) => seq![c],
        None => Seq::empty(),
    }) + "\n"@
}

/// The head of the statistics table: the column header and the three
/// count lines.
pub open spec fn stats_part1(n_students: nat, n_questions: nat, total: nat) -> Seq<char> {
    "Description|Value|Percent|Grade\n-|-:|-:|-\n"@ + "Number of students"@ + stat_rest(
        n_students,
        None,
        None,
    ) + "Number of questions"@ + stat_rest(n_questions, None, None) + "Total points"@ + stat_rest(
        total,
        None,
        None,
    )
}

/// The high, low and mean score lines, each with percentage and grade.
pub open spec fn stats_part2(rows: Seq<GradeRow>, n_students: nat, total: nat) -> Seq<char>
    recommends
        rows.len() > 0,
{
    let n = rows.len() as int;
    let sum = sum_scores(rows, n);
    let high = rows[0].score as nat;
    let low = rows[n - 1].score as nat;
    let mean = mean_of(sum, n_students);
    "High score"@ + stat_rest(high, Some(pct_tenths(high, total)), Some(letter_of(high, total)))
        + "Low score"@ + stat_rest(low, Some(pct_tenths(low, total)), Some(letter_of(low, total)))
        + "Mean score"@ + stat_rest(
        mean,
        Some(pct_tenths(mean, total)),
        Some(letter_of(mean, total)),
    )
}

/// One histogram line: the letter, how many students got it, and the share
/// of the class.
pub open spec fn hist_line(rows: Seq<GradeRow>, c: char, n_students: nat) -> Seq<char> {
    let count = count_grade(rows, c, rows.len() as int);
    seq![c] + stat_rest(count, Some(pct_tenths(count, n_students)), None)
}

/// The grade histogram lines, one per letter.
pub open spec fn stats_part3(rows: Seq<GradeRow>, n_students: nat) -> Seq<char> {
    hist_line(rows, 'A', n_students) + hist_line(rows, 'B', n_students) + hist_line(
        rows,
        'C',
        n_students,
    ) + hist_line(rows, 'D', n_students) + hist_line(rows, 'F', n_students)
}

/// The summary statistics table: counts, totals, high, low and mean score,
/// then the grade histogram.
pub open spec fn stats_table(
    rows: Seq<GradeRow>,
    n_students: nat,
    n_questions: nat,
    total: nat,
) -> Seq<char>
    recommends
        rows.len() > 0,
{
    stats_part1(n_students, n_questions, total) + stats_part2(rows, n_students, total)
        + stats_part3(rows, n_students)
}

/// The whole report: the description as a heading, the ranked table, then
/// the summary statistics.
pub open spec fn spec_report(
    desc: Seq<char>,
    rows: Seq<GradeRow>,
    n_students: nat,
    n_questions: nat,
    total: nat,
) -> Seq<char> {
    "# "@ + desc + "\n\n"@ + grades_table(rows) + "\n"@ + stats_table(
        rows,
        n_students,
        n_questions,
        total,
    )
}

/// Appends a percentage in tenths, to one decimal place.
fn append_pct(out: &mut String, t: u64)
    ensures
        final(out)@ == old(out)@ + pct_str(t as nat),
{
    append_dec(out, t / 10);
    out.append(".");
    push_char(out, (('0' as u8) + (t % 10) as u8) as char);
    out.append("%");
    proof {
        assert(out@ =~= old(out)@ + pct_str(t as nat));
    }
}

/// Appends the wrong-question positions joined by a comma and a space.
fn append_wrong(out: &mut String, ws: &Vec<usize>)
    ensures
        final(out)@ == old(out)@ + wrong_join(ws@, ws@.len() as int),
{
    let n = ws.len();
    let mut i: usize = 0;
    while i < n
        invariant
            i <= n,
            n == ws@.len(),
            out@ == old(out)@ + wrong_join(ws@, i as int),
        decreases n - i,
    {
        if i > 0 {
            out.append(", ");
        }
        append_dec(out, ws[i] as u64);
        proof {
            assert(ws@[i as int] as u64 as nat == ws@[i as int] as nat);
            assert(out@ =~= old(out)@ + wrong_join(ws@, i + 1));
        }
        i += 1;
    }
}

/// Appends the part of a statistics line after its label.
fn append_stat_rest(out: &mut String, value: usize, pct: Option<u64>, grade: Option<char>)
    ensures
        final(out)@ == old(out)@ + stat_rest(
            value as nat,
            match pct {
                Some(t) => Some(t as nat),
                None => None,
            },
            grade,
        ),
{
    out.append("|");
    append_dec(out, value as u64);
    out.append("|");
    match pct {
        Some(t) => {
            append_pct(out, t);
        },
        None => {},
    }
    out.append("|");
    match grade {
        Some(c) => {
            push_char(out, c);
        },
        None => {},
    }
    out.append("\n");
    proof {
        assert(value as u64 as nat == value as nat);
        assert(out@ =~= old(out)@ + stat_rest(
            value as nat,
            match pct {
                Some(t) => Some(t as nat),
                None => None,
            },
            grade,
        ));
    }
}

/// The sum of the ranked scores is bounded by the count times any bound on
/// each score.
proof fn lemma_sum_bound(rows: Seq<GradeRow>, i: int, bound: nat)
    requires
        0 <= i <= rows.len(),
        forall|k: int| 0 <= k < rows.len() ==> (#[trigger] rows[k]).score as nat <= bound,
    ensures
        sum_scores(rows, i) <= i * bound,
    decreases i,
{
    if i > 0 {
        lemma_sum_bound(rows, i - 1, bound);
        assert((i - 1) * bound + bound == i * bound) by (nonlinear_arith);
    }
}

/// How many rows carry this letter grade, at most all of them.
proof fn lemma_count_grade_le(rows: Seq<GradeRow>, c: char, i: int)
    requires
        0 <= i <= rows.len(),
    ensures
        count_grade(rows, c, i) <= i,
    decreases i,
{
    if i > 0 {
        lemma_count_grade_le(rows, c, i - 1);
    }
}

/// Counts the rows carrying this letter grade.
fn count_of(rows: &Vec<GradeRow>, c: char) -> (r: usize)
    ensures
        r as nat == count_grade(rows@, c, rows@.len() as int),
        r <= rows@.len(),
{
    let n = rows.len();
    let mut count: usize = 0;
    let mut i: usize = 0;
    while i < n
        invariant
            i <= n,
            n == rows@.len(),
            count as nat == count_grade(rows@, c, i as int),
            count <= i,
        decreases n - i,
    {
        if rows[i].grade == c {
            count += 1;
        }
        i += 1;
    }
    count
}

/// The mean is the integer quotient, plus one when the remainder is at
/// least half the divisor.
proof fn lemma_mean_split(s: nat, c: nat)
    requires
        c > 0,
    ensures
        mean_of(s, c) == s / c + (if 2 * (s % c) >= c {
            1nat
        } else {
            0nat
        }),
{
    let q = s as int / c as int;
    let r = s as int % c as int;
    vstd::arithmetic::div_mod::lemma_fundamental_div_mod(s as int, c as int);
    let b: int = if 2 * r >= c {
        1
    } else {
        0
    };
    let r2 = 2 * r + c - 2 * c * b;
    assert(2 * s + c == (q + b) * (2 * c) + r2) by (nonlinear_arith)
        requires
            s as int == c as int * q + r,
            b == if 2 * r >= c {
                1int
            } else {
                0int
            },
            r2 == 2 * r + c - 2 * c * b,
    {}
    assert(0 <= r2 < 2 * c);
    vstd::arithmetic::div_mod::lemma_fundamental_div_mod_converse(
        2 * (s as int) + c as int,
        2 * (c as int),
        q + b,
        r2,
    );
}

/// Computes the mean score of the ranked rows, rounded half up. It never
/// exceeds the highest score.
fn mean_score(rows: &Vec<GradeRow>, total: usize) -> (r: usize)
    requires
        rows@.len() > 0,
        forall|k: int| 0 <= k < rows@.len() ==> (#[trigger] rows@[k]).score <= total,
        forall|i: int, j: int|
            0 <= i < j < rows@.len() ==> (#[trigger] rows@[i]).score >= (
            #[trigger] rows@[j]).score,
    ensures
        r as nat == mean_of(sum_scores(rows@, rows@.len() as int), rows@.len() as nat),
        r <= rows@[0].score,
{
    let n = rows.len();
    let mut sum: u128 = 0;
    let mut i: usize = 0;
    while i < n
        invariant
            i <= n,
            n == rows@.len(),
            forall|k: int| 0 <= k < rows@.len() ==> (#[trigger] rows@[k]).score <= total,
            sum == sum_scores(rows@, i as int),
        decreases n - i,
    {
        proof {
            lemma_sum_bound(rows@, i + 1, total as nat);
            assert((i + 1) * (total as nat) < 0x100000000000000000000000000000000int)
                by (nonlinear_arith)
                requires
                    0 <= i + 1 <= 0x10000000000000000int,
                    0 <= total < 0x10000000000000000int,
            {}
        }
        sum = sum + rows[i].score as u128;
        i += 1;
    }
    let count = n as u128;
    let q = sum / count;
    let rem = sum % count;
    let half_up: u128 = if 2 * rem >= count {
        1
    } else {
        0
    };
    proof {
        lemma_mean_split(sum as nat, count as nat);
        let high = rows@[0].score as nat;
        assert(forall|k: int| 0 <= k < rows@.len() ==> (#[trigger] rows@[k]).score as nat <= high);
        lemma_sum_bound(rows@, n as int, high);
        let qq = sum as int / count as int;
        vstd::arithmetic::div_mod::lemma_fundamental_div_mod(sum as int, count as int);
        assert(qq + 1 <= high as int || (qq <= high as int && sum as int % count as int == 0))
            by (nonlinear_arith)
            requires
                sum as int == count as int * qq + sum as int % (count as int),
                0 <= sum as int % (count as int),
                sum as int % (count as int) < count as int,
                count as int > 0,
                sum as int <= count as int * (high as int),
        {}
        assert(q + half_up <= high);
    }
    (q + half_up) as usize
}

impl Class {
    /// The rendered report: the description, the ranked table of every
    /// student's score, percentage, letter grade and wrong questions
    /// (descending by score, ties by ascending name), and the summary
    /// statistics with the grade histogram. Must be graded first, with at
    /// least one student and at least one point.
    #[verifier::rlimit(60)]
    pub fn markdown(&self) -> (r: String)
        requires
            self.total > 0,
            self.scores@.len() > 0,
            self.students@.len() == self.scores@.len(),
            forall|i: int| 0 <= i < self.scores@.len() ==> (#[trigger] self.scores@[i]).score
                <= self.total,
        ensures
            exists|rows: Seq<GradeRow>|
                ranked_ok(self.scores@, self.total as nat, rows) && r@ == spec_report(
                    self.description@,
                    rows,
                    self.students@.len() as nat,
                    self.questions as nat,
                    self.total as nat,
                ),
    {
        let total = self.total;
        let rows = ranked_rows(&self.scores, total);
        let n = rows.len();
        assert(n > 0);

        let high = rows[0].score;
        let low = rows[n - 1].score;
        let mean = mean_score(&rows, total);

        let mut out = String::new();
        out.append("# ");
        out.append(self.description.as_str());
        out.append("\n\n");
        out.append("Name|Score|Percent|Grade|Questions\n-|-:|-:|-|-\n");
        let mut j: usize = 0;
        let ghost table_start = out@;
        while j < n
            invariant
                j <= n,
                n == rows@.len(),
                total > 0,
                forall|k: int| 0 <= k < rows@.len() ==> (#[trigger] rows@[k]).score <= total,
                out@ == table_start + grade_lines(rows@, j as int),
            decreases n - j,
        {
            let row = &rows[j];
            out.append(row.name.as_str());
            out.append("|");
            append_dec(&mut out, row.score as u64);
            out.append("|");
            append_pct(&mut out, row.tenths);
            out.append("|");
            push_char(&mut out, row.grade);
            out.append("|");
            append_wrong(&mut out, &row.wrong);
            out.append("\n");
            proof {
                assert(rows@[j as int].score as u64 as nat == rows@[j as int].score as nat);
                assert(out@ =~= table_start + grade_lines(rows@, j + 1));
            }
            j += 1;
        }
        out.append("\n");
        let n_students = self.students.len();
        append_stats_table(&mut out, &rows, n_students, self.questions, total);
        proof {
            assert(out@ =~= spec_report(
                self.description@,
                rows@,
                self.students@.len() as nat,
                self.questions as nat,
                self.total as nat,
            ));
        }
        out
    }
}

/// Appends one histogram line.
fn append_hist_line(out: &mut String, rows: &Vec<GradeRow>, c: char, n_students: usize)
    requires
        n_students == rows@.len(),
        rows@.len() > 0,
    ensures
        final(out)@ == old(out)@ + hist_line(rows@, c, n_students as nat),
{
    let count = count_of(rows, c);
    push_char(out, c);
    append_stat_rest(out, count, Some(pct_of(count, n_students)), None);
    proof {
        assert(out@ =~= old(out)@ + hist_line(rows@, c, n_students as nat));
    }
}

/// Appends the head of the statistics table.
fn append_stats_part1(out: &mut String, n_students: usize, n_questions: usize, total: usize)
    ensures
        final(out)@ == old(out)@ + stats_part1(
            n_students as nat,
            n_questions as nat,
            total as nat,
        ),
{
    out.append("Description|Value|Percent|Grade\n-|-:|-:|-\n");
    out.append("Number of students");
    append_stat_rest(out, n_students, None, None);
    out.append("Number of questions");
    append_stat_rest(out, n_questions, None, None);
    out.append("Total points");
    append_stat_rest(out, total, None, None);
    proof {
        assert(out@ =~= old(out)@ + stats_part1(
            n_students as nat,
            n_questions as nat,
            total as nat,
        ));
    }
}

/// Appends the high, low and mean score lines.
fn append_stats_part2(out: &mut String, rows: &Vec<GradeRow>, n_students: usize, total: usize)
    requires
        total > 0,
        rows@.len() > 0,
        n_students == rows@.len(),
        forall|k: int| 0 <= k < rows@.len() ==> (#[trigger] rows@[k]).score <= total,
        forall|i: int, j: int|
            0 <= i < j < rows@.len() ==> (#[trigger] rows@[i]).score >= (
            #[trigger] rows@[j]).score,
    ensures
        final(out)@ == old(out)@ + stats_part2(rows@, n_students as nat, total as nat),
{
    let n = rows.len();
    let high = rows[0].score;
    let low = rows[n - 1].score;
    let mean = mean_score(rows, total);
    out.append("High score");
    append_stat_rest(out, high, Some(pct_of(high, total)), Some(letter_grade(high, total)));
    out.append("Low score");
    append_stat_rest(out, low, Some(pct_of(low, total)), Some(letter_grade(low, total)));
    out.append("Mean score");
    append_stat_rest(out, mean, Some(pct_of(mean, total)), Some(letter_grade(mean, total)));
    proof {
        assert(out@ =~= old(out)@ + stats_part2(rows@, n_students as nat, total as nat));
    }
}

/// Appends the summary statistics table.
fn append_stats_table(
    out: &mut String,
    rows: &Vec<GradeRow>,
    n_students: usize,
    n_questions: usize,
    total: usize,
)
    requires
        total > 0,
        rows@.len() > 0,
        n_students == rows@.len(),
        forall|k: int| 0 <= k < rows@.len() ==> (#[trigger] rows@[k]).score <= total,
        forall|i: int, j: int|
            0 <= i < j < rows@.len() ==> (#[trigger] rows@[i]).score >= (
            #[trigger] rows@[j]).score,
    ensures
        final(out)@ == old(out)@ + stats_table(
            rows@,
            n_students as nat,
            n_questions as nat,
            total as nat,
        ),
{
    append_stats_part1(out, n_students, n_questions, total);
    append_stats_part2(out, rows, n_students, total);
    append_hist_line(out, rows, 'A', n_students);
    append_hist_line(out, rows, 'B', n_students);
    append_hist_line(out, rows, 'C', n_students);
    append_hist_line(out, rows, 'D', n_students);
    append_hist_line(out, rows, 'F', n_students);
    proof {
        assert(out@ =~= old(out)@ + stats_table(
            rows@,
            n_students as nat,
            n_questions as nat,
            total as nat,
        ));
    }
}

} // verus!
