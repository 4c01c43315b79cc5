//! The texts of the cells of a table: justified to the width of their
//! column.

use vstd::prelude::*;
use vstd::string::StrSliceExecFns;
use crate::economy::monthly_activities::MonthlyActivities;
use crate::economy::traits::Activity;
use crate::menus::activity_summary::ActivitySummary;
use crate::menus::statistics::{spec_takes, Filter, FilterView};
use crate::text::{path_view, push_char, push_text};

verus! {

/// `n` spaces.
pub open spec fn spaces(n: nat) -> Seq<char> {
    Seq::new(n, |i: int| ' ')
}

/// Writes `n` spaces behind `out`.
fn push_spaces(out: &mut String, n: usize)
    ensures
        final(out)@ == old(out)@ + spaces(n as nat),
{
    let mut i: usize = 0;
    assert(out@ =~= old(out)@ + spaces(0));
    while i < n
        invariant
            i <= n,
            out@ == old(out)@ + spaces(i as nat),
        decreases n - i,
    {
        push_char(out, ' ');
        i = i + 1;
        assert(out@ =~= old(out)@ + spaces(i as nat));
    }
}

/// The text with spaces behind it, as many as it lacks to the width.
pub open spec fn spec_left_justify(s: Seq<char>, width: nat) -> Seq<char> {
    s + spaces((width - s.len()) as nat)
}

/// The text with spaces behind it, as many as it lacks to the width. The
/// text must be no longer than the width.
pub fn left_justify_string(s: &String, width: usize) -> (r: String)
    requires
        s@.len() <= width,
    ensures
        r@ == spec_left_justify(s@, width as nat),
{
    let length_s = s.as_str().unicode_len();
    let mut r = s.clone();
    push_spaces(&mut r, width - length_s);
    r
}

/// The text with spaces on both sides, as many as it lacks to the width,
/// the odd one behind it. A text longer than the width stays as it is.
pub open spec fn spec_center(s: Seq<char>, width: nat) -> Seq<char> {
    if width < s.len() {
        s
    } else {
        let left = (width - s.len()) / 2;
        spaces(left as nat) + s + spaces((width - left - s.len()) as nat)
    }
}

/// The text with spaces on both sides, as many as it lacks to the width,
/// the odd one behind it. A text longer than the width stays as it is.
pub fn center_string(s: &String, width: usize) -> (r: String)
    ensures
        r@ == spec_center(s@, width as nat),
{
    let length_s = s.as_str().unicode_len();
    if width < length_s {
        return s.clone();
    }
    let left_pad_size = (width - length_s) / 2;
    let right_pad_size = width - left_pad_size - length_s;
    let mut r = String::new();
    push_spaces(&mut r, left_pad_size);
    push_text(&mut r, s.as_str());
    push_spaces(&mut r, right_pad_size);
    assert(r@ =~= spec_center(s@, width as nat));
    r
}

/// The texts with `sep` between them.
pub open spec fn join_texts(parts: Seq<Seq<char>>, sep: Seq<char>) -> Seq<char>
    decreases parts.len(),
{
    if parts.len() == 0 {
        Seq::empty()
    } else if parts.len() == 1 {
        parts[0]
    } else {
        join_texts(parts.drop_last(), sep) + sep + parts.last()
    }
}

/// The cells of a row: for each column, its text, or the empty text
/// where the row has none, with spaces behind it to the width of the
/// column.
pub open spec fn justified_cells(texts: Seq<Seq<char>>, widths: Seq<usize>) -> Seq<Seq<char>> {
    Seq::new(
        widths.len(),
        |i: int|
            spec_left_justify(
                if i < texts.len() {
                    texts[i]
                } else {
                    Seq::empty()
                },
                widths[i] as nat,
            ),
    )
}

/// No text of the row is longer than the width of its column.
pub open spec fn fits(texts: Seq<Seq<char>>, widths: Seq<usize>) -> bool {
    forall|i: int| 0 <= i < texts.len() && i < widths.len() ==> (#[trigger] texts[i]).len() <= widths[i]
}

/// The cells of a row with `sep` between them: each text with spaces
/// behind it to the width of its column.
pub open spec fn spec_types_text(
    texts: Seq<Seq<char>>,
    widths: Seq<usize>,
    sep: Seq<char>,
) -> Seq<char> {
    join_texts(justified_cells(texts, widths), sep)
}

/// The cells of a row with `sep` between them: each text with spaces
/// behind it to the width of its column. No text may be longer than the
/// width of its column.
pub fn types_text(ts: &Vec<String>, column_widths: &Vec<usize>, sep: &str) -> (r: String)
    requires
        fits(path_view(ts@), column_widths@),
    ensures
        r@ == spec_types_text(path_view(ts@), column_widths@, sep@),
{
    let ghost cells = justified_cells(path_view(ts@), column_widths@);
    let mut r = String::new();
    let empty = String::new();
    let mut i: usize = 0;
    proof {
        assert(cells.take(0) =~= Seq::<Seq<char>>::empty());
    }
    while i < column_widths.len()
        invariant
            i <= column_widths.len(),
            empty@.len() == 0,
            fits(path_view(ts@), column_widths@),
            cells == justified_cells(path_view(ts@), column_widths@),
            r@ == join_texts(cells.take(i as int), sep@),
        decreases column_widths.len() - i,
    {
        let ghost before = r@;
        if i > 0 {
            push_text(&mut r, sep);
        }
        let cell = if i < ts.len() {
            assert(path_view(ts@)[i as int] == ts[i as int]@);
            left_justify_string(&ts[i], column_widths[i])
        } else {
            left_justify_string(&empty, column_widths[i])
        };
        push_text(&mut r, cell.as_str());
        proof {
            let long = cells.take(i + 1);
            assert(long.drop_last() =~= cells.take(i as int));
            assert(long.last() == cells[i as int]);
            assert(cell@ =~= cells[i as int]);
            if i == 0 {
                assert(r@ =~= long[0]);
            } else {
                assert(r@ =~= before + sep@ + long.last());
            }
        }
        i = i + 1;
    }
    proof {
        assert(cells.take(column_widths.len() as int) =~= cells);
    }
    r
}

/// The cells of a row with `sep` between them, and spaces behind them
/// where they are shorter than `total_width` together.
pub open spec fn spec_left_justified_columns_text(
    texts: Seq<Seq<char>>,
    widths: Seq<usize>,
    sep: Seq<char>,
    total_width: nat,
) -> Seq<char> {
    let all = spec_types_text(texts, widths, sep);
    if all.len() >= total_width {
        all
    } else {
        all + spaces((total_width - all.len()) as nat)
    }
}

/// The cells of a row with `sep` between them, and spaces behind them
/// where they are shorter than `total_width` together. No text may be
/// longer than the width of its column.
pub fn left_justified_columns_text(
    column_texts: &Vec<String>,
    column_widths: &Vec<usize>,
    sep: &str,
    total_width: usize,
) -> (r: String)
    requires
        fits(path_view(column_texts@), column_widths@),
    ensures
        r@ == spec_left_justified_columns_text(
            path_view(column_texts@),
            column_widths@,
            sep@,
            total_width as nat,
        ),
{
    let mut all = types_text(column_texts, column_widths, sep);
    let all_len = all.as_str().unicode_len();
    if all_len >= total_width {
        all
    } else {
        push_spaces(&mut all, total_width - all_len);
        all
    }
}

/// The widths of the columns after a row was taken in: there are as many
/// columns as the longest row has, and each is as wide as its longest
/// text.
pub open spec fn widened(widths: Seq<usize>, row: Seq<Seq<char>>) -> Seq<usize> {
    Seq::new(
        if widths.len() >= row.len() {
            widths.len()
        } else {
            row.len()
        },
        |j: int|
            {
                let old_width = if j < widths.len() {
                    widths[j]
                } else {
                    0usize
                };
                if j < row.len() && row[j].len() > old_width {
                    row[j].len() as usize
                } else {
                    old_width
                }
            },
    )
}

/// Takes a row into the widths of the columns.
pub fn widen(widths: &mut Vec<usize>, row: &Vec<String>)
    ensures
        final(widths)@ == widened(old(widths)@, path_view(row@)),
{
    let ghost before = widths@;
    let ghost texts = path_view(row@);
    let mut j: usize = 0;
    while j < row.len()
        invariant
            j <= row.len(),
            texts == path_view(row@),
            widths@.len() == if before.len() >= j {
                before.len()
            } else {
                j as nat
            },
            forall|k: int| 0 <= k < j ==> #[trigger] widths@[k] == widened(before, texts)[k],
            forall|k: int| j <= k < widths@.len() ==> #[trigger] widths@[k] == before[k],
        decreases row.len() - j,
    {
        assert(texts[j as int] == row[j as int]@);
        let length = row[j].as_str().unicode_len();
        if j < widths.len() {
            if length > widths[j] {
                widths[j] = length;
            }
        } else {
            widths.push(length);
        }
        j = j + 1;
    }
    proof {
        assert(widths@ =~= widened(before, texts));
    }
}

/// The widths of the columns of the paths of those of the first `n`
/// activities that the choice takes.
pub open spec fn spec_columns_width<T: Activity>(activities: Seq<T>, f: FilterView, n: nat) -> Seq<
    usize,
>
    decreases n,
{
    if n == 0 || n > activities.len() {
        Seq::empty()
    } else if spec_takes(f, activities[n - 1]) {
        widened(
            spec_columns_width(activities, f, (n - 1) as nat),
            activities[n - 1].spec_concepts(),
        )
    } else {
        spec_columns_width(activities, f, (n - 1) as nat)
    }
}

/// The widths of the columns of the paths of those activities of a month
/// that the choice takes: as many columns as the longest path has, each
/// as wide as its longest concept.
pub fn calculate_type_columns_width<T: Activity>(
    month_data: &MonthlyActivities<T>,
    func: &Filter,
) -> (r: Vec<usize>)
    ensures
        r@ == spec_columns_width(month_data@.activities, func@, month_data@.activities.len()),
{
    let activities = month_data.get_activities();
    let mut widths: Vec<usize> = Vec::new();
    let mut i: usize = 0;
    while i < activities.len()
        invariant
            i <= activities.len(),
            activities@ == month_data@.activities,
            widths@ == spec_columns_width(month_data@.activities, func@, i as nat),
        decreases activities.len() - i,
    {
        if func.takes(&activities[i]) {
            widen(&mut widths, activities[i].get_concepts());
        }
        i = i + 1;
    }
    widths
}

/// The widths of the columns of the first `n` paths.
pub open spec fn spec_paths_width(paths: Seq<Seq<Seq<char>>>, n: nat) -> Seq<usize>
    decreases n,
{
    if n == 0 || n > paths.len() {
        Seq::empty()
    } else {
        widened(spec_paths_width(paths, (n - 1) as nat), paths[n - 1])
    }
}

/// The paths of the buckets of a summary, in order.
pub open spec fn summary_paths(s: crate::menus::activity_summary::SummaryView) -> Seq<
    Seq<Seq<char>>,
> {
    Seq::new(s.buckets.len(), |i: int| s.buckets[i].path)
}

/// The widths of the columns of the paths of a summary: as many columns
/// as the longest path has, each as wide as its longest concept.
pub fn get_concepts_max_widths(summary: &ActivitySummary) -> (r: Vec<usize>)
    ensures
        r@ == spec_paths_width(summary_paths(summary@), summary@.buckets.len()),
{
    let mut widths: Vec<usize> = Vec::new();
    proof {
        summary.lemma_entries();
    }
    for entry in it: summary.iter_summary()
        invariant
            it.seq() == summary.entries().as_ref(),
            summary@.buckets == crate::menus::activity_summary::buckets_view(summary.entries()),
            widths@ == spec_paths_width(summary_paths(summary@), it.index() as nat),
    {
        let ghost i = it.index();
        assert(*entry == summary.entries()[i]);
        assert(summary_paths(summary@)[i] == path_view(entry.0@));
        widen(&mut widths, &entry.0);
    }
    widths
}

} // verus!
