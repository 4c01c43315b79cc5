//! Summaries of the activities of a month by the first concepts of their
//! paths.

use vstd::prelude::*;
use crate::economy::monthly_activities::{
    months_view, MonthView, MonthlyActivities, MonthlyActivitiesCollection,
};
use crate::economy::traits::Activity;
use crate::menus::activity_summary::{buckets_view, ActivitySummary, SummaryView};
use crate::text::{
    push_text, compare_paths, lemma_path_lt_transitive, lemma_path_order_equal, lemma_path_order_flip,
    path_order, path_view, Comparison,
};
use crate::utils::{contains_text, is_part_of, spec_vector_includes, vector_includes};

verus! {

/// The first `depth` texts of a path; the whole path where it has no more
/// than that, or where `depth` is negative.
pub open spec fn prefix(path: Seq<Seq<char>>, depth: int) -> Seq<Seq<char>> {
    if depth < 0 || depth >= path.len() {
        path
    } else {
        path.take(depth)
    }
}

/// A choice among activities, as a mathematical value.
pub enum FilterView {
    All,
    Concepts(Seq<Seq<char>>),
    PriceRange(i64, i64),
    Source(Seq<char>),
    SourceHolds(Seq<char>),
}

/// A choice among activities.
#[derive(Debug, Clone)]
pub enum Filter {
    /// Every activity.
    All,
    /// Those whose path of concepts starts as the given path does, or the
    /// other way round, case apart.
    Concepts(Vec<String>),
    /// Those whose price lies between the two, both included.
    PriceRange(i64, i64),
    /// Those of that source: the shop of an expense, the giver of an
    /// income.
    Source(String),
    /// Those whose source holds the text.
    SourceHolds(String),
}

impl View for Filter {
    type V = FilterView;

    open spec fn view(&self) -> FilterView {
        match self {
            Filter::All => FilterView::All,
            Filter::Concepts(p) => FilterView::Concepts(path_view(p@)),
            Filter::PriceRange(lower, upper) => FilterView::PriceRange(*lower, *upper),
            Filter::Source(s) => FilterView::Source(s@),
            Filter::SourceHolds(s) => FilterView::SourceHolds(s@),
        }
    }
}

/// Whether the choice takes the activity.
pub open spec fn spec_takes<T: Activity>(f: FilterView, e: T) -> bool {
    match f {
        FilterView::All => true,
        FilterView::Concepts(p) => spec_vector_includes(e.spec_concepts(), p),
        FilterView::PriceRange(lower, upper) => lower <= e.spec_price() <= upper,
        FilterView::Source(s) => e.spec_source() == s,
        FilterView::SourceHolds(s) => is_part_of(s, e.spec_source()),
    }
}

impl Filter {
    /// Whether the choice takes the activity.
    pub fn takes<T: Activity>(&self, e: &T) -> (r: bool)
        ensures
            r == spec_takes(self@, *e),
    {
        match self {
            Filter::All => true,
            Filter::Concepts(p) => vector_includes(e.get_concepts().as_slice(), p.as_slice()),
            Filter::PriceRange(lower, upper) => {
                let price = e.get_price();
                *lower <= price && price <= *upper
            },
            Filter::Source(s) => *e.get_source() == *s,
            Filter::SourceHolds(s) => contains_text(e.get_source().as_str(), s.as_str()),
        }
    }
}

/// The sum of the prices of the activities that the choice takes.
pub open spec fn sum_prices<T: Activity>(activities: Seq<T>, f: FilterView) -> int
    decreases activities.len(),
{
    if activities.len() == 0 {
        0
    } else {
        sum_prices(activities.drop_last(), f) + if spec_takes(f, activities.last()) {
            activities.last().spec_price() as int
        } else {
            0
        }
    }
}

/// The summary of those of the first `n` activities that the choice
/// takes, each counted under the first `depth` concepts of its path.
pub open spec fn summary_of<T: Activity>(
    activities: Seq<T>,
    f: FilterView,
    depth: int,
    n: nat,
) -> SummaryView
    decreases n,
{
    if n == 0 || n > activities.len() {
        SummaryView::empty()
    } else if spec_takes(f, activities[n - 1]) {
        summary_of(activities, f, depth, (n - 1) as nat).add(
            prefix(activities[n - 1].spec_concepts(), depth),
            activities[n - 1].spec_price() as int,
        )
    } else {
        summary_of(activities, f, depth, (n - 1) as nat)
    }
}

/// Whatever the depth, the total of a summary is the sum of the prices of
/// the activities that went in, and so is the sum of its buckets.
pub proof fn lemma_summary_total<T: Activity>(
    activities: Seq<T>,
    f: FilterView,
    depth: int,
    n: nat,
)
    requires
        n <= activities.len(),
        n <= u64::MAX,
    ensures
        summary_of(activities, f, depth, n).wf(),
        summary_of(activities, f, depth, n).count <= n,
        summary_of(activities, f, depth, n).total == sum_prices(activities.take(n as int), f),
        crate::menus::activity_summary::sum_money(summary_of(activities, f, depth, n).buckets)
            == sum_prices(activities.take(n as int), f),
    decreases n,
{
    if n == 0 {
        assert(activities.take(0).len() == 0);
    } else {
        lemma_summary_total(activities, f, depth, (n - 1) as nat);
        let before = summary_of(activities, f, depth, (n - 1) as nat);
        if spec_takes(f, activities[n - 1]) {
            before.lemma_add_wf(
                prefix(activities[n - 1].spec_concepts(), depth),
                activities[n - 1].spec_price() as int,
            );
        }
        assert(activities.take(n as int).drop_last() =~= activities.take(n - 1));
        assert(activities.take(n as int).last() == activities[n - 1]);
    }
}

/// The first `n` concepts of the path of an activity; the whole path
/// where it has no more than that.
pub fn concept<T: Activity>(n: usize, t: &T) -> (r: Vec<String>)
    ensures
        path_view(r@) == prefix(t.spec_concepts(), n as int),
        t.spec_concepts().len() <= usize::MAX,
{
    let all = t.get_concepts();
    let mut r: Vec<String> = Vec::new();
    let mut i: usize = 0;
    while i < all.len() && i < n
        invariant
            i <= all.len(),
            i <= n,
            path_view(all@) == t.spec_concepts(),
            path_view(r@) == path_view(all@).take(i as int),
        decreases all.len() - i,
    {
        let ghost before = path_view(r@);
        let label = all[i].clone();
        assert(label@ == all[i as int]@);
        r.push(label);
        i = i + 1;
        assert(path_view(r@) =~= before.push(all[i - 1]@));
        assert(path_view(r@) =~= path_view(all@).take(i as int));
    }
    assert(path_view(all@).take(all.len() as int) =~= path_view(all@));
    r
}

/// The summary of those activities of a month that the choice takes,
/// each counted under the first `concept_depth` concepts of its path, or
/// under its whole path where `concept_depth` is negative.
pub fn accounting<T: Activity>(
    month_data: &MonthlyActivities<T>,
    func: &Filter,
    concept_depth: i32,
) -> (r: ActivitySummary)
    ensures
        r@ == summary_of(
            month_data@.activities,
            func@,
            concept_depth as int,
            month_data@.activities.len(),
        ),
        r.wf(),
        r@.total == sum_prices(month_data@.activities, func@),
        r@.count <= month_data@.activities.len(),
{
    let activities = month_data.get_activities();
    let ghost all = month_data@.activities;
    let mut summary = ActivitySummary::new();
    let mut i: usize = 0;
    while i < activities.len()
        invariant
            i <= activities.len(),
            activities@ == all,
            summary@ == summary_of(all, func@, concept_depth as int, i as nat),
            summary.wf(),
            summary@.count <= i,
        decreases activities.len() - i,
    {
        let e = &activities[i];
        proof {
            lemma_summary_total(all, func@, concept_depth as int, (i + 1) as nat);
        }
        if func.takes(e) {
            let types = if concept_depth < 0 {
                concept(usize::MAX, e)
            } else {
                concept(concept_depth as usize, e)
            };
            summary.add(types, e.get_price());
        }
        i = i + 1;
    }
    proof {
        lemma_summary_total(all, func@, concept_depth as int, all.len());
        assert(all.take(all.len() as int) =~= all);
    }
    summary
}

/// The summary of the first `m` months: the summaries of the months,
/// merged one after the other.
pub open spec fn collection_summary<T: Activity>(
    months: Seq<MonthView<T>>,
    f: FilterView,
    depth: int,
    m: nat,
) -> SummaryView
    decreases m,
{
    if m == 0 || m > months.len() {
        SummaryView::empty()
    } else {
        collection_summary(months, f, depth, (m - 1) as nat).merge(
            summary_of(months[m - 1].activities, f, depth, months[m - 1].activities.len()),
        )
    }
}

/// The summary of more months holds no fewer amounts.
pub proof fn lemma_collection_summary_count<T: Activity>(
    months: Seq<MonthView<T>>,
    f: FilterView,
    depth: int,
    m: nat,
    n: nat,
)
    requires
        m <= n <= months.len(),
    ensures
        collection_summary(months, f, depth, m).count <= collection_summary(
            months,
            f,
            depth,
            n,
        ).count,
    decreases n,
{
    if m < n {
        lemma_collection_summary_count(months, f, depth, m, (n - 1) as nat);
    }
}

/// The summary of those activities of the months of a year that the
/// choice takes: the summaries of the months, merged one after the other.
/// None where more amounts than a `u64` can count would go in.
pub fn accounting_collection<T: Activity>(
    months: &MonthlyActivitiesCollection<T>,
    func: &Filter,
    concept_depth: i32,
) -> (r: Option<ActivitySummary>)
    ensures
        match r {
            Some(s) => s@ == collection_summary(
                months@.months,
                func@,
                concept_depth as int,
                months@.months.len(),
            ) && s.wf(),
            None => collection_summary(
                months@.months,
                func@,
                concept_depth as int,
                months@.months.len(),
            ).count > u64::MAX,
        },
{
    let all = months.get_activities();
    let ghost views = months@.months;
    let mut summary = ActivitySummary::new();
    let mut m: usize = 0;
    while m < all.len()
        invariant
            m <= all.len(),
            months_view(all@) == views,
            views == months@.months,
            summary@ == collection_summary(views, func@, concept_depth as int, m as nat),
            summary.wf(),
        decreases all.len() - m,
    {
        assert(views[m as int] == all[m as int]@);
        let part = accounting(&all[m], func, concept_depth);
        let ghost before = summary@;
        let ghost pv = part@;
        assert(collection_summary(views, func@, concept_depth as int, (m + 1) as nat)
            == before.merge(pv));
        if !summary.try_merge(part) {
            proof {
                assert(before.merge(pv).count > u64::MAX);
                lemma_collection_summary_count(
                    views,
                    func@,
                    concept_depth as int,
                    (m + 1) as nat,
                    views.len(),
                );
            }
            return None;
        }
        m = m + 1;
    }
    Some(summary)
}

/// What a report groups activities by, as a mathematical value.
pub enum GroupingView {
    Concepts(usize),
    Source,
    Location,
    SourceAndLocation,
}

/// What a report groups activities by.
#[derive(Debug, Clone, Copy, PartialEq, Eq, Structural)]
pub enum Grouping {
    /// The first concepts of the path, as many as given.
    Concepts(usize),
    /// The source: the shop of an expense, the giver of an income.
    Source,
    /// The location: the city of an expense, the place of an income.
    Location,
    /// The source and the location, with a dash between them.
    SourceAndLocation,
}

impl View for Grouping {
    type V = GroupingView;

    open spec fn view(&self) -> GroupingView {
        match self {
            Grouping::Concepts(n) => GroupingView::Concepts(*n),
            Grouping::Source => GroupingView::Source,
            Grouping::Location => GroupingView::Location,
            Grouping::SourceAndLocation => GroupingView::SourceAndLocation,
        }
    }
}

/// The key of the group of an activity.
pub open spec fn key_of<T: Activity>(g: GroupingView, e: T) -> Seq<Seq<char>> {
    match g {
        GroupingView::Concepts(n) => prefix(e.spec_concepts(), n as int),
        GroupingView::Source => seq![e.spec_source()],
        GroupingView::Location => seq![e.spec_location()],
        GroupingView::SourceAndLocation => seq![
            e.spec_source() + seq![' ', '-', ' '] + e.spec_location(),
        ],
    }
}

/// The key of the group of an activity.
pub fn group_key<T: Activity>(grouping: &Grouping, e: &T) -> (r: Vec<String>)
    ensures
        path_view(r@) == key_of(grouping@, *e),
{
    let mut r: Vec<String> = Vec::new();
    match grouping {
        Grouping::Concepts(n) => {
            return concept(*n, e);
        },
        Grouping::Source => {
            r.push(e.get_source().clone());
        },
        Grouping::Location => {
            r.push(e.get_location().clone());
        },
        Grouping::SourceAndLocation => {
            let mut key = e.get_source().clone();
            crate::text::push_char(&mut key, ' ');
            crate::text::push_char(&mut key, '-');
            crate::text::push_char(&mut key, ' ');
            push_text(&mut key, e.get_location().as_str());
            assert(key@ =~= e.spec_source() + seq![' ', '-', ' '] + e.spec_location());
            r.push(key);
        },
    }
    assert(path_view(r@) =~= key_of(grouping@, *e));
    r
}

/// The sums of the first `n` activities by the key of their group.
pub open spec fn sums_by<T: Activity>(
    start: SummaryView,
    activities: Seq<T>,
    g: GroupingView,
    n: nat,
) -> SummaryView
    decreases n,
{
    if n == 0 || n > activities.len() {
        start
    } else {
        sums_by(start, activities, g, (n - 1) as nat).add(
            key_of(g, activities[n - 1]),
            activities[n - 1].spec_price() as int,
        )
    }
}

/// The numbers of the first `n` activities by the key of their group: 1
/// was added for each.
pub open spec fn times_by<T: Activity>(
    start: SummaryView,
    activities: Seq<T>,
    g: GroupingView,
    n: nat,
) -> SummaryView
    decreases n,
{
    if n == 0 || n > activities.len() {
        start
    } else {
        times_by(start, activities, g, (n - 1) as nat).add(key_of(g, activities[n - 1]), 1)
    }
}

/// Adding the activities keeps the sums and the numbers well-formed.
pub proof fn lemma_history_wf<T: Activity>(
    money: SummaryView,
    times: SummaryView,
    activities: Seq<T>,
    g: GroupingView,
    n: nat,
)
    requires
        money.wf(),
        times.wf(),
        n <= activities.len(),
        money.count + n <= u64::MAX,
        times.count + n <= u64::MAX,
    ensures
        sums_by(money, activities, g, n).wf(),
        times_by(times, activities, g, n).wf(),
        sums_by(money, activities, g, n).count == money.count + n,
        times_by(times, activities, g, n).count == times.count + n,
    decreases n,
{
    if n > 0 {
        lemma_history_wf(money, times, activities, g, (n - 1) as nat);
        sums_by(money, activities, g, (n - 1) as nat).lemma_add_wf(
            key_of(g, activities[n - 1]),
            activities[n - 1].spec_price() as int,
        );
        times_by(times, activities, g, (n - 1) as nat).lemma_add_wf(
            key_of(g, activities[n - 1]),
            1,
        );
    }
}

/// Adds the activities of a month to the sums and to the numbers of a
/// report, each under the key of its group. Fewer amounts than a `u64`
/// can count must have gone into each, the month included.
pub fn history_of_month<T: Activity>(
    money: &mut ActivitySummary,
    times: &mut ActivitySummary,
    month_data: &MonthlyActivities<T>,
    grouping: &Grouping,
)
    requires
        old(money).wf(),
        old(times).wf(),
        old(money)@.count + month_data@.activities.len() <= u64::MAX,
        old(times)@.count + month_data@.activities.len() <= u64::MAX,
    ensures
        final(money)@ == sums_by(
            old(money)@,
            month_data@.activities,
            grouping@,
            month_data@.activities.len(),
        ),
        final(times)@ == times_by(
            old(times)@,
            month_data@.activities,
            grouping@,
            month_data@.activities.len(),
        ),
        final(money).wf(),
        final(times).wf(),
{
    let activities = month_data.get_activities();
    let ghost all = month_data@.activities;
    let ghost m0 = money@;
    let ghost t0 = times@;
    let mut i: usize = 0;
    while i < activities.len()
        invariant
            i <= activities.len(),
            activities@ == all,
            m0.wf(),
            t0.wf(),
            m0.count + all.len() <= u64::MAX,
            t0.count + all.len() <= u64::MAX,
            money@ == sums_by(m0, all, grouping@, i as nat),
            times@ == times_by(t0, all, grouping@, i as nat),
            money.wf(),
            times.wf(),
            money@.count == m0.count + i,
            times@.count == t0.count + i,
        decreases activities.len() - i,
    {
        let e = &activities[i];
        proof {
            lemma_history_wf(m0, t0, all, grouping@, (i + 1) as nat);
        }
        let key = group_key(grouping, e);
        let again = key.clone();
        assert(path_view(again@) =~= path_view(key@)) by {
            assert(again@.len() == key@.len());
            assert forall|k: int| 0 <= k < key@.len() implies again@[k]@ == key@[k]@ by {}
        }
        money.add(key, e.get_price());
        times.add(again, 1);
        i = i + 1;
    }
}

/// The rows of a report: for each bucket of the sums, in the order of the
/// keys, the number that stands under its key, no more than a `u32`
/// holds, and its sum.
pub open spec fn rows_of_spec(money: SummaryView, times: SummaryView) -> Seq<RowView> {
    Seq::new(
        money.buckets.len(),
        |i: int|
            RowView {
                key: money.buckets[i].path,
                num_times: clamp_times(times.money_of(money.buckets[i].path)),
                total_value: money.buckets[i].money as i128,
            },
    )
}

/// A number as a `u32`: 0 for less, the greatest `u32` for more.
pub open spec fn clamp_times(n: int) -> u32 {
    if n < 0 {
        0
    } else if n > u32::MAX {
        u32::MAX
    } else {
        n as u32
    }
}

/// The views of the rows of a report, one for one.
pub open spec fn rows_view(rows: Seq<(Vec<String>, Cell)>) -> Seq<RowView> {
    Seq::new(rows.len(), |i: int| row_view(rows[i]))
}

/// The rows of a report: for each bucket of the sums, in the order of the
/// keys, the number that stands under its key and its sum. The text that
/// tells more of a group is left empty.
pub fn rows_of(money: &ActivitySummary, times: &ActivitySummary) -> (r: Vec<(Vec<String>, Cell)>)
    requires
        money.wf(),
        times.wf(),
    ensures
        rows_view(r@) == rows_of_spec(money@, times@),
        forall|i: int| 0 <= i < r@.len() ==> (#[trigger] r@[i]).1.classifier@.len() == 0,
{
    let mut r: Vec<(Vec<String>, Cell)> = Vec::new();
    proof {
        money.lemma_entries();
    }
    for entry in it: money.iter_summary()
        invariant
            it.seq() == money.entries().as_ref(),
            money@.buckets == buckets_view(money.entries()),
            times.wf(),
            r@.len() == it.index(),
            forall|i: int|
                0 <= i < r@.len() ==> row_view(#[trigger] r@[i]) == rows_of_spec(money@, times@)[i],
            forall|i: int| 0 <= i < r@.len() ==> (#[trigger] r@[i]).1.classifier@.len() == 0,
    {
        let ghost i = it.index();
        assert(*entry == money.entries()[i]);
        assert(money@.buckets[i].path == path_view(entry.0@));
        assert(money@.buckets[i].money == entry.1);
        let count: i128 = times.get_money(&entry.0);
        let num_times: u32 = if count < 0 {
            0
        } else if count > 0xFFFF_FFFF {
            0xFFFF_FFFF
        } else {
            count as u32
        };
        let key = entry.0.clone();
        assert(path_view(key@) =~= path_view(entry.0@)) by {
            assert(key@.len() == entry.0@.len());
            assert forall|k: int| 0 <= k < key@.len() implies key@[k]@ == entry.0@[k]@ by {}
        }
        r.push((key, Cell { num_times, total_value: entry.1, classifier: String::new() }));
    }
    proof {
        assert(rows_view(r@) =~= rows_of_spec(money@, times@));
    }
    r
}

/// What a report knows of one group of activities: how many there are
/// and what they sum up to, in hundredths of the currency unit, with a
/// text that tells more of the group.
#[derive(Debug, Clone)]
pub struct Cell {
    pub num_times: u32,
    pub total_value: i128,
    pub classifier: String,
}

/// A group of a report, as a mathematical value: the key of the group,
/// the number of its activities and their sum.
pub struct RowView {
    pub key: Seq<Seq<char>>,
    pub num_times: u32,
    pub total_value: i128,
}

/// A row of a report as a mathematical value.
pub open spec fn row_view(row: (Vec<String>, Cell)) -> RowView {
    RowView { key: path_view(row.0@), num_times: row.1.num_times, total_value: row.1.total_value }
}

/// The order in which a report shows its groups.
#[derive(Debug, Clone, Copy, PartialEq, Eq, Structural)]
pub enum SortOrder {
    /// By key, ascending.
    ByConcept,
    /// By the number of activities, the largest first; groups of the same
    /// number by key, ascending.
    ByTimes,
    /// By the sum, the largest first; groups of the same sum by key,
    /// ascending.
    ByValue,
}

/// How the group `a` stands to the group `b` in the order.
pub open spec fn row_order(order: SortOrder, a: RowView, b: RowView) -> Comparison {
    match order {
        SortOrder::ByConcept => path_order(a.key, b.key),
        SortOrder::ByTimes => if a.num_times == b.num_times {
            path_order(a.key, b.key)
        } else if a.num_times > b.num_times {
            Comparison::Less
        } else {
            Comparison::Greater
        },
        SortOrder::ByValue => if a.total_value == b.total_value {
            path_order(a.key, b.key)
        } else if a.total_value > b.total_value {
            Comparison::Less
        } else {
            Comparison::Greater
        },
    }
}

/// Each order is total and breaks ties by key: two groups stand equal
/// only where they have the same key, swapping them swaps before and
/// after, and the order is transitive.
pub proof fn lemma_row_order(order: SortOrder, a: RowView, b: RowView, c: RowView)
    ensures
        row_order(order, a, b) == Comparison::Equal ==> a.key == b.key,
        row_order(order, a, b) == Comparison::Less <==> row_order(order, b, a)
            == Comparison::Greater,
        row_order(order, a, b) == Comparison::Equal <==> row_order(order, b, a)
            == Comparison::Equal,
        row_order(order, a, b) != Comparison::Greater && row_order(order, b, c)
            != Comparison::Greater ==> row_order(order, a, c) != Comparison::Greater,
{
    lemma_path_order_equal(a.key, b.key);
    lemma_path_order_equal(b.key, c.key);
    lemma_path_order_equal(a.key, c.key);
    lemma_path_order_flip(a.key, b.key);
    lemma_path_order_flip(b.key, c.key);
    lemma_path_order_flip(a.key, c.key);
    if path_order(a.key, b.key) == Comparison::Less && path_order(b.key, c.key)
        == Comparison::Less {
        lemma_path_lt_transitive(a.key, b.key, c.key);
    }
}

/// How the row `a` stands to the row `b` by key.
pub fn sort_by_concept(a: &(Vec<String>, Cell), b: &(Vec<String>, Cell)) -> (r: Comparison)
    ensures
        r == row_order(SortOrder::ByConcept, row_view(*a), row_view(*b)),
{
    compare_paths(&a.0, &b.0)
}

/// How the row `a` stands to the row `b` by the number of activities, the
/// largest first, and by key among rows of the same number.
pub fn sort_by_times(a: &(Vec<String>, Cell), b: &(Vec<String>, Cell)) -> (r: Comparison)
    ensures
        r == row_order(SortOrder::ByTimes, row_view(*a), row_view(*b)),
{
    if b.1.num_times == a.1.num_times {
        compare_paths(&a.0, &b.0)
    } else if a.1.num_times > b.1.num_times {
        Comparison::Less
    } else {
        Comparison::Greater
    }
}

/// How the row `a` stands to the row `b` by sum, the largest first, and
/// by key among rows of the same sum.
pub fn sort_by_value(a: &(Vec<String>, Cell), b: &(Vec<String>, Cell)) -> (r: Comparison)
    ensures
        r == row_order(SortOrder::ByValue, row_view(*a), row_view(*b)),
{
    if b.1.total_value == a.1.total_value {
        compare_paths(&a.0, &b.0)
    } else if a.1.total_value > b.1.total_value {
        Comparison::Less
    } else {
        Comparison::Greater
    }
}

/// How the row `a` stands to the row `b` in the order.
pub fn compare_rows(order: SortOrder, a: &(Vec<String>, Cell), b: &(Vec<String>, Cell)) -> (r:
    Comparison)
    ensures
        r == row_order(order, row_view(*a), row_view(*b)),
{
    match order {
        SortOrder::ByConcept => sort_by_concept(a, b),
        SortOrder::ByTimes => sort_by_times(a, b),
        SortOrder::ByValue => sort_by_value(a, b),
    }
}

/// The rows stand in the order.
pub open spec fn rows_sorted(order: SortOrder, rows: Seq<(Vec<String>, Cell)>) -> bool {
    forall|i: int, j: int|
        0 <= i < j < rows.len() ==> row_order(
            order,
            row_view(#[trigger] rows[i]),
            row_view(#[trigger] rows[j]),
        ) != Comparison::Greater
}

/// Puts the rows of a report into the order. The rows stay the same
/// rows.
pub fn sort_rows(rows: Vec<(Vec<String>, Cell)>, order: SortOrder) -> (r: Vec<(Vec<String>, Cell)>)
    ensures
        rows_sorted(order, r@),
        r@.to_multiset() == rows@.to_multiset(),
{
    let ghost all = rows@;
    let mut r: Vec<(Vec<String>, Cell)> = Vec::new();
    proof {
        assert(all.take(0) =~= Seq::<(Vec<String>, Cell)>::empty());
    }
    for row in it: rows
        invariant
            it.seq() == all,
            rows_sorted(order, r@),
            r@.to_multiset() == all.take(it.index()).to_multiset(),
    {
        let ghost i = it.index();
        let ghost before = r@;
        // the place behind the last row that does not stand after `row`
        let mut pos: usize = r.len();
        while pos > 0 && compare_rows(order, &r[pos - 1], &row) == Comparison::Greater
            invariant
                pos <= r.len(),
                r@ == before,
                rows_sorted(order, before),
                forall|k: int|
                    pos <= k < before.len() ==> row_order(
                        order,
                        row_view(#[trigger] before[k]),
                        row_view(row),
                    ) == Comparison::Greater,
            decreases pos,
        {
            pos = pos - 1;
        }
        r.insert(pos, row);
        proof {
            let after = r@;
            assert(after == before.insert(pos as int, row));
            assert forall|a: int, b: int| 0 <= a < b < after.len() implies row_order(
                order,
                row_view(#[trigger] after[a]),
                row_view(#[trigger] after[b]),
            ) != Comparison::Greater by {
                if b < pos {
                    assert(after[a] == before[a] && after[b] == before[b]);
                } else if b == pos {
                    assert(after[a] == before[a]);
                    let last = before[pos - 1];
                    assert(row_order(order, row_view(last), row_view(row))
                        != Comparison::Greater);
                    if a < pos - 1 {
                        lemma_row_order(order, row_view(before[a]), row_view(last), row_view(row));
                    }
                } else if a == pos {
                    assert(after[b] == before[b - 1]);
                    lemma_row_order(
                        order,
                        row_view(before[b - 1]),
                        row_view(row),
                        row_view(row),
                    );
                } else if a < pos {
                    assert(after[a] == before[a] && after[b] == before[b - 1]);
                } else {
                    assert(after[a] == before[a - 1] && after[b] == before[b - 1]);
                }
            }
            vstd::seq_lib::to_multiset_insert(before, pos as int, row);
            assert(all.take(i + 1) =~= all.take(i).push(row));
            vstd::seq_lib::to_multiset_build(all.take(i), row);
        }
    }
    proof {
        assert(all.take(all.len() as int) =~= all);
    }
    r
}

} // verus!
