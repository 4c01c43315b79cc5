//! Sums of money by path of concepts, kept in the order of the paths,
//! with the sum of all.

use vstd::prelude::*;
use crate::text::{
    compare_paths, lemma_path_lt_transitive, lemma_path_order_equal, lemma_path_order_flip,
    path_lt, path_view, Comparison,
};

verus! {

/// A path of concepts and the money summed under it, as a mathematical
/// value.
pub struct BucketView {
    pub path: Seq<Seq<char>>,
    pub money: int,
}

/// The greatest size of one amount: 2 to the power of 63.
pub open spec fn amount_bound() -> int {
    0x8000_0000_0000_0000
}

/// The sum of the money of all buckets.
pub open spec fn sum_money(buckets: Seq<BucketView>) -> int
    decreases buckets.len(),
{
    if buckets.len() == 0 {
        0
    } else {
        sum_money(buckets.drop_last()) + buckets.last().money
    }
}

/// The paths of the buckets are strictly ascending.
pub open spec fn paths_ascending(buckets: Seq<BucketView>) -> bool {
    forall|i: int, j: int|
        0 <= i < j < buckets.len() ==> path_lt(
            (#[trigger] buckets[i]).path,
            (#[trigger] buckets[j]).path,
        )
}

/// Some bucket has this path.
pub open spec fn has_path(buckets: Seq<BucketView>, path: Seq<Seq<char>>) -> bool {
    exists|i: int| 0 <= i < buckets.len() && (#[trigger] buckets[i]).path == path
}

/// The place of the bucket with this path, where there is one.
pub open spec fn index_of_path(buckets: Seq<BucketView>, path: Seq<Seq<char>>) -> int {
    choose|i: int| 0 <= i < buckets.len() && (#[trigger] buckets[i]).path == path
}

/// The number of buckets whose path comes strictly before `path`.
pub open spec fn path_rank(buckets: Seq<BucketView>, path: Seq<Seq<char>>) -> int
    decreases buckets.len(),
{
    if buckets.len() == 0 {
        0
    } else {
        path_rank(buckets.drop_last(), path) + if path_lt(buckets.last().path, path) {
            1int
        } else {
            0int
        }
    }
}

/// The money summed under `path`; 0 where no bucket has that path.
pub open spec fn money_of(buckets: Seq<BucketView>, path: Seq<Seq<char>>) -> int {
    if has_path(buckets, path) {
        buckets[index_of_path(buckets, path)].money
    } else {
        0
    }
}

/// The buckets after `money` was added under `path`: the bucket of that
/// path grows by it, or a new bucket comes in at its sorted place.
pub open spec fn accumulate(
    buckets: Seq<BucketView>,
    path: Seq<Seq<char>>,
    money: int,
) -> Seq<BucketView> {
    if has_path(buckets, path) {
        let i = index_of_path(buckets, path);
        buckets.update(i, BucketView { path: path, money: buckets[i].money + money })
    } else {
        buckets.insert(path_rank(buckets, path), BucketView { path: path, money: money })
    }
}

/// The buckets after the first `n` of `other` were added, one after the
/// other.
pub open spec fn accumulate_first(
    buckets: Seq<BucketView>,
    other: Seq<BucketView>,
    n: nat,
) -> Seq<BucketView>
    decreases n,
{
    if n == 0 || n > other.len() {
        buckets
    } else {
        accumulate(accumulate_first(buckets, other, (n - 1) as nat), other[n - 1].path, other[n - 1].money)
    }
}

/// A place that parts the paths before `path` from the others is its rank.
pub proof fn lemma_path_rank(buckets: Seq<BucketView>, path: Seq<Seq<char>>, i: int)
    requires
        0 <= i <= buckets.len(),
        forall|j: int| 0 <= j < i ==> path_lt((#[trigger] buckets[j]).path, path),
        forall|j: int| i <= j < buckets.len() ==> !path_lt((#[trigger] buckets[j]).path, path),
    ensures
        path_rank(buckets, path) == i,
    decreases buckets.len(),
{
    if buckets.len() > 0 {
        let rest = buckets.drop_last();
        assert forall|j: int| 0 <= j < rest.len() implies rest[j] == buckets[j] by {}
        if i == buckets.len() {
            assert(path_lt(buckets[buckets.len() - 1].path, path));
            lemma_path_rank(rest, path, i - 1);
        } else {
            assert(!path_lt(buckets[buckets.len() - 1].path, path));
            lemma_path_rank(rest, path, i);
        }
    }
}

/// Among ascending paths, those before `path` are exactly the ones at the
/// places below its rank.
pub proof fn lemma_path_rank_parts(buckets: Seq<BucketView>, path: Seq<Seq<char>>)
    requires
        paths_ascending(buckets),
    ensures
        0 <= path_rank(buckets, path) <= buckets.len(),
        forall|j: int|
            0 <= j < path_rank(buckets, path) ==> path_lt((#[trigger] buckets[j]).path, path),
        forall|j: int|
            path_rank(buckets, path) <= j < buckets.len() ==> !path_lt(
                (#[trigger] buckets[j]).path,
                path,
            ),
    decreases buckets.len(),
{
    if buckets.len() > 0 {
        let rest = buckets.drop_last();
        let last = buckets.len() - 1;
        assert forall|j: int| 0 <= j < rest.len() implies rest[j] == buckets[j] by {}
        assert(paths_ascending(rest)) by {
            assert forall|i: int, j: int| 0 <= i < j < rest.len() implies path_lt(
                (#[trigger] rest[i]).path,
                (#[trigger] rest[j]).path,
            ) by {
                assert(rest[i] == buckets[i] && rest[j] == buckets[j]);
            }
        }
        lemma_path_rank_parts(rest, path);
        if path_lt(buckets[last].path, path) {
            assert forall|j: int| 0 <= j < last implies path_lt(
                (#[trigger] buckets[j]).path,
                path,
            ) by {
                lemma_path_lt_transitive(buckets[j].path, buckets[last].path, path);
            }
            if path_rank(rest, path) < last {
                assert(!path_lt(rest[path_rank(rest, path)].path, path));
            }
        }
    }
}

/// Among ascending paths no path stands at two places.
pub proof fn lemma_index_of_path(buckets: Seq<BucketView>, i: int)
    requires
        paths_ascending(buckets),
        0 <= i < buckets.len(),
    ensures
        has_path(buckets, buckets[i].path),
        index_of_path(buckets, buckets[i].path) == i,
{
    let path = buckets[i].path;
    let j = index_of_path(buckets, path);
    lemma_path_order_equal(path, path);
    if j < i {
        assert(path_lt(buckets[j].path, buckets[i].path));
    } else if i < j {
        assert(path_lt(buckets[i].path, buckets[j].path));
    }
}

/// A bucket put in adds its money to the sum.
pub proof fn lemma_sum_insert(buckets: Seq<BucketView>, i: int, b: BucketView)
    requires
        0 <= i <= buckets.len(),
    ensures
        sum_money(buckets.insert(i, b)) == sum_money(buckets) + b.money,
    decreases buckets.len(),
{
    let after = buckets.insert(i, b);
    if i == buckets.len() {
        assert(after.drop_last() =~= buckets);
    } else {
        let rest = buckets.drop_last();
        lemma_sum_insert(rest, i, b);
        assert(after.drop_last() =~= rest.insert(i, b));
        assert(after.last() == buckets.last());
    }
}

/// A bucket that grows adds the growth to the sum.
pub proof fn lemma_sum_update(buckets: Seq<BucketView>, i: int, b: BucketView)
    requires
        0 <= i < buckets.len(),
    ensures
        sum_money(buckets.update(i, b)) == sum_money(buckets) - buckets[i].money + b.money,
    decreases buckets.len(),
{
    let after = buckets.update(i, b);
    if i == buckets.len() - 1 {
        assert(after.drop_last() =~= buckets.drop_last());
    } else {
        let rest = buckets.drop_last();
        lemma_sum_update(rest, i, b);
        assert(after.drop_last() =~= rest.update(i, b));
        assert(after.last() == buckets.last());
    }
}

/// Adding money under a path keeps the paths ascending and adds the
/// money to the sum.
pub proof fn lemma_accumulate(buckets: Seq<BucketView>, path: Seq<Seq<char>>, money: int)
    requires
        paths_ascending(buckets),
    ensures
        paths_ascending(accumulate(buckets, path, money)),
        sum_money(accumulate(buckets, path, money)) == sum_money(buckets) + money,
{
    let after = accumulate(buckets, path, money);
    if has_path(buckets, path) {
        let i = index_of_path(buckets, path);
        lemma_sum_update(buckets, i, BucketView { path: path, money: buckets[i].money + money });
        assert forall|a: int, b: int| 0 <= a < b < after.len() implies path_lt(
            (#[trigger] after[a]).path,
            (#[trigger] after[b]).path,
        ) by {
            assert(after[a].path == buckets[a].path && after[b].path == buckets[b].path);
        }
    } else {
        let r = path_rank(buckets, path);
        let b = BucketView { path: path, money: money };
        lemma_path_rank_parts(buckets, path);
        lemma_sum_insert(buckets, r, b);
        assert forall|i: int, j: int| 0 <= i < j < after.len() implies path_lt(
            (#[trigger] after[i]).path,
            (#[trigger] after[j]).path,
        ) by {
            if j < r {
                assert(after[i] == buckets[i] && after[j] == buckets[j]);
            } else if j == r {
                assert(after[i] == buckets[i]);
            } else if i == r {
                assert(after[j] == buckets[j - 1]);
                let k = buckets[j - 1].path;
                assert(!path_lt(k, path));
                lemma_path_order_flip(k, path);
                lemma_path_order_equal(k, path);
            } else if i < r {
                assert(after[i] == buckets[i] && after[j] == buckets[j - 1]);
            } else {
                assert(after[i] == buckets[i - 1] && after[j] == buckets[j - 1]);
            }
        }
    }
}

/// Adding money under a path leaves every bucket within the size of the
/// old buckets and the money together.
pub proof fn lemma_accumulate_bounds(
    buckets: Seq<BucketView>,
    path: Seq<Seq<char>>,
    money: int,
    old_bound: int,
    money_bound: int,
)
    requires
        paths_ascending(buckets),
        forall|i: int|
            0 <= i < buckets.len() ==> -old_bound <= (#[trigger] buckets[i]).money <= old_bound,
        -money_bound <= money <= money_bound,
        0 <= old_bound,
        0 <= money_bound,
    ensures
        forall|i: int|
            0 <= i < accumulate(buckets, path, money).len() ==> -(old_bound + money_bound) <= (
            #[trigger] accumulate(buckets, path, money)[i]).money <= old_bound + money_bound,
{
    let after = accumulate(buckets, path, money);
    if has_path(buckets, path) {
        let i = index_of_path(buckets, path);
        assert forall|a: int| 0 <= a < after.len() implies -(old_bound + money_bound) <= (
        #[trigger] after[a]).money <= old_bound + money_bound by {
            if a != i {
                assert(after[a] == buckets[a]);
            }
        }
    } else {
        let r = path_rank(buckets, path);
        lemma_path_rank_parts(buckets, path);
        assert forall|a: int| 0 <= a < after.len() implies -(old_bound + money_bound) <= (
        #[trigger] after[a]).money <= old_bound + money_bound by {
            if a < r {
                assert(after[a] == buckets[a]);
            } else if a > r {
                assert(after[a] == buckets[a - 1]);
            }
        }
    }
}

/// After money was added under `path`, that path is there beside those
/// that were, and only the money under that path has grown.
pub proof fn lemma_accumulate_lookup(
    buckets: Seq<BucketView>,
    path: Seq<Seq<char>>,
    money: int,
    q: Seq<Seq<char>>,
)
    requires
        paths_ascending(buckets),
    ensures
        has_path(accumulate(buckets, path, money), q) <==> has_path(buckets, q) || q == path,
        money_of(accumulate(buckets, path, money), q) == money_of(buckets, q) + if q == path {
            money
        } else {
            0
        },
{
    let after = accumulate(buckets, path, money);
    lemma_accumulate(buckets, path, money);
    if has_path(buckets, path) {
        let i = index_of_path(buckets, path);
        assert(after[i].path == path);
        lemma_index_of_path(after, i);
        if q != path {
            if has_path(buckets, q) {
                let j = index_of_path(buckets, q);
                assert(after[j] == buckets[j]);
                lemma_index_of_path(after, j);
            }
            if has_path(after, q) {
                let j = index_of_path(after, q);
                assert(after[j] == buckets[j]);
                lemma_index_of_path(buckets, j);
            }
        }
    } else {
        let r = path_rank(buckets, path);
        lemma_path_rank_parts(buckets, path);
        assert(after[r].path == path);
        lemma_index_of_path(after, r);
        if q != path {
            if has_path(buckets, q) {
                let j = index_of_path(buckets, q);
                let j2 = if j < r { j } else { j + 1 };
                assert(after[j2] == buckets[j]);
                lemma_index_of_path(after, j2);
            }
            if has_path(after, q) {
                let j = index_of_path(after, q);
                let j0 = if j < r { j } else { j - 1 };
                assert(after[j] == buckets[j0]);
                lemma_index_of_path(buckets, j0);
            }
        }
    }
}

/// The first `n + 1` buckets hold what the first `n` hold and the bucket
/// at place `n`.
pub proof fn lemma_take_lookup(other: Seq<BucketView>, n: int, q: Seq<Seq<char>>)
    requires
        paths_ascending(other),
        0 <= n < other.len(),
    ensures
        paths_ascending(other.take(n)),
        paths_ascending(other.take(n + 1)),
        has_path(other.take(n + 1), q) <==> has_path(other.take(n), q) || q == other[n].path,
        money_of(other.take(n + 1), q) == money_of(other.take(n), q) + if q == other[n].path {
            other[n].money
        } else {
            0
        },
        sum_money(other.take(n + 1)) == sum_money(other.take(n)) + other[n].money,
{
    let short = other.take(n);
    let long = other.take(n + 1);
    assert(long.drop_last() =~= short);
    assert(long.last() == other[n]);
    assert forall|i: int, j: int| 0 <= i < j < long.len() implies path_lt(
        (#[trigger] long[i]).path,
        (#[trigger] long[j]).path,
    ) by {
        assert(long[i] == other[i] && long[j] == other[j]);
    }
    assert forall|i: int, j: int| 0 <= i < j < short.len() implies path_lt(
        (#[trigger] short[i]).path,
        (#[trigger] short[j]).path,
    ) by {
        assert(short[i] == other[i] && short[j] == other[j]);
    }
    lemma_index_of_path(long, n);
    if has_path(short, q) {
        let j = index_of_path(short, q);
        assert(long[j] == short[j]);
        lemma_index_of_path(long, j);
        lemma_index_of_path(short, j);
        if q == other[n].path {
            assert(path_lt(long[j].path, long[n].path));
            lemma_path_order_equal(q, q);
        }
    }
    if has_path(long, q) && q != other[n].path {
        let j = index_of_path(long, q);
        assert(j < n);
        assert(short[j] == long[j]);
        lemma_index_of_path(short, j);
    }
}

/// The buckets after the first `n` of `other` were added hold, under
/// every path, the sum of what both held under it.
pub proof fn lemma_accumulate_first(buckets: Seq<BucketView>, other: Seq<BucketView>, n: nat)
    requires
        paths_ascending(buckets),
        paths_ascending(other),
        n <= other.len(),
    ensures
        paths_ascending(accumulate_first(buckets, other, n)),
        sum_money(accumulate_first(buckets, other, n)) == sum_money(buckets) + sum_money(
            other.take(n as int),
        ),
        forall|q: Seq<Seq<char>>|
            #[trigger] money_of(accumulate_first(buckets, other, n), q) == money_of(buckets, q)
                + money_of(other.take(n as int), q),
        forall|q: Seq<Seq<char>>|
            #[trigger] has_path(accumulate_first(buckets, other, n), q) <==> has_path(buckets, q)
                || has_path(other.take(n as int), q),
    decreases n,
{
    if n == 0 {
        assert(other.take(0).len() == 0);
    } else {
        let before = accumulate_first(buckets, other, (n - 1) as nat);
        let b = other[n - 1];
        lemma_accumulate_first(buckets, other, (n - 1) as nat);
        lemma_accumulate(before, b.path, b.money);
        lemma_take_lookup(other, n - 1, b.path);
        let after = accumulate_first(buckets, other, n);
        assert forall|q: Seq<Seq<char>>| #[trigger]
            money_of(after, q) == money_of(buckets, q) + money_of(other.take(n as int), q) by {
            lemma_accumulate_lookup(before, b.path, b.money, q);
            lemma_take_lookup(other, n - 1, q);
        }
        assert forall|q: Seq<Seq<char>>| #[trigger]
            has_path(after, q) <==> has_path(buckets, q) || has_path(other.take(n as int), q) by {
            lemma_accumulate_lookup(before, b.path, b.money, q);
            lemma_take_lookup(other, n - 1, q);
        }
    }
}

/// Sums of money by path of concepts, as a mathematical value: the
/// buckets in the order of their paths, the sum of all money, and the
/// number of amounts that went in.
pub struct SummaryView {
    pub buckets: Seq<BucketView>,
    pub total: int,
    pub count: nat,
}

impl SummaryView {
    /// The paths are strictly ascending, so none is there twice; the
    /// total is the sum of the buckets; and no sum is larger than the
    /// amounts that went in can make it.
    pub open spec fn wf(self) -> bool {
        &&& paths_ascending(self.buckets)
        &&& self.total == sum_money(self.buckets)
        &&& self.count <= u64::MAX
        &&& -self.count * amount_bound() <= self.total <= self.count * amount_bound()
        &&& forall|i: int|
            0 <= i < self.buckets.len() ==> -self.count * amount_bound() <= (
            #[trigger] self.buckets[i]).money <= self.count * amount_bound()
    }

    /// Nothing summed.
    pub open spec fn empty() -> SummaryView {
        SummaryView { buckets: Seq::empty(), total: 0, count: 0 }
    }

    /// The summary after `money` was added under `path`.
    pub open spec fn add(self, path: Seq<Seq<char>>, money: int) -> SummaryView {
        SummaryView {
            buckets: accumulate(self.buckets, path, money),
            total: self.total + money,
            count: self.count + 1,
        }
    }

    /// The summary after every bucket of `other` was added under its
    /// path, and the totals added.
    pub open spec fn merge(self, other: SummaryView) -> SummaryView {
        SummaryView {
            buckets: accumulate_first(self.buckets, other.buckets, other.buckets.len()),
            total: self.total + other.total,
            count: self.count + other.count,
        }
    }

    /// The money summed under `path`; 0 where nothing was.
    pub open spec fn money_of(self, path: Seq<Seq<char>>) -> int {
        money_of(self.buckets, path)
    }

    /// Merging two summaries gives a well-formed summary that holds,
    /// under every path, the sum of what both held under it.
    pub proof fn lemma_merge_wf(self, other: SummaryView)
        requires
            self.wf(),
            other.wf(),
            self.count + other.count <= u64::MAX,
        ensures
            self.merge(other).wf(),
            forall|q: Seq<Seq<char>>|
                #[trigger] self.merge(other).money_of(q) == self.money_of(q) + other.money_of(q),
    {
        let merged = self.merge(other);
        let n = other.buckets.len();
        lemma_accumulate_first(self.buckets, other.buckets, n);
        assert(other.buckets.take(n as int) =~= other.buckets);
        let c1 = self.count as int;
        let c2 = other.count as int;
        let b = amount_bound();
        assert((c1 + c2) * b == c1 * b + c2 * b) by (nonlinear_arith);
        assert forall|i: int| 0 <= i < merged.buckets.len() implies -merged.count * amount_bound()
            <= (#[trigger] merged.buckets[i]).money <= merged.count * amount_bound() by {
            let q = merged.buckets[i].path;
            lemma_index_of_path(merged.buckets, i);
            assert(merged.buckets[i].money == money_of(merged.buckets, q));
            assert(money_of(merged.buckets, q) == money_of(self.buckets, q) + money_of(
                other.buckets,
                q,
            ));
            assert(c1 * b >= 0 && c2 * b >= 0) by (nonlinear_arith)
                requires
                    c1 >= 0,
                    c2 >= 0,
                    b >= 0,
            ;
        }
    }

    /// Adding an amount keeps the summary well-formed.
    pub proof fn lemma_add_wf(self, path: Seq<Seq<char>>, money: int)
        requires
            self.wf(),
            self.count < u64::MAX,
            -amount_bound() <= money <= amount_bound(),
        ensures
            self.add(path, money).wf(),
    {
        let c = self.count as int;
        let b = amount_bound();
        assert((c + 1) * b == c * b + b) by (nonlinear_arith);
        assert(c * b >= 0) by (nonlinear_arith)
            requires
                c >= 0,
                b >= 0,
        ;
        lemma_accumulate(self.buckets, path, money);
        lemma_accumulate_bounds(self.buckets, path, money, c * b, b);
    }
}

/// The views of a sequence of buckets, one for one.
pub open spec fn buckets_view(buckets: Seq<(Vec<String>, i128)>) -> Seq<BucketView> {
    Seq::new(
        buckets.len(),
        |i: int| BucketView { path: path_view(buckets[i].0@), money: buckets[i].1 as int },
    )
}

/// Sums of money by path of concepts, in the order of the paths, with the
/// sum of all. Money is counted in hundredths of the currency unit.
#[derive(Debug)]
pub struct ActivitySummary {
    m_activity_to_money: Vec<(Vec<String>, i128)>,
    m_total_money: i128,
    m_count: u64,
}

impl View for ActivitySummary {
    type V = SummaryView;

    closed spec fn view(&self) -> SummaryView {
        SummaryView {
            buckets: buckets_view(self.m_activity_to_money@),
            total: self.m_total_money as int,
            count: self.m_count as nat,
        }
    }
}

impl ActivitySummary {
    /// The paths are strictly ascending, the total is the sum of the
    /// buckets, and no sum is larger than the amounts that went in can
    /// make it.
    pub open spec fn wf(&self) -> bool {
        self@.wf()
    }

    /// Nothing summed.
    pub fn new() -> (r: ActivitySummary)
        ensures
            r@ == SummaryView::empty(),
            r.wf(),
    {
        let r = ActivitySummary { m_activity_to_money: Vec::new(), m_total_money: 0, m_count: 0 };
        assert(r@.buckets =~= Seq::empty());
        r
    }

    /// Binary search for `path` among the buckets: its place, or else the
    /// place where it would stand.
    fn search(v: &Vec<(Vec<String>, i128)>, path: &Vec<String>) -> (r: Result<usize, usize>)
        requires
            paths_ascending(buckets_view(v@)),
        ensures
            match r {
                Ok(i) => {
                    &&& i < v.len()
                    &&& has_path(buckets_view(v@), path_view(path@))
                    &&& index_of_path(buckets_view(v@), path_view(path@)) == i
                },
                Err(i) => {
                    &&& i <= v.len()
                    &&& !has_path(buckets_view(v@), path_view(path@))
                    &&& path_rank(buckets_view(v@), path_view(path@)) == i
                },
            },
    {
        let ghost buckets = buckets_view(v@);
        let ghost target = path_view(path@);
        let mut lo: usize = 0;
        let mut hi: usize = v.len();
        while lo < hi
            invariant
                buckets == buckets_view(v@),
                target == path_view(path@),
                paths_ascending(buckets),
                lo <= hi <= v.len(),
                forall|j: int| 0 <= j < lo ==> path_lt((#[trigger] buckets[j]).path, target),
                forall|j: int| hi <= j < buckets.len() ==> path_lt(target, (#[trigger] buckets[j]).path),
            decreases hi - lo,
        {
            let mid: usize = lo + (hi - lo) / 2;
            assert(buckets[mid as int].path == path_view(v[mid as int].0@));
            match compare_paths(&v[mid].0, path) {
                Comparison::Less => {
                    proof {
                        assert forall|j: int| 0 <= j < mid + 1 implies path_lt(
                            (#[trigger] buckets[j]).path,
                            target,
                        ) by {
                            if j < mid {
                                lemma_path_lt_transitive(
                                    buckets[j].path,
                                    buckets[mid as int].path,
                                    target,
                                );
                            }
                        }
                    }
                    lo = mid + 1;
                },
                Comparison::Equal => {
                    proof {
                        lemma_path_order_equal(buckets[mid as int].path, target);
                        lemma_index_of_path(buckets, mid as int);
                    }
                    return Ok(mid);
                },
                Comparison::Greater => {
                    proof {
                        lemma_path_order_flip(buckets[mid as int].path, target);
                        assert forall|j: int| mid <= j < buckets.len() implies path_lt(
                            target,
                            (#[trigger] buckets[j]).path,
                        ) by {
                            if mid < j {
                                lemma_path_lt_transitive(
                                    target,
                                    buckets[mid as int].path,
                                    buckets[j].path,
                                );
                            }
                        }
                    }
                    hi = mid;
                },
            }
        }
        proof {
            assert forall|j: int| 0 <= j < buckets.len() implies (#[trigger] buckets[j]).path
                != target by {
                lemma_path_order_equal(target, target);
                if j < lo {
                    lemma_path_order_flip(buckets[j].path, target);
                }
            }
            assert forall|j: int| lo <= j < buckets.len() implies !path_lt(
                (#[trigger] buckets[j]).path,
                target,
            ) by {
                lemma_path_order_flip(buckets[j].path, target);
            }
            lemma_path_rank(buckets, target, lo as int);
        }
        Err(lo)
    }

    /// Adds `money` under `path`: the bucket of that path grows by it, or
    /// a new bucket comes in at its sorted place.
    fn accumulate_into(v: &mut Vec<(Vec<String>, i128)>, path: Vec<String>, money: i128)
        requires
            paths_ascending(buckets_view(old(v)@)),
            i128::MIN <= money_of(buckets_view(old(v)@), path_view(path@)) + money <= i128::MAX,
        ensures
            buckets_view(final(v)@) == accumulate(
                buckets_view(old(v)@),
                path_view(path@),
                money as int,
            ),
    {
        let ghost before = buckets_view(v@);
        match Self::search(v, &path) {
            Ok(idx) => {
                assert(before[idx as int].money == v[idx as int].1);
                let sum: i128 = v[idx].1 + money;
                v[idx].1 = sum;
                assert(buckets_view(v@) =~= accumulate(before, path_view(path@), money as int));
            },
            Err(idx) => {
                v.insert(idx, (path, money));
                assert(buckets_view(v@) =~= accumulate(before, path_view(path@), money as int));
            },
        }
    }

    /// Adds the amount `price` under the path `types`, and to the total.
    /// Fewer amounts than a `u64` can count must have gone in before.
    pub fn add(&mut self, types: Vec<String>, price: i64)
        requires
            old(self).wf(),
            old(self)@.count < u64::MAX,
        ensures
            final(self)@ == old(self)@.add(path_view(types@), price as int),
            final(self).wf(),
    {
        let ghost pre = self@;
        let ghost path = path_view(types@);
        proof {
            pre.lemma_add_wf(path, price as int);
            let c = pre.count as int;
            let b = amount_bound();
            assert(0 <= c * b <= (u64::MAX - 1) * b) by (nonlinear_arith)
                requires
                    0 <= c <= u64::MAX - 1,
                    b >= 0,
            ;
            if has_path(pre.buckets, path) {
                let i = index_of_path(pre.buckets, path);
                assert(-c * b <= pre.buckets[i].money <= c * b);
            }
        }
        self.m_total_money = self.m_total_money + price as i128;
        self.m_count = self.m_count + 1;
        Self::accumulate_into(&mut self.m_activity_to_money, types, price as i128);
    }

    /// Adds every bucket of `other` under its path, and the total of
    /// `other` to the total. Together, fewer amounts than a `u64` can
    /// count must have gone into both.
    pub fn merge(&mut self, other: ActivitySummary)
        requires
            old(self).wf(),
            other.wf(),
            old(self)@.count + other@.count <= u64::MAX,
        ensures
            final(self)@ == old(self)@.merge(other@),
            final(self).wf(),
            forall|q: Seq<Seq<char>>|
                #[trigger] final(self)@.money_of(q) == old(self)@.money_of(q) + other@.money_of(q),
    {
        let ghost pre = self@;
        let ghost ov = other@;
        let ghost c1 = pre.count as int;
        let ghost c2 = ov.count as int;
        let ghost b = amount_bound();
        proof {
            pre.lemma_merge_wf(ov);
            assert(0 <= c1 * b && 0 <= c2 * b && c1 * b + c2 * b == (c1 + c2) * b && (c1 + c2) * b
                <= u64::MAX * b) by (nonlinear_arith)
                requires
                    0 <= c1,
                    0 <= c2,
                    c1 + c2 <= u64::MAX,
                    b >= 0,
            ;
            assert(accumulate_first(pre.buckets, ov.buckets, 0) == pre.buckets);
        }
        self.m_total_money = self.m_total_money + other.m_total_money;
        self.m_count = self.m_count + other.m_count;
        for entry in it: other.m_activity_to_money
            invariant
                it.seq().len() == ov.buckets.len(),
                buckets_view(it.seq()) == ov.buckets,
                pre.wf(),
                ov.wf(),
                c1 == pre.count,
                c2 == ov.count,
                b == amount_bound(),
                c1 + c2 <= u64::MAX,
                0 <= c1 * b,
                0 <= c2 * b,
                c1 * b + c2 * b <= u64::MAX * b,
                self.m_total_money == pre.total + ov.total,
                self.m_count == pre.count + ov.count,
                buckets_view(self.m_activity_to_money@) == accumulate_first(
                    pre.buckets,
                    ov.buckets,
                    it.index() as nat,
                ),
        {
            let ghost k = it.index();
            let (path, money) = entry;
            proof {
                assert(ov.buckets[k].path == path_view(path@));
                assert(ov.buckets[k].money == money);
                lemma_accumulate_first(pre.buckets, ov.buckets, k as nat);
                let q = path_view(path@);
                let here = accumulate_first(pre.buckets, ov.buckets, k as nat);
                assert(money_of(here, q) == money_of(pre.buckets, q) + money_of(
                    ov.buckets.take(k),
                    q,
                ));
                lemma_take_lookup(ov.buckets, k, q);
                if has_path(ov.buckets.take(k), q) {
                    let j = index_of_path(ov.buckets.take(k), q);
                    assert(ov.buckets.take(k)[j] == ov.buckets[j]);
                    assert(path_lt(ov.buckets[j].path, ov.buckets[k].path));
                    lemma_path_order_equal(q, q);
                }
                assert(money_of(ov.buckets.take(k), q) == 0);
                if has_path(pre.buckets, q) {
                    let i = index_of_path(pre.buckets, q);
                    assert(-c1 * b <= pre.buckets[i].money <= c1 * b);
                }
                assert(-c2 * b <= ov.buckets[k].money <= c2 * b);
            }
            Self::accumulate_into(&mut self.m_activity_to_money, path, money);
        }
    }

    /// Adds every bucket of `other` under its path, and the total of
    /// `other` to the total, where fewer amounts than a `u64` can count
    /// went into both together. Otherwise nothing changes, and the answer
    /// is `false`.
    pub fn try_merge(&mut self, other: ActivitySummary) -> (done: bool)
        requires
            old(self).wf(),
            other.wf(),
        ensures
            done == (old(self)@.count + other@.count <= u64::MAX),
            done ==> final(self)@ == old(self)@.merge(other@),
            !done ==> final(self)@ == old(self)@,
            final(self).wf(),
    {
        if other.m_count <= u64::MAX - self.m_count {
            self.merge(other);
            true
        } else {
            false
        }
    }

    /// The money summed under `path`; 0 where nothing was.
    pub fn get_money(&self, path: &Vec<String>) -> (money: i128)
        requires
            self.wf(),
        ensures
            money == self@.money_of(path_view(path@)),
    {
        match Self::search(&self.m_activity_to_money, path) {
            Ok(idx) => {
                assert(self@.buckets[idx as int].money == self.m_activity_to_money[idx as int].1);
                self.m_activity_to_money[idx].1
            },
            Err(_) => 0,
        }
    }

    /// The number of amounts that went in.
    pub fn get_count(&self) -> (count: u64)
        ensures
            count == self@.count,
    {
        self.m_count
    }

    /// The sum of all amounts that went in.
    pub fn get_total(&self) -> (total: i128)
        ensures
            total == self@.total,
    {
        self.m_total_money
    }

    /// Whether anything was summed.
    pub fn has_data(&self) -> (r: bool)
        ensures
            r == (self@.buckets.len() > 0),
    {
        self.m_activity_to_money.len() > 0
    }

    /// The buckets, in the order of their paths.
    pub closed spec fn entries(&self) -> Seq<(Vec<String>, i128)> {
        self.m_activity_to_money@
    }

    /// The view holds the views of the buckets, one for one.
    pub proof fn lemma_entries(&self)
        ensures
            self@.buckets == buckets_view(self.entries()),
    {
    }

    /// An iterator over the buckets, in the order of their paths.
    pub fn iter_summary(&self) -> (it: std::slice::Iter<'_, (Vec<String>, i128)>)
        ensures
            vstd::std_specs::iter::IteratorSpec::remaining(&it) == self.entries().as_ref(),
            vstd::std_specs::iter::IteratorSpec::decrease(&it) is Some,
            vstd::std_specs::iter::IteratorSpec::initial_value_relation(&it, &it),
    {
        self.m_activity_to_money.as_slice().iter()
    }
}

} // verus!
